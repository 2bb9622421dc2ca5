//! What the operations keep: order, signs, and a number times 1.

use vstd::prelude::*;
use vstd::arithmetic::power2::*;
use crate::number::convert::one;
use crate::number::pack::{lemma_round_exact, lemma_round_zero};
use crate::number::product::{lemma_of_value, mul_value, unit};
use crate::number::quot::div_value;
use crate::number::rounding::{lemma_round_monotone_same, lemma_round_scale, round_mag, rounded};
use crate::number::scalar::{
    expo_of, frac_of, inf_mag, lemma_field_mag_bounds, Scalar, Value, HIDDEN_BIT,
};
use crate::number::sum::{add_value, signed_mag, sub_value};

verus! {

/// A magnitude, held at that of infinity.
pub open spec fn capped(m: nat) -> nat {
    if m >= inf_mag() {
        inf_mag()
    } else {
        m
    }
}

/// Whether a value is a number that is not below zero; `-0` is none.
pub open spec fn not_negative(v: Value) -> bool {
    !v.is_nan() && !v.is_neg()
}

/// The number that a rounded value stands for.
pub proof fn lemma_rounded_signed(neg: bool, num: nat, den: nat)
    ensures
        !rounded(neg, num, den).is_nan(),
        rounded(neg, num, den).is_neg() == neg,
        rounded(neg, num, den).signed() == signed_mag(neg, capped(round_mag(num, den))),
{
}

/// The sum of a value and of a whole number of units, as a number: the
/// rounded exact sum, with its sign.
pub open spec fn sum_signed(e: int) -> int {
    if e == 0 {
        0
    } else if e < 0 {
        -(capped(round_mag((-e) as nat, 1)) as int)
    } else {
        capped(round_mag(e as nat, 1)) as int
    }
}

/// The rounded sum keeps the order of the exact sums.
pub proof fn lemma_sum_signed_monotone(e1: int, e2: int)
    requires
        e1 <= e2,
    ensures
        sum_signed(e1) <= sum_signed(e2),
{
    if e1 > 0 {
        lemma_round_monotone_same(e1 as nat, e2 as nat, 1);
    } else if e2 < 0 {
        lemma_round_monotone_same((-e2) as nat, (-e1) as nat, 1);
    }
}

/// Taking a number that is not negative away from `x` gives no more than
/// adding it to `x`, unless one of the two is not a number.
pub proof fn lemma_minus_plus(x: Scalar, s: Scalar)
    requires
        !x@.is_nan(),
        !s@.is_nan(),
        s@.signed() >= 0,
    ensures
        ({
            let lo = sub_value(x@, s@);
            let hi = add_value(x@, s@);
            lo is Nan || hi is Nan || lo.signed() <= hi.signed()
        }),
{
    lemma_pow2_pos(2098);
    match (x@, s@) {
        (Value::Finite { neg: n1, mag: m1 }, Value::Finite { neg: n2, mag: m2 }) => {
            let sx = signed_mag(n1, m1);
            let ss = signed_mag(n2, m2);
            let e_lo = sx + signed_mag(!n2, m2);
            let e_hi = sx + ss;
            assert(e_lo <= e_hi);
            lemma_sum_signed_monotone(e_lo, e_hi);
            if e_lo != 0 {
                lemma_rounded_signed(e_lo < 0, (if e_lo < 0 {
                    -e_lo
                } else {
                    e_lo
                }) as nat, 1);
            }
            if e_hi != 0 {
                lemma_rounded_signed(e_hi < 0, (if e_hi < 0 {
                    -e_hi
                } else {
                    e_hi
                }) as nat, 1);
            }
            assert(sub_value(x@, s@).signed() == sum_signed(e_lo));
            assert(add_value(x@, s@).signed() == sum_signed(e_hi));
        },
        _ => {},
    }
}

/// Division by a number that is not negative keeps the order of the
/// dividends, unless one of the quotients is not a number.
pub proof fn lemma_div_monotone(lo: Scalar, hi: Scalar, a: Scalar)
    requires
        !lo@.is_nan(),
        !hi@.is_nan(),
        not_negative(a@),
        lo@.signed() <= hi@.signed(),
    ensures
        ({
            let q1 = div_value(lo@, a@);
            let q2 = div_value(hi@, a@);
            q1 is Nan || q2 is Nan || q1.signed() <= q2.signed()
        }),
{
    lemma_pow2_pos(2098);
    lemma_pow2_pos(1074);
    if lo@ is Finite {
        lemma_magnitude_exact(lo);
    }
    if hi@ is Finite {
        lemma_magnitude_exact(hi);
    }
    match a@ {
        Value::Finite { neg, mag: d } => {
            if d > 0 {
                match (lo@, hi@) {
                    (Value::Finite { neg: n1, mag: m1 }, Value::Finite { neg: n2, mag: m2 }) => {
                        lemma_rounded_signed(n1, m1 * unit(), d);
                        lemma_rounded_signed(n2, m2 * unit(), d);
                        lemma_round_zero(d);
                        if !n1 && !n2 {
                            assert(m1 * unit() <= m2 * unit()) by (nonlinear_arith)
                                requires
                                    m1 <= m2,
                            ;
                            lemma_round_monotone_same(m1 * unit(), m2 * unit(), d);
                        } else if n1 && n2 {
                            assert(m2 * unit() <= m1 * unit()) by (nonlinear_arith)
                                requires
                                    m2 <= m1,
                            ;
                            lemma_round_monotone_same(m2 * unit(), m1 * unit(), d);
                        } else if !n1 && n2 {
                            assert(m1 == 0 && m2 == 0);
                            assert(m1 * unit() == 0 && m2 * unit() == 0) by (nonlinear_arith)
                                requires
                                    m1 == 0,
                                    m2 == 0,
                            ;
                        }
                    },
                    (Value::Finite { neg: n1, mag: m1 }, _) => {
                        lemma_rounded_signed(n1, m1 * unit(), d);
                    },
                    (_, Value::Finite { neg: n2, mag: m2 }) => {
                        lemma_rounded_signed(n2, m2 * unit(), d);
                    },
                    _ => {},
                }
            }
        },
        _ => {},
    }
}

/// A square root is not negative, unless it is no number; the root of `-0`
/// is `-0`, which counts as zero.
pub proof fn lemma_sqrt_not_negative(x: Scalar)
    ensures
        x.sqrt_spec()@ is Nan || x.sqrt_spec()@.signed() >= 0,
{
    lemma_pow2_pos(2098);
    x.lemma_sqrt_view();
    match x@ {
        Value::Finite { neg, mag } => {
            if mag != 0 && !neg {
                let s = crate::number::root::floor_sqrt(mag * unit());
                lemma_rounded_signed(false, s, 1);
                lemma_rounded_signed(false, 2 * s + 1, 2);
            }
        },
        _ => {},
    }
}

/// A product of a number with itself is not negative, and neither is a sum
/// of numbers that are not negative.
pub proof fn lemma_square_not_negative(x: Scalar, y: Scalar)
    ensures
        x.mul_spec(x)@ is Nan || not_negative(x.mul_spec(x)@),
        not_negative(x@) && not_negative(y@) ==> x.add_spec(y)@ is Nan || not_negative(
            x.add_spec(y)@,
        ),
{
    x.lemma_mul_view(x);
    x.lemma_add_view(y);
    match x@ {
        Value::Finite { neg, mag } => {
            lemma_rounded_signed(false, mag * mag, unit());
        },
        _ => {},
    }
    match (x@, y@) {
        (Value::Finite { neg: n1, mag: m1 }, Value::Finite { neg: n2, mag: m2 }) => {
            if not_negative(x@) && not_negative(y@) && m1 + m2 > 0 {
                lemma_rounded_signed(false, m1 + m2, 1);
            }
        },
        _ => {},
    }
}

/// The magnitude of a finite double is rounded to itself, and it is less
/// than 2^1024.
pub proof fn lemma_magnitude_exact(x: Scalar)
    requires
        x@ is Finite,
    ensures
        round_mag(x@->Finite_mag, 1) == x@->Finite_mag,
        x@->Finite_mag < pow2(2098),
{
    let e = expo_of(x.bits);
    let f = frac_of(x.bits);
    lemma_field_mag_bounds(e, f);
    lemma2_to64();
    lemma2_to64_rest();
    if e == 0 {
        lemma_round_exact(f, 0);
        assert(f * pow2(0) == f) by (nonlinear_arith)
            requires
                pow2(0) == 1,
        ;
        lemma_pow2_strictly_increases(52, 2098);
    } else {
        lemma_round_exact(HIDDEN_BIT as nat + f, (e - 1) as nat);
        if 52 + e < 2098 {
            lemma_pow2_strictly_increases(52 + e, 2098);
        }
    }
}

/// A number times 1 is the number.
pub proof fn lemma_mul_one(x: Scalar)
    requires
        !x@.is_nan(),
    ensures
        x.mul_spec(one()) == x,
{
    reveal(Scalar::mul_spec);
    lemma2_to64_rest();
    lemma_pow2_adds(52, 1022);
    lemma_pow2_pos(1074);
    assert(one()@ == (Value::Finite { neg: false, mag: unit() }));
    match x@ {
        Value::Finite { neg, mag } => {
            lemma_magnitude_exact(x);
            lemma_round_scale(mag, 1, unit());
            assert(1 * unit() == unit());
            assert(mul_value(x@, one()@) == x@);
        },
        _ => {
            assert(mul_value(x@, one()@) == x@);
        },
    }
    lemma_of_value(x);
}

/// 1 over 1 is 1.
pub proof fn lemma_one_over_one()
    ensures
        one().div_spec(one()) == one(),
{
    reveal(Scalar::div_spec);
    lemma2_to64_rest();
    lemma_pow2_adds(52, 1022);
    lemma_pow2_pos(1074);
    assert(one()@ == (Value::Finite { neg: false, mag: unit() }));
    lemma_magnitude_exact(one());
    lemma_round_scale(unit(), 1, unit());
    assert(1 * unit() == unit());
    assert(div_value(one()@, one()@) == one()@);
    lemma_of_value(one());
}

/// Whether two values are opposite numbers; zeros of either sign are
/// opposite to each other.
pub open spec fn opposite(a: Value, b: Value) -> bool {
    a == b.negated() || (a.is_zero() && b.is_zero())
}

/// The view of a negated double is the negated view.
pub proof fn lemma_neg_view(x: Scalar)
    ensures
        x.neg_spec()@ == x@.negated(),
{
}

/// A product with a negated factor is the negated product.
pub proof fn lemma_mul_negated(a: Scalar, b: Scalar)
    ensures
        a.mul_spec(b.neg_spec())@ == a.mul_spec(b)@.negated(),
{
    lemma_neg_view(b);
    a.lemma_mul_view(b);
    a.lemma_mul_view(b.neg_spec());
}

/// The sum of the opposites is opposite to the sum.
pub proof fn lemma_add_opposite(a1: Scalar, b1: Scalar, a2: Scalar, b2: Scalar)
    requires
        opposite(a1@, a2@),
        opposite(b1@, b2@),
    ensures
        opposite(a1.add_spec(b1)@, a2.add_spec(b2)@),
{
    a1.lemma_add_view(b1);
    a2.lemma_add_view(b2);
}

} // verus!
