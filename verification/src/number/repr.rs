//! Every result of the arithmetic is the value of some double, so that the
//! view of a result in a contract is the value that the contract names.

use vstd::prelude::*;
use vstd::arithmetic::power2::*;
use vstd::arithmetic::mul::*;
use crate::number::product::{mul_value, of_value, unit};
use crate::number::quot::div_value;
use crate::number::root::{floor_sqrt, sqrt_value};
use crate::number::rounding::{lemma_round_bounds, nearest_even, quantum, round_mag, rounded};
use crate::number::scalar::{inf_mag, Scalar, Value, HIDDEN_BIT, INF_BITS, SIGN_BIT};
use crate::number::sum::{add_value, sub_value};

verus! {

/// Whether a value is that of some double.
pub open spec fn representable(v: Value) -> bool {
    v is Nan || exists|s: Scalar| s@ == v
}

/// The double that stands for a representable value has it as its view.
pub proof fn lemma_of_representable(v: Value)
    requires
        representable(v),
    ensures
        of_value(v)@ == v,
{
}

/// The infinities and the zeros are representable.
pub proof fn lemma_special_representable(neg: bool)
    ensures
        representable(Value::Inf { neg }),
        representable(Value::Finite { neg, mag: 0 }),
{
    let inf = Scalar { bits: if neg {
        (INF_BITS + SIGN_BIT) as u64
    } else {
        INF_BITS
    } };
    assert(inf@ == (Value::Inf { neg }));
    let zero = Scalar { bits: if neg {
        SIGN_BIT
    } else {
        0
    } };
    assert(zero@ == (Value::Finite { neg, mag: 0 }));
}

/// A mantissa below 2^53 on a grid of exponent at most 2045 gives a
/// representable number, where the mantissa has 53 bits or the grid is the
/// finest.
pub proof fn lemma_finite_representable(neg: bool, m: nat, k: nat)
    requires
        m < pow2(53),
        k > 0 ==> m >= pow2(52),
        k <= 2045,
    ensures
        representable(Value::Finite { neg, mag: m * pow2(k) }),
{
    lemma2_to64();
    lemma2_to64_rest();
    let low: nat = if m < HIDDEN_BIT {
        m
    } else {
        ((k + 1) * HIDDEN_BIT + (m - HIDDEN_BIT)) as nat
    };
    let bits: nat = if neg {
        (low + SIGN_BIT) as nat
    } else {
        low
    };
    assert((k + 1) * HIDDEN_BIT <= 2046 * HIDDEN_BIT) by (nonlinear_arith)
        requires
            k <= 2045,
    ;
    let s = Scalar { bits: bits as u64 };
    if m < HIDDEN_BIT {
        assert(m * pow2(0) == m) by (nonlinear_arith)
            requires
                pow2(0) == 1,
        ;
    }
    assert(s@ == (Value::Finite { neg, mag: m * pow2(k) }));
}

/// What a fraction rounds to is representable.
pub proof fn lemma_rounded_representable(neg: bool, num: nat, den: nat)
    requires
        den > 0,
    ensures
        representable(rounded(neg, num, den)),
{
    let k = quantum(num, den);
    let pk = pow2(k);
    let m = nearest_even(num, den * pk);
    let mag = round_mag(num, den);
    lemma_round_bounds(num, den);
    lemma_pow2_pos(k);
    lemma_pow2_adds(53, k);
    lemma_pow2_adds(52, k);
    lemma2_to64_rest();
    lemma_special_representable(neg);
    if mag < inf_mag() {
        // m <= 2^53, and m >= 2^52 on every grid but the finest
        assert(m <= pow2(53)) by (nonlinear_arith)
            requires
                m * pk <= pow2(53) * pk,
                pk > 0,
        ;
        if k > 0 {
            assert(m >= pow2(52)) by (nonlinear_arith)
                requires
                    pow2(52) * pk <= m * pk,
                    pk > 0,
            ;
        }
        if m == pow2(53) {
            // the same number on the next grid
            lemma_pow2_unfold(k + 1);
            assert(mag == pow2(52) * pow2(k + 1)) by (nonlinear_arith)
                requires
                    mag == m * pk,
                    m == 2 * pow2(52),
                    pow2(k + 1) == 2 * pk,
            ;
            lemma_pow2_adds(52, k + 1);
            if k + 1 > 2045 {
                if 52 + k + 1 > 2098 {
                    lemma_pow2_strictly_increases(2098, 52 + k + 1);
                }
                assert(false);
            }
            lemma_finite_representable(neg, pow2(52), k + 1);
        } else {
            if k > 2045 {
                if 52 + k > 2098 {
                    lemma_pow2_strictly_increases(2098, 52 + k);
                }
                assert(false);
            }
            lemma_finite_representable(neg, m, k);
        }
    }
}

impl Scalar {
    /// The view of a product is the product of the views.
    pub proof fn lemma_mul_view(self, other: Scalar)
        ensures
            self.mul_spec(other)@ == mul_value(self@, other@),
    {
        reveal(Scalar::mul_spec);
        lemma_pow2_pos(1074);
        let v = mul_value(self@, other@);
        match (self@, other@) {
            (Value::Finite { neg: n1, mag: m1 }, Value::Finite { neg: n2, mag: m2 }) => {
                lemma_rounded_representable(n1 != n2, m1 * m2, unit());
            },
            _ => {
                lemma_special_representable(v.is_neg());
            },
        }
        lemma_of_representable(v);
    }

    /// The view of a sum is the sum of the views.
    pub proof fn lemma_add_view(self, other: Scalar)
        ensures
            self.add_spec(other)@ == add_value(self@, other@),
    {
        reveal(Scalar::add_spec);
        let v = add_value(self@, other@);
        match (self@, other@) {
            (Value::Finite { neg: n1, mag: m1 }, Value::Finite { neg: n2, mag: m2 }) => {
                let s = crate::number::sum::signed_mag(n1, m1) + crate::number::sum::signed_mag(n2, m2);
                if s == 0 {
                    lemma_special_representable(n1 && n2);
                } else if s < 0 {
                    lemma_rounded_representable(true, (-s) as nat, 1);
                } else {
                    lemma_rounded_representable(false, s as nat, 1);
                }
            },
            _ => {
                lemma_special_representable(v.is_neg());
            },
        }
        lemma_of_representable(v);
    }

    /// The view of a difference is the difference of the views.
    pub proof fn lemma_sub_view(self, other: Scalar)
        ensures
            self.sub_spec(other)@ == sub_value(self@, other@),
    {
        reveal(Scalar::add_spec);
        reveal(Scalar::sub_spec);
        self.lemma_add_view(other.neg_spec());
        assert(other.neg_spec()@ == other@.negated());
        assert(self.sub_spec(other) == self.add_spec(other.neg_spec()));
    }

    /// The view of a quotient is the quotient of the views.
    pub proof fn lemma_div_view(self, other: Scalar)
        ensures
            self.div_spec(other)@ == div_value(self@, other@),
    {
        reveal(Scalar::div_spec);
        let v = div_value(self@, other@);
        match (self@, other@) {
            (Value::Finite { neg: n1, mag: m1 }, Value::Finite { neg: n2, mag: m2 }) => {
                if m2 > 0 {
                    lemma_rounded_representable(n1 != n2, m1 * unit(), m2);
                } else {
                    lemma_special_representable(n1 != n2);
                }
            },
            _ => {
                lemma_special_representable(v.is_neg());
            },
        }
        lemma_of_representable(v);
    }

    /// The view of a square root is the square root of the view.
    pub proof fn lemma_sqrt_view(self)
        ensures
            self.sqrt_spec()@ == sqrt_value(self@),
    {
        reveal(Scalar::sqrt_spec);
        let v = sqrt_value(self@);
        match self@ {
            Value::Finite { neg, mag } => {
                if mag != 0 && !neg {
                    let s = floor_sqrt(mag * unit());
                    lemma_rounded_representable(false, s, 1);
                    lemma_rounded_representable(false, 2 * s + 1, 2);
                }
            },
            _ => {},
        }
        lemma_of_representable(v);
    }
}

} // verus!
