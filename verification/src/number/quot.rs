//! Division of doubles.

use vstd::prelude::*;
use vstd::arithmetic::power2::*;
use vstd::arithmetic::mul::*;
use vstd::arithmetic::div_mod::*;
use crate::number::product::{lemma_of_nan, lemma_of_value, of_value, unit, unpack};
use crate::number::pack::{
    bit_len, lemma_round_zero, pow2_u128, round_pack, signed_infinity, signed_zero, BASE,
};
use crate::number::rounding::{lemma_round_between, lemma_round_scale, round_mag, rounded};
use crate::number::scalar::{Scalar, Value};

verus! {

/// The quotient of two values. A finite number over zero is infinite, zero
/// over zero is NaN.
pub open spec fn div_value(a: Value, b: Value) -> Value {
    match (a, b) {
        (Value::Nan, _) => Value::Nan,
        (_, Value::Nan) => Value::Nan,
        (Value::Inf { .. }, Value::Inf { .. }) => Value::Nan,
        (Value::Inf { neg: n1 }, Value::Finite { neg: n2, .. }) => Value::Inf { neg: n1 != n2 },
        (Value::Finite { neg: n1, .. }, Value::Inf { neg: n2 }) => Value::Finite {
            neg: n1 != n2,
            mag: 0,
        },
        (Value::Finite { neg: n1, mag: m1 }, Value::Finite { neg: n2, mag: m2 }) => if m2 == 0 {
            if m1 == 0 {
                Value::Nan
            } else {
                Value::Inf { neg: n1 != n2 }
            }
        } else {
            rounded(n1 != n2, m1 * unit(), m2)
        },
    }
}

/// Two fractions that are equal round alike.
pub proof fn lemma_round_equal(n1: nat, d1: nat, n2: nat, d2: nat)
    requires
        d1 > 0,
        d2 > 0,
        n1 * d2 == n2 * d1,
    ensures
        round_mag(n1, d1) == round_mag(n2, d2),
{
    lemma_round_scale(n1, d1, d2);
    lemma_round_scale(n2, d2, d1);
    assert(d1 * d2 == d2 * d1) by (nonlinear_arith);
}

/// The mantissa shifted up until it has 53 bits, and by how many places.
pub fn normalize(m: u64) -> (r: (u128, u32))
    requires
        0 < m < 0x20_0000_0000_0000,
    ensures
        r.1 <= 52,
        r.0 == m as nat * pow2(r.1 as nat),
        0x10_0000_0000_0000 <= r.0 < 0x20_0000_0000_0000,
{
    let len = bit_len(m as u128);
    proof {
        lemma2_to64_rest();
        if len > 53 {
            lemma_pow2_strictly_increases(53, (len - 1) as nat);
        }
    }
    let up: u32 = 53 - len;
    let p = pow2_u128(up);
    proof {
        lemma_pow2_adds((len - 1) as nat, up as nat);
        lemma_pow2_adds(len as nat, up as nat);
        lemma_mul_inequality(pow2((len - 1) as nat) as int, m as int, p as int);
        lemma_mul_strict_inequality(m as int, pow2(len as nat) as int, p as int);
    }
    ((m as u128) * p, up)
}

/// How the quotient of the shifted mantissas, with its remainder, stands to
/// the quotient of the numbers themselves.
proof fn lemma_quotient(
    ma: nat,
    ka: nat,
    la: nat,
    mb: nat,
    kb: nat,
    lb: nat,
    q: nat,
    rem: nat,
    e: nat,
)
    requires
        la <= 52,
        lb <= 52,
        kb <= 2045,
        mb > 0,
        ma * pow2(la) * pow2(62) == q * (mb * pow2(lb)) + rem,
        rem < mb * pow2(lb),
        e == BASE + 1012 + lb + ka - la - kb,
    ensures
        ({
            let num = (ma * pow2(ka)) * unit();
            let den = mb * pow2(kb);
            let pb = pow2(BASE as nat);
            &&& den > 0
            &&& rem == 0 ==> num * pb == (q * pow2(e)) * den
            &&& rem > 0 ==> q * pow2(e) * den < num * pb && num * pb < (q + 1) * pow2(e) * den
        }),
{
    let g = (ka + 1012 + BASE - la) as nat;
    let pg = pow2(g);
    lemma_pow2_pos(g);
    lemma_pow2_pos(kb);
    lemma_pow2_adds(g, lb);
    lemma_pow2_adds(e, kb);
    lemma_pow2_adds(la, 62);
    lemma_pow2_adds(g, la + 62);
    lemma_pow2_adds(ka, 1074);
    lemma_pow2_adds(ka + 1074, BASE as nat);
    let num = (ma * pow2(ka)) * unit();
    let den = mb * pow2(kb);
    let pb = pow2(BASE as nat);
    let mbn = mb * pow2(lb);
    assert(den > 0) by (nonlinear_arith)
        requires
            den == mb * pow2(kb),
            mb > 0,
            pow2(kb) > 0,
    ;
    assert(num * pb == (q * mbn + rem) * pg) by (nonlinear_arith)
        requires
            num == (ma * pow2(ka)) * pow2(1074),
            pow2(ka) * pow2(1074) * pb == pg * (pow2(la) * pow2(62)),
            ma * pow2(la) * pow2(62) == q * mbn + rem,
    ;
    assert(q * pow2(e) * den == q * mbn * pg && (q + 1) * pow2(e) * den == (q + 1) * mbn * pg)
        by (nonlinear_arith)
        requires
            den == mb * pow2(kb),
            mbn == mb * pow2(lb),
            pow2(e) * pow2(kb) == pg * pow2(lb),
    ;
    assert((q * mbn + rem) * pg == q * mbn * pg + rem * pg && (q + 1) * mbn * pg == q * mbn * pg
        + mbn * pg) by (nonlinear_arith);
    if rem > 0 {
        assert(0 < rem * pg < mbn * pg) by (nonlinear_arith)
            requires
                0 < rem < mbn,
                pg > 0,
        ;
    } else {
        assert(rem * pg == 0) by (nonlinear_arith)
            requires
                rem == 0,
        ;
        assert(q * pow2(e) * den == (q * pow2(e)) * den) by (nonlinear_arith);
    }
}

/// The quotient of two finite numbers, the second of them not zero.
fn div_finite(neg: bool, ma: u64, ka: u32, mb: u64, kb: u32) -> (r: Scalar)
    requires
        ma < 0x20_0000_0000_0000,
        0 < mb < 0x20_0000_0000_0000,
        ka <= 2045,
        kb <= 2045,
    ensures
        r@ == rounded(
            neg,
            (ma as nat * pow2(ka as nat)) * unit(),
            mb as nat * pow2(kb as nat),
        ),
{
    let ghost num = (ma as nat * pow2(ka as nat)) * unit();
    let ghost den = mb as nat * pow2(kb as nat);
    proof {
        lemma2_to64();
        lemma2_to64_rest();
        lemma_pow2_pos(kb as nat);
        lemma_pow2_pos(BASE as nat);
        lemma_pow2_pos(2098);
        assert(den > 0) by (nonlinear_arith)
            requires
                den == mb as nat * pow2(kb as nat),
                mb > 0,
                pow2(kb as nat) > 0,
        ;
    }
    if ma == 0 {
        proof {
            assert(num == 0) by (nonlinear_arith)
                requires
                    num == (ma as nat * pow2(ka as nat)) * unit(),
                    ma == 0,
            ;
            lemma_round_zero(den);
        }
        return signed_zero(neg);
    }
    let (na, la) = normalize(ma);
    let (nb, lb) = normalize(mb);
    let top: u128 = na * 0x4000_0000_0000_0000;
    let q: u128 = top / nb;
    let rem: u128 = top % nb;
    let e: u32 = BASE + 1012 + lb + ka - la - kb;
    proof {
        lemma_pow2_adds(31, 31);
        assert(pow2(62) == 0x4000_0000_0000_0000);
        lemma_fundamental_div_mod(top as int, nb as int);
        assert(0x2000_0000_0000_0000 <= q < 0x8000_0000_0000_0000) by (nonlinear_arith)
            requires
                top == nb * q + rem,
                0 <= rem < nb,
                0x10_0000_0000_0000 <= nb < 0x20_0000_0000_0000,
                0x10_0000_0000_0000 * 0x4000_0000_0000_0000 <= top,
                top < 0x20_0000_0000_0000 * 0x4000_0000_0000_0000,
        ;
        assert(ma as nat * pow2(la as nat) * pow2(62) == q as nat * (mb as nat * pow2(lb as nat))
            + rem) by (nonlinear_arith)
            requires
                top == nb * q + rem,
                top == na * pow2(62),
                na == ma as nat * pow2(la as nat),
                nb == mb as nat * pow2(lb as nat),
        ;
        lemma_quotient(
            ma as nat,
            ka as nat,
            la as nat,
            mb as nat,
            kb as nat,
            lb as nat,
            q as nat,
            rem as nat,
            e as nat,
        );
    }
    if rem == 0 {
        proof {
            lemma_round_equal(num, den, q as nat * pow2(e as nat), pow2(BASE as nat));
        }
        round_pack(neg, q, e)
    } else {
        proof {
            lemma_pow2_adds(27, 27);
            assert(q >= pow2(54));
            lemma_round_between(num, den, q as nat, e as nat, BASE as nat);
            lemma_pow2_unfold(e as nat);
            let sig = (2 * q + 1) as nat;
            lemma_round_scale(sig * pow2((e - 1) as nat), pow2(BASE as nat), 2);
            assert((sig * pow2((e - 1) as nat)) * 2 == sig * pow2(e as nat)) by (nonlinear_arith)
                requires
                    pow2(e as nat) == 2 * pow2((e - 1) as nat),
            ;
            assert(pow2(BASE as nat) * 2 == 2 * pow2(BASE as nat));
        }
        round_pack(neg, 2 * q + 1, e - 1)
    }
}

impl Scalar {
    /// The quotient, rounded to nearest.
    #[verifier::opaque]
    pub open spec fn div_spec(self, other: Scalar) -> Scalar {
        of_value(div_value(self@, other@))
    }

    /// Division.
    pub fn div(self, other: Scalar) -> (r: Scalar)
        ensures
            r@ == div_value(self@, other@),
            r == self.div_spec(other),
    {
        proof {
            reveal(Scalar::div_spec);
        }
        if self.is_nan() || other.is_nan() {
            return Scalar::nan();
        }
        let neg = self.sign() != other.sign();
        let r = if self.expo() == 2047 {
            if other.expo() == 2047 {
                Scalar::nan()
            } else {
                signed_infinity(neg)
            }
        } else if other.expo() == 2047 {
            signed_zero(neg)
        } else {
            let (ma, ka) = unpack(&self);
            let (mb, kb) = unpack(&other);
            if mb == 0 {
                if ma == 0 {
                    Scalar::nan()
                } else {
                    signed_infinity(neg)
                }
            } else {
                div_finite(neg, ma, ka, mb, kb)
            }
        };
        proof {
            if r@ is Nan {
                lemma_of_nan(r);
            } else {
                lemma_of_value(r);
            }
        }
        r
    }
}

} // verus!
