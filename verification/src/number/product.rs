//! Multiplication of doubles, and the double that stands for a value.
//!
//! Each operation is defined on [`Value`]s: the exact result of the operation
//! on two numbers, rounded to nearest with ties to even. The executable
//! operation works on the bit patterns and is proved to return that value.

use vstd::prelude::*;
use vstd::arithmetic::power2::*;
use crate::number::pack::{round_pack, signed_infinity, BASE};
use crate::number::rounding::{lemma_round_scale, rounded, MANTISSA_LIMIT};
use crate::number::scalar::{expo_of, Scalar, Value, HIDDEN_BIT, NAN_BITS, SIGN_BIT};

verus! {

/// 2^1074, the number of units in 1.
pub open spec fn unit() -> nat {
    pow2(1074)
}

/// The product of two values.
pub open spec fn mul_value(a: Value, b: Value) -> Value {
    match (a, b) {
        (Value::Nan, _) => Value::Nan,
        (_, Value::Nan) => Value::Nan,
        (Value::Inf { neg: n1 }, Value::Inf { neg: n2 }) => Value::Inf { neg: n1 != n2 },
        (Value::Inf { neg: n1 }, Value::Finite { neg: n2, mag }) => if mag == 0 {
            Value::Nan
        } else {
            Value::Inf { neg: n1 != n2 }
        },
        (Value::Finite { neg: n1, mag }, Value::Inf { neg: n2 }) => if mag == 0 {
            Value::Nan
        } else {
            Value::Inf { neg: n1 != n2 }
        },
        (Value::Finite { neg: n1, mag: m1 }, Value::Finite { neg: n2, mag: m2 }) => rounded(
            n1 != n2,
            m1 * m2,
            unit(),
        ),
    }
}

/// The double that stands for a value: for NaN the one pattern that this
/// crate's operations return, for every other value the only double whose
/// view it is.
pub open spec fn of_value(v: Value) -> Scalar {
    if v is Nan {
        Scalar { bits: NAN_BITS }
    } else {
        choose|s: Scalar| s@ == v
    }
}

/// A double that is not NaN is the only one with its view.
pub proof fn lemma_of_value(s: Scalar)
    requires
        !s@.is_nan(),
    ensures
        of_value(s@) == s,
{
    let t = of_value(s@);
    assert(t@ == s@);
    s.lemma_low_bits_order(t);
    assert(t.bits == s.bits);
}

/// The NaN of this crate stands for the value NaN.
pub proof fn lemma_of_nan(s: Scalar)
    requires
        s.bits == NAN_BITS,
    ensures
        s@ is Nan,
        of_value(s@) == s,
{
}

/// The mantissa and the grid exponent of a finite double.
pub fn unpack(s: &Scalar) -> (r: (u64, u32))
    requires
        expo_of(s.bits) < 2047,
    ensures
        r.0 < MANTISSA_LIMIT,
        r.1 <= 2045,
        r.1 > 0 ==> r.0 >= HIDDEN_BIT,
        s@ == (Value::Finite { neg: s.bits >= SIGN_BIT, mag: r.0 as nat * pow2(r.1 as nat) }),
        r.0 == 0 <==> s@.is_zero(),
{
    let e = s.expo();
    let f = s.frac();
    proof {
        lemma2_to64();
        lemma_pow2_pos(if e == 0 {
            0
        } else {
            (e - 1) as nat
        });
    }
    if e == 0 {
        assert(f as nat * pow2(0) == f) by (nonlinear_arith)
            requires
                pow2(0) == 1,
        ;
        (f, 0)
    } else {
        assert((HIDDEN_BIT + f) as nat * pow2((e - 1) as nat) > 0) by (nonlinear_arith)
            requires
                pow2((e - 1) as nat) > 0,
        ;
        (HIDDEN_BIT + f, (e - 1) as u32)
    }
}

impl Scalar {
    /// The product, rounded to nearest.
    #[verifier::opaque]
    pub open spec fn mul_spec(self, other: Scalar) -> Scalar {
        of_value(mul_value(self@, other@))
    }

    /// Multiplication.
    pub fn mul(self, other: Scalar) -> (r: Scalar)
        ensures
            r@ == mul_value(self@, other@),
            r == self.mul_spec(other),
    {
        proof {
            reveal(Scalar::mul_spec);
        }
        if self.is_nan() || other.is_nan() {
            return Scalar::nan();
        }
        let neg = self.sign() != other.sign();
        let r = if self.expo() == 2047 {
            if other.is_zero() {
                Scalar::nan()
            } else {
                signed_infinity(neg)
            }
        } else if other.expo() == 2047 {
            if self.is_zero() {
                Scalar::nan()
            } else {
                signed_infinity(neg)
            }
        } else {
            let (ma, ka) = unpack(&self);
            let (mb, kb) = unpack(&other);
            assert(ma as nat * mb as nat <= 0x20_0000_0000_0000 * 0x20_0000_0000_0000)
                by (nonlinear_arith)
                requires
                    ma < 0x20_0000_0000_0000,
                    mb < 0x20_0000_0000_0000,
            ;
            let sig: u128 = (ma as u128) * (mb as u128);
            let scale: u32 = ka + kb + (BASE - 1074);
            proof {
                let c = pow2((BASE - 1074) as nat);
                let pa = pow2(ka as nat);
                let pb = pow2(kb as nat);
                lemma_pow2_pos((BASE - 1074) as nat);
                lemma_pow2_pos(1074);
                lemma_pow2_adds(ka as nat, kb as nat);
                lemma_pow2_adds((ka + kb) as nat, (BASE - 1074) as nat);
                lemma_pow2_adds(1074, (BASE - 1074) as nat);
                assert(sig as nat * pow2(scale as nat) == ((ma as nat * pa) * (mb as nat * pb))
                    * c) by (nonlinear_arith)
                    requires
                        sig == ma as nat * mb as nat,
                        pow2(scale as nat) == (pa * pb) * c,
                ;
                lemma_round_scale((ma as nat * pa) * (mb as nat * pb), unit(), c);
            }
            round_pack(neg, sig, scale)
        };
        proof {
            if r@ is Nan {
                lemma_of_nan(r);
            } else {
                lemma_of_value(r);
            }
        }
        r
    }
}

} // verus!
