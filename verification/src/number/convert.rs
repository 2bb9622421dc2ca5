//! Doubles from whole numbers and random words, and back to a byte.

use vstd::prelude::*;
use vstd::arithmetic::power2::*;
use vstd::arithmetic::div_mod::*;
use crate::number::product::{lemma_of_value, of_value, unit, unpack};
use crate::number::pack::{lemma_round_whole, lemma_units, pow2_u128, round_pack, BASE};
use crate::number::quot::div_value;
use crate::number::rounding::rounded;
use crate::number::scalar::{Scalar, Value};

verus! {

/// The bit pattern of 1.
pub const ONE_BITS: u64 = 0x3ff0_0000_0000_0000;

/// The bit pattern of 2.
pub const TWO_BITS: u64 = 0x4000_0000_0000_0000;

/// The bit pattern of 1/2.
pub const HALF_BITS: u64 = 0x3fe0_0000_0000_0000;

/// 1, as contracts write it.
pub open spec fn one() -> Scalar {
    Scalar { bits: ONE_BITS }
}

/// 2, as contracts write it.
pub open spec fn two() -> Scalar {
    Scalar { bits: TWO_BITS }
}

/// The value of a whole number, rounded to nearest where it has more than 53
/// bits.
pub open spec fn int_value(i: int) -> Value {
    if i >= 0 {
        rounded(false, i as nat * unit(), 1)
    } else {
        rounded(true, (-i) as nat * unit(), 1)
    }
}

/// The value of the fraction `n / d` of two whole numbers: each is rounded to
/// a double, and so is their quotient.
pub open spec fn ratio_value(n: int, d: int) -> Value {
    div_value(int_value(n), int_value(d))
}

/// The value of a random word as a number in `[0, 1)`: its upper 53 bits
/// over 2^53, which is `w / 2^11` times 2^1021 units.
pub open spec fn word_value(w: u64) -> Value {
    Value::Finite { neg: false, mag: (w as nat / 2048) * pow2(1021) }
}

/// A whole number of 53 bits and less is a double.
pub proof fn lemma_int_exact(i: int)
    requires
        -0x20_0000_0000_0000 < i < 0x20_0000_0000_0000,
    ensures
        int_value(i) == (Value::Finite { neg: i < 0, mag: (if i < 0 {
            -i
        } else {
            i
        }) as nat * unit() }),
{
    let n = (if i < 0 {
        -i
    } else {
        i
    }) as nat;
    lemma2_to64_rest();
    lemma_round_whole(n, 1074);
    // below 2^53 * 2^1074, which is less than 2^1024 in units
    lemma_pow2_adds(53, 1074);
    lemma_pow2_strictly_increases(1127, 2098);
    lemma_pow2_pos(1074);
    assert(n * unit() < pow2(53) * unit()) by (nonlinear_arith)
        requires
            n < pow2(53),
            unit() > 0,
    ;
}

/// The number that a random word stands for is at least 0 and less than 1.
pub proof fn lemma_word_in_unit_interval(w: u64)
    ensures
        (Scalar { bits: 0 })@.le(Scalar::from_word_spec(w)@),
        Scalar::from_word_spec(w)@.lt((Scalar { bits: ONE_BITS })@),
{
    let n = w as nat / 2048;
    lemma2_to64();
    lemma2_to64_rest();
    lemma_pow2_adds(53, 1021);
    lemma_pow2_adds(52, 1022);
    lemma_pow2_pos(1021);
    assert(n * pow2(1021) < pow2(53) * pow2(1021)) by (nonlinear_arith)
        requires
            n < pow2(53),
            pow2(1021) > 0,
    ;
    lemma_pow2_strictly_increases(1074, 2098);
    lemma_word_is_double(w);
}

/// The number that a random word stands for is a double.
pub proof fn lemma_word_is_double(w: u64)
    ensures
        Scalar::from_word_spec(w)@ == word_value(w),
{
    let n = w as nat / 2048;
    lemma2_to64();
    lemma2_to64_rest();
    lemma_round_whole(n, 1021);
    lemma_pow2_adds(53, 1021);
    lemma_pow2_pos(1021);
    assert(n * pow2(1021) < pow2(53) * pow2(1021)) by (nonlinear_arith)
        requires
            n < pow2(53),
            pow2(1021) > 0,
    ;
    lemma_pow2_strictly_increases(1074, 2098);
    crate::number::repr::lemma_rounded_representable(false, n * pow2(1021), 1);
    crate::number::repr::lemma_of_representable(word_value(w));
}

/// The byte to which a value is cut: 0 for NaN and below 1, 255 from 255 on.
pub open spec fn byte_of(v: Value) -> u8 {
    match v {
        Value::Nan => 0,
        Value::Inf { neg } => if neg {
            0
        } else {
            255
        },
        Value::Finite { neg, mag } => if neg {
            0
        } else if mag / unit() >= 255 {
            255
        } else {
            (mag / unit()) as u8
        },
    }
}

impl Scalar {
    /// One.
    pub fn one() -> (r: Scalar)
        ensures
            r.bits == ONE_BITS,
            r@ == (Value::Finite { neg: false, mag: unit() }),
    {
        proof {
            lemma2_to64_rest();
            lemma_pow2_adds(52, 1022);
        }
        Scalar { bits: ONE_BITS }
    }

    /// Two.
    pub fn two() -> (r: Scalar)
        ensures
            r.bits == TWO_BITS,
            r@ == (Value::Finite { neg: false, mag: 2 * unit() }),
    {
        proof {
            lemma2_to64_rest();
            lemma_pow2_adds(52, 1023);
            lemma_pow2_unfold(1075);
        }
        Scalar { bits: TWO_BITS }
    }

    /// One half.
    pub fn half() -> (r: Scalar)
        ensures
            r.bits == HALF_BITS,
            2 * r@->Finite_mag == unit(),
            r@ == (Value::Finite { neg: false, mag: pow2(1073) }),
    {
        proof {
            lemma2_to64_rest();
            lemma_pow2_adds(52, 1021);
            lemma_pow2_unfold(1074);
        }
        Scalar { bits: HALF_BITS }
    }

    /// The double nearest to a whole number.
    pub open spec fn from_int_spec(i: i64) -> Scalar {
        of_value(int_value(i as int))
    }

    /// The double nearest to a whole number.
    pub fn from_int(i: i64) -> (r: Scalar)
        ensures
            r@ == int_value(i as int),
            r == Scalar::from_int_spec(i),
            !r@.is_nan(),
    {
        let neg = i < 0;
        let n: u128 = if neg {
            (-(i as i128)) as u128
        } else {
            i as u128
        };
        proof {
            lemma_units(n as nat, 1074);
        }
        let r = round_pack(neg, n, 1074 + BASE);
        proof {
            lemma_of_value(r);
        }
        r
    }

    /// The double nearest to `n / d`.
    pub open spec fn ratio_spec(n: i64, d: i64) -> Scalar {
        Scalar::from_int_spec(n).div_spec(Scalar::from_int_spec(d))
    }

    /// The double nearest to the fraction `n / d`, such as the 0.001 of
    /// `ratio(1, 1000)`.
    pub fn ratio(n: i64, d: i64) -> (r: Scalar)
        ensures
            r@ == ratio_value(n as int, d as int),
            r == Scalar::ratio_spec(n, d),
    {
        Scalar::from_int(n).div(Scalar::from_int(d))
    }

    /// The number in `[0, 1)` that a random word stands for.
    pub open spec fn from_word_spec(w: u64) -> Scalar {
        of_value(word_value(w))
    }

    /// The number in `[0, 1)` that a random word stands for: its upper 53
    /// bits over 2^53.
    pub fn from_word(w: u64) -> (r: Scalar)
        ensures
            r@ == word_value(w),
            r == Scalar::from_word_spec(w),
    {
        proof {
            let n = w as nat / 2048;
            lemma2_to64();
            lemma2_to64_rest();
            lemma_units(n, 1021);
            lemma_round_whole(n, 1021);
            lemma_pow2_adds(53, 1021);
            lemma_pow2_pos(1021);
            assert(n * pow2(1021) < pow2(53) * pow2(1021)) by (nonlinear_arith)
                requires
                    n < pow2(53),
                    pow2(1021) > 0,
            ;
            lemma_pow2_strictly_increases(1074, 2098);
        }
        let r = round_pack(false, (w / 2048) as u128, 1021 + BASE);
        proof {
            lemma_of_value(r);
        }
        r
    }

    /// The word 0 stands for the number 0.
    pub proof fn lemma_zero_word()
        ensures
            Scalar::from_word_spec(0) == (Scalar { bits: 0 }),
    {
        assert((0nat / 2048) * pow2(1021) == 0) by (nonlinear_arith);
        lemma_of_value(Scalar { bits: 0 });
    }

    /// IEEE `<=`.
    pub fn le(&self, other: &Scalar) -> (r: bool)
        ensures
            r == self@.le(other@),
    {
        if self.is_nan() || other.is_nan() {
            false
        } else {
            !other.lt(self)
        }
    }

    /// IEEE `>`.
    pub fn gt(&self, other: &Scalar) -> (r: bool)
        ensures
            r == other@.lt(self@),
    {
        other.lt(self)
    }

    /// The number held between two bounds; NaN stays NaN.
    pub open spec fn clamp_spec(self, lo: Scalar, hi: Scalar) -> Scalar {
        if self@.lt(lo@) {
            lo
        } else if hi@.lt(self@) {
            hi
        } else {
            self
        }
    }

    /// The number raised to `lo` where it is below, and lowered to `hi`
    /// where it is above.
    pub fn clamp(self, lo: Scalar, hi: Scalar) -> (r: Scalar)
        ensures
            r == self.clamp_spec(lo, hi),
    {
        if self.lt(&lo) {
            lo
        } else if hi.lt(&self) {
            hi
        } else {
            self
        }
    }

    /// The byte that the number is cut to, as a cast to `u8` does it: the
    /// whole part, held between 0 and 255, and 0 for NaN.
    pub fn to_byte(&self) -> (r: u8)
        ensures
            r == byte_of(self@),
    {
        if self.is_nan() || self.sign() {
            return 0;
        }
        if self.expo() == 2047 {
            return 255;
        }
        let (m, k) = unpack(self);
        proof {
            lemma2_to64();
            lemma2_to64_rest();
            lemma_pow2_pos(k as nat);
            lemma_pow2_pos(1074);
        }
        let ghost mag = m as nat * pow2(k as nat);
        if k < 1022 {
            proof {
                // below 2^53 * 2^1021 = 2^1074
                lemma_pow2_adds(53, k as nat);
                lemma_pow2_strictly_increases((53 + k) as nat, 1075);
                lemma_pow2_unfold(1075);
                if 53 + k < 1074 {
                    lemma_pow2_strictly_increases((53 + k) as nat, 1074);
                }
                assert(mag < pow2((53 + k) as nat)) by (nonlinear_arith)
                    requires
                        mag == m as nat * pow2(k as nat),
                        m < pow2(53),
                        pow2((53 + k) as nat) == pow2(53) * pow2(k as nat),
                        pow2(k as nat) > 0,
                ;
                lemma_basic_div(mag as int, unit() as int);
            }
            0
        } else if k > 1074 {
            proof {
                // at least 2^52 * 2^1075
                lemma_pow2_adds(52, k as nat);
                lemma_pow2_adds(53, 1074);
                if k > 1075 {
                    lemma_pow2_strictly_increases(1127, (52 + k) as nat);
                }
                assert(mag >= pow2((52 + k) as nat)) by (nonlinear_arith)
                    requires
                        mag == m as nat * pow2(k as nat),
                        m >= pow2(52),
                        pow2((52 + k) as nat) == pow2(52) * pow2(k as nat),
                ;
                lemma_div_is_ordered((pow2(53) * unit()) as int, mag as int, unit() as int);
                lemma_div_multiples_vanish(pow2(53) as int, unit() as int);
            }
            255
        } else {
            let sh: u32 = 1074 - k;
            let p = pow2_u128(sh);
            let v: u128 = (m as u128) / p;
            proof {
                // mag / 2^1074 == m / 2^sh
                lemma_pow2_adds(sh as nat, k as nat);
                lemma_pow2_pos(sh as nat);
                lemma_div_multiples_vanish_quotient(pow2(k as nat) as int, m as int, p as int);
                assert(pow2(k as nat) * m == mag && pow2(k as nat) * p == unit())
                    by (nonlinear_arith)
                    requires
                        mag == m as nat * pow2(k as nat),
                        unit() == p * pow2(k as nat),
                ;
            }
            if v >= 255 {
                255
            } else {
                v as u8
            }
        }
    }
}

} // verus!
