//! Double-precision numbers held as their IEEE 754 binary64 bit patterns.
//!
//! A [`Scalar`] is sixty-four bits: one sign bit, eleven bits of biased
//! exponent and fifty-two bits of fraction. Its view is the number it stands
//! for, a [`Value`]. Magnitudes are counted in units of 2^-1074, the smallest
//! positive double, so that every finite double is a whole number of units.

use vstd::prelude::*;
use vstd::arithmetic::power2::*;
use vstd::arithmetic::mul::*;

verus! {

/// 2^63, the sign bit of the encoding.
pub const SIGN_BIT: u64 = 0x8000_0000_0000_0000;

/// 2^52, the implicit leading bit of a normal number's mantissa.
pub const HIDDEN_BIT: u64 = 0x0010_0000_0000_0000;

/// The biased exponent that marks infinities and NaNs.
pub const EXP_SPECIAL: u64 = 2047;

/// The bit pattern of positive infinity.
pub const INF_BITS: u64 = 0x7ff0_0000_0000_0000;

/// The bit pattern of the NaN that every operation of this crate returns.
pub const NAN_BITS: u64 = 0x7ff8_0000_0000_0000;

/// The number that a double stands for.
pub enum Value {
    /// Not a number.
    Nan,
    /// An infinity.
    Inf { neg: bool },
    /// A finite number of magnitude `mag * 2^-1074`; zero keeps its sign.
    Finite { neg: bool, mag: nat },
}

/// The magnitude, in units, at which a rounded result becomes infinite: 2^1024.
pub open spec fn inf_mag() -> nat {
    pow2(2098)
}

impl Value {
    /// Whether the value is not a number.
    pub open spec fn is_nan(self) -> bool {
        self is Nan
    }

    /// Whether the value is zero, of either sign.
    pub open spec fn is_zero(self) -> bool {
        self matches Value::Finite { mag, .. } && mag == 0
    }

    /// The sign bit; `false` for NaN.
    pub open spec fn is_neg(self) -> bool {
        match self {
            Value::Nan => false,
            Value::Inf { neg } => neg,
            Value::Finite { neg, .. } => neg,
        }
    }

    /// The number in units, with the infinities at `±inf_mag()`; 0 for NaN.
    pub open spec fn signed(self) -> int {
        match self {
            Value::Nan => 0,
            Value::Inf { neg } => if neg { -(inf_mag() as int) } else { inf_mag() as int },
            Value::Finite { neg, mag } => if neg { -(mag as int) } else { mag as int },
        }
    }

    /// IEEE `<`: false whenever a NaN is compared.
    pub open spec fn lt(self, other: Value) -> bool {
        !self.is_nan() && !other.is_nan() && self.signed() < other.signed()
    }

    /// IEEE `<=`: false whenever a NaN is compared.
    pub open spec fn le(self, other: Value) -> bool {
        !self.is_nan() && !other.is_nan() && self.signed() <= other.signed()
    }

    /// The same number with the opposite sign; NaN stays NaN.
    pub open spec fn negated(self) -> Value {
        match self {
            Value::Nan => Value::Nan,
            Value::Inf { neg } => Value::Inf { neg: !neg },
            Value::Finite { neg, mag } => Value::Finite { neg: !neg, mag },
        }
    }

    /// The same number with a positive sign; NaN stays NaN.
    pub open spec fn magnitude(self) -> Value {
        match self {
            Value::Nan => Value::Nan,
            Value::Inf { .. } => Value::Inf { neg: false },
            Value::Finite { mag, .. } => Value::Finite { neg: false, mag },
        }
    }
}

/// The biased exponent of a bit pattern.
pub open spec fn expo_of(bits: u64) -> nat {
    ((bits as nat) / (HIDDEN_BIT as nat)) % 2048
}

/// The fraction field of a bit pattern.
pub open spec fn frac_of(bits: u64) -> nat {
    (bits as nat) % (HIDDEN_BIT as nat)
}

/// The magnitude, in units, of the finite double with the given fields:
/// `frac` for a subnormal, `(2^52 + frac) * 2^(expo - 1)` for a normal number.
pub open spec fn field_mag(expo: nat, frac: nat) -> nat {
    if expo == 0 {
        frac
    } else {
        (HIDDEN_BIT as nat + frac) * pow2((expo - 1) as nat)
    }
}

/// A double-precision number, as the sixty-four bits of its encoding.
#[derive(Clone, Copy, Debug)]
pub struct Scalar {
    pub bits: u64,
}

impl View for Scalar {
    type V = Value;

    /// The number that the bits stand for.
    open spec fn view(&self) -> Value {
        let neg = self.bits >= SIGN_BIT;
        let expo = expo_of(self.bits);
        let frac = frac_of(self.bits);
        if expo == 2047 {
            if frac == 0 {
                Value::Inf { neg }
            } else {
                Value::Nan
            }
        } else {
            Value::Finite { neg, mag: field_mag(expo, frac) }
        }
    }
}

/// A finite magnitude with biased exponent `expo >= 1` lies in
/// `[2^(51 + expo), 2^(52 + expo))`, a subnormal one below 2^52.
pub proof fn lemma_field_mag_bounds(expo: nat, frac: nat)
    requires
        frac < HIDDEN_BIT,
    ensures
        expo == 0 ==> field_mag(expo, frac) < pow2(52),
        expo >= 1 ==> pow2(51 + expo) <= field_mag(expo, frac) < pow2(52 + expo),
{
    lemma2_to64_rest();
    if expo >= 1 {
        let k = (expo - 1) as nat;
        let p = pow2(k);
        lemma_pow2_pos(k);
        lemma_pow2_adds(52, k);
        lemma_pow2_adds(53, k);
        let m = HIDDEN_BIT as nat + frac;
        assert(pow2(52) * p <= m * p) by {
            lemma_mul_inequality(pow2(52) as int, m as int, p as int);
        }
        assert(m * p < pow2(53) * p) by {
            lemma_mul_strict_inequality(m as int, pow2(53) as int, p as int);
        }
    }
}

/// Among the encodings of finite numbers and infinity, a larger pattern
/// stands for a larger magnitude.
pub proof fn lemma_mag_monotonic(e1: nat, f1: nat, e2: nat, f2: nat)
    requires
        f1 < HIDDEN_BIT,
        f2 < HIDDEN_BIT,
        e1 * HIDDEN_BIT + f1 < e2 * HIDDEN_BIT + f2,
    ensures
        field_mag(e1, f1) < field_mag(e2, f2),
{
    lemma_field_mag_bounds(e1, f1);
    lemma_field_mag_bounds(e2, f2);
    assert(e1 <= e2) by (nonlinear_arith)
        requires
            f1 < 0x0010_0000_0000_0000,
            f2 < 0x0010_0000_0000_0000,
            e1 * 0x0010_0000_0000_0000 + f1 < e2 * 0x0010_0000_0000_0000 + f2,
    ;
    if e1 == e2 {
        assert(f1 < f2);
        if e1 >= 1 {
            let p = pow2((e1 - 1) as nat);
            lemma_pow2_pos((e1 - 1) as nat);
            lemma_mul_strict_inequality(
                (HIDDEN_BIT as nat + f1) as int,
                (HIDDEN_BIT as nat + f2) as int,
                p as int,
            );
        }
    } else {
        if e1 == 0 {
            if 51 + e2 > 52 {
                lemma_pow2_strictly_increases(52, 51 + e2);
            }
        } else {
            if 52 + e1 < 51 + e2 {
                lemma_pow2_strictly_increases(52 + e1, 51 + e2);
            }
        }
    }
}

impl Scalar {
    /// The double with the given encoding.
    pub fn from_bits(bits: u64) -> (r: Scalar)
        ensures
            r.bits == bits,
    {
        Scalar { bits }
    }

    /// The encoding of this double.
    pub fn to_bits(&self) -> (r: u64)
        ensures
            r == self.bits,
    {
        self.bits
    }

    /// Positive zero.
    pub fn zero() -> (r: Scalar)
        ensures
            r.bits == 0,
            r@ == (Value::Finite { neg: false, mag: 0 }),
    {
        Scalar { bits: 0 }
    }

    /// Positive infinity.
    pub fn infinity() -> (r: Scalar)
        ensures
            r.bits == INF_BITS,
            r@ == (Value::Inf { neg: false }),
    {
        Scalar { bits: INF_BITS }
    }

    /// The NaN that the operations of this crate return.
    pub fn nan() -> (r: Scalar)
        ensures
            r.bits == NAN_BITS,
            r@ == Value::Nan,
    {
        Scalar { bits: NAN_BITS }
    }

    /// The biased exponent, between 0 and 2047.
    pub fn expo(&self) -> (r: u64)
        ensures
            r == expo_of(self.bits),
            r <= 2047,
    {
        (self.bits / HIDDEN_BIT) % 2048
    }

    /// The fraction field, below 2^52.
    pub fn frac(&self) -> (r: u64)
        ensures
            r == frac_of(self.bits),
            r < HIDDEN_BIT,
    {
        self.bits % HIDDEN_BIT
    }

    /// Whether the sign bit is set.
    pub fn sign(&self) -> (r: bool)
        ensures
            r == (self.bits >= SIGN_BIT),
            !self@.is_nan() ==> r == self@.is_neg(),
    {
        self.bits >= SIGN_BIT
    }

    /// Whether this is not a number.
    pub fn is_nan(&self) -> (r: bool)
        ensures
            r == self@.is_nan(),
    {
        self.expo() == EXP_SPECIAL && self.frac() != 0
    }

    /// Whether this is positive or negative zero.
    pub fn is_zero(&self) -> (r: bool)
        ensures
            r == self@.is_zero(),
    {
        proof {
            lemma_field_mag_bounds(expo_of(self.bits), frac_of(self.bits));
            lemma_pow2_pos(51 + expo_of(self.bits));
        }
        self.expo() == 0 && self.frac() == 0
    }

    /// The pattern without its sign bit.
    pub open spec fn low_bits(self) -> nat {
        (self.bits as nat) % (SIGN_BIT as nat)
    }

    /// The double with the sign bit flipped, as IEEE negation is defined.
    pub open spec fn neg_spec(self) -> Scalar {
        if self.bits >= SIGN_BIT {
            Scalar { bits: (self.bits - SIGN_BIT) as u64 }
        } else {
            Scalar { bits: (self.bits + SIGN_BIT) as u64 }
        }
    }

    /// The double with the sign bit cleared, as IEEE `abs` is defined.
    pub open spec fn abs_spec(self) -> Scalar {
        if self.bits >= SIGN_BIT {
            Scalar { bits: (self.bits - SIGN_BIT) as u64 }
        } else {
            self
        }
    }

    /// Negation: the sign bit is flipped and nothing else changes.
    pub fn neg(self) -> (r: Scalar)
        ensures
            r == self.neg_spec(),
            r@ == self@.negated(),
    {
        if self.bits >= SIGN_BIT {
            Scalar { bits: self.bits - SIGN_BIT }
        } else {
            Scalar { bits: self.bits + SIGN_BIT }
        }
    }

    /// Absolute value: the sign bit is cleared and nothing else changes.
    pub fn abs(self) -> (r: Scalar)
        ensures
            r == self.abs_spec(),
            r@ == self@.magnitude(),
    {
        if self.bits >= SIGN_BIT {
            Scalar { bits: self.bits - SIGN_BIT }
        } else {
            self
        }
    }

    /// For doubles that are not NaN, the order of the patterns without their
    /// sign bits is the order of the magnitudes.
    pub proof fn lemma_low_bits_order(self, other: Scalar)
        requires
            !self@.is_nan(),
            !other@.is_nan(),
        ensures
            self.low_bits() < other.low_bits() <==> self@.magnitude().signed()
                < other@.magnitude().signed(),
            self.low_bits() == other.low_bits() <==> self@.magnitude().signed()
                == other@.magnitude().signed(),
    {
        let (e1, f1) = (expo_of(self.bits), frac_of(self.bits));
        let (e2, f2) = (expo_of(other.bits), frac_of(other.bits));
        assert(self.low_bits() == e1 * HIDDEN_BIT + f1);
        assert(other.low_bits() == e2 * HIDDEN_BIT + f2);
        lemma_field_mag_bounds(2047, 0);
        assert(field_mag(2047, 0) == inf_mag()) by {
            lemma2_to64_rest();
            lemma_pow2_adds(52, 2046);
        }
        assert(self@.magnitude().signed() == field_mag(e1, f1));
        assert(other@.magnitude().signed() == field_mag(e2, f2));
        if self.low_bits() < other.low_bits() {
            lemma_mag_monotonic(e1, f1, e2, f2);
        } else if self.low_bits() > other.low_bits() {
            lemma_mag_monotonic(e2, f2, e1, f1);
        } else {
            assert(e1 == e2 && f1 == f2);
        }
    }

    /// IEEE `<`.
    pub fn lt(&self, other: &Scalar) -> (r: bool)
        ensures
            r == self@.lt(other@),
    {
        if self.is_nan() || other.is_nan() {
            return false;
        }
        proof {
            self.lemma_low_bits_order(*other);
            self.lemma_low_bits_order(Scalar { bits: 0 });
            other.lemma_low_bits_order(Scalar { bits: 0 });
        }
        let a = self.bits % SIGN_BIT;
        let b = other.bits % SIGN_BIT;
        if self.bits >= SIGN_BIT {
            if other.bits >= SIGN_BIT {
                b < a
            } else {
                a != 0 || b != 0
            }
        } else {
            if other.bits >= SIGN_BIT {
                false
            } else {
                a < b
            }
        }
    }
}

} // verus!
