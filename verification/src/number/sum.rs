//! Addition and subtraction of doubles.

use vstd::prelude::*;
use vstd::arithmetic::power2::*;
use vstd::arithmetic::mul::*;
use crate::number::product::{lemma_of_nan, lemma_of_value, of_value, unpack};
use crate::number::pack::{lemma_units, pow2_u128, round_pack, signed_infinity, signed_zero, BASE};
use crate::number::rounding::{lemma_round_between, lemma_round_scale, round_mag, rounded};
use crate::number::scalar::{Scalar, Value};

verus! {

/// The finite number `±mag` as a signed count of units.
pub open spec fn signed_mag(neg: bool, mag: nat) -> int {
    if neg {
        -(mag as int)
    } else {
        mag as int
    }
}

/// The sum of two values. An exact sum of zero is `+0`, unless both terms
/// are `-0`.
pub open spec fn add_value(a: Value, b: Value) -> Value {
    match (a, b) {
        (Value::Nan, _) => Value::Nan,
        (_, Value::Nan) => Value::Nan,
        (Value::Inf { neg: n1 }, Value::Inf { neg: n2 }) => if n1 == n2 {
            Value::Inf { neg: n1 }
        } else {
            Value::Nan
        },
        (Value::Inf { neg }, Value::Finite { .. }) => Value::Inf { neg },
        (Value::Finite { .. }, Value::Inf { neg }) => Value::Inf { neg },
        (Value::Finite { neg: n1, mag: m1 }, Value::Finite { neg: n2, mag: m2 }) => {
            let s = signed_mag(n1, m1) + signed_mag(n2, m2);
            if s == 0 {
                Value::Finite { neg: n1 && n2, mag: 0 }
            } else if s < 0 {
                rounded(true, (-s) as nat, 1)
            } else {
                rounded(false, s as nat, 1)
            }
        },
    }
}

/// The difference of two values: the sum with the second negated.
pub open spec fn sub_value(a: Value, b: Value) -> Value {
    add_value(a, b.negated())
}

/// A large number to which a much smaller one is added, or from which it is
/// taken away, is rounded as the large number with one bit set, or cleared,
/// four places below its last.
proof fn lemma_far_sum(m1: nat, k1: nat, t: nat, same: bool)
    requires
        m1 >= pow2(52),
        k1 >= 4,
        0 < t < pow2((k1 - 3) as nat),
    ensures
        m1 * pow2(k1) > t,
        ({
            let x = if same {
                m1 * pow2(k1) + t
            } else {
                (m1 * pow2(k1) - t) as nat
            };
            let sig = if same {
                16 * m1 + 1
            } else {
                (16 * m1 - 1) as nat
            };
            round_mag(x, 1) == round_mag(
                sig * pow2((k1 - 4 + BASE) as nat),
                pow2(BASE as nat),
            )
        }),
{
    let e = (k1 - 3) as nat;
    let pe = pow2(e);
    lemma2_to64();
    lemma2_to64_rest();
    lemma_pow2_pos(e);
    lemma_pow2_adds(3, e);
    assert(m1 * pow2(k1) == (8 * m1) * pe) by (nonlinear_arith)
        requires
            pow2(k1) == 8 * pe,
    ;
    assert((8 * m1) * pe >= pe) by (nonlinear_arith)
        requires
            m1 >= 1,
            pe > 0,
    ;
    let n: nat = if same {
        8 * m1
    } else {
        (8 * m1 - 1) as nat
    };
    let x: nat = if same {
        m1 * pow2(k1) + t
    } else {
        (m1 * pow2(k1) - t) as nat
    };
    assert(n * pe * 1 < x * pow2(0) && x * pow2(0) < (n + 1) * pe * 1) by (nonlinear_arith)
        requires
            pow2(0) == 1,
            0 < t < pe,
            same ==> n == 8 * m1 && x == (8 * m1) * pe + t,
            !same ==> n == 8 * m1 - 1 && x == (8 * m1) * pe - t,
    ;
    lemma_round_between(x, 1, n, e, 0);
    // the stand-in, at the scale at which it is handed over
    let sig = 2 * n + 1;
    let c = pow2((BASE - 1) as nat);
    lemma_pow2_pos((BASE - 1) as nat);
    lemma_pow2_adds(1, (BASE - 1) as nat);
    lemma_pow2_adds(e, (BASE - 1) as nat);
    lemma_round_scale(sig * pe, 2, c);
    assert((sig * pe) * c == sig * pow2((k1 - 4 + BASE) as nat)) by (nonlinear_arith)
        requires
            pow2((k1 - 4 + BASE) as nat) == pe * c,
    ;
}

impl Scalar {
    /// The sum, rounded to nearest.
    #[verifier::opaque]
    pub open spec fn add_spec(self, other: Scalar) -> Scalar {
        of_value(add_value(self@, other@))
    }

    /// The difference, rounded to nearest.
    #[verifier::opaque]
    pub open spec fn sub_spec(self, other: Scalar) -> Scalar {
        of_value(sub_value(self@, other@))
    }

    /// Addition.
    pub fn add(self, other: Scalar) -> (r: Scalar)
        ensures
            r@ == add_value(self@, other@),
            r == self.add_spec(other),
    {
        proof {
            reveal(Scalar::add_spec);
        }
        if self.is_nan() || other.is_nan() {
            return Scalar::nan();
        }
        let sa = self.sign();
        let sb = other.sign();
        let r = if self.expo() == 2047 {
            if other.expo() == 2047 && sa != sb {
                Scalar::nan()
            } else {
                signed_infinity(sa)
            }
        } else if other.expo() == 2047 {
            signed_infinity(sb)
        } else {
            let (ma, ka) = unpack(&self);
            let (mb, kb) = unpack(&other);
            if ka >= kb {
                add_finite(sa, ma, ka, sb, mb, kb)
            } else {
                add_finite(sb, mb, kb, sa, ma, ka)
            }
        };
        proof {
            if r@ is Nan {
                lemma_of_nan(r);
            } else {
                lemma_of_value(r);
            }
        }
        r
    }

    /// Subtraction.
    pub fn sub(self, other: Scalar) -> (r: Scalar)
        ensures
            r@ == sub_value(self@, other@),
            r == self.sub_spec(other),
    {
        proof {
            reveal(Scalar::add_spec);
            reveal(Scalar::sub_spec);
        }
        self.add(other.neg())
    }
}

/// The sum of two finite numbers `±m1 * 2^k1` and `±m2 * 2^k2`, the first on
/// the coarser grid.
fn add_finite(s1: bool, m1: u64, k1: u32, s2: bool, m2: u64, k2: u32) -> (r: Scalar)
    requires
        m1 < 0x20_0000_0000_0000,
        m2 < 0x20_0000_0000_0000,
        k2 <= k1 <= 2045,
        k1 > 0 ==> m1 >= 0x10_0000_0000_0000,
    ensures
        r@ == add_value(
            Value::Finite { neg: s1, mag: m1 as nat * pow2(k1 as nat) },
            Value::Finite { neg: s2, mag: m2 as nat * pow2(k2 as nat) },
        ),
        r@ == add_value(
            Value::Finite { neg: s2, mag: m2 as nat * pow2(k2 as nat) },
            Value::Finite { neg: s1, mag: m1 as nat * pow2(k1 as nat) },
        ),
{
    let ghost a = m1 as nat * pow2(k1 as nat);
    let ghost b = m2 as nat * pow2(k2 as nat);
    let d: u32 = k1 - k2;
    proof {
        lemma2_to64();
        lemma2_to64_rest();
        lemma_pow2_pos(k1 as nat);
        lemma_pow2_pos(k2 as nat);
        lemma_pow2_adds(d as nat, k2 as nat);
    }
    if m2 == 0 {
        proof {
            assert(b == 0) by (nonlinear_arith)
                requires
                    b == m2 as nat * pow2(k2 as nat),
                    m2 == 0,
            ;
            lemma_units(m1 as nat, k1 as nat);
        }
        if m1 == 0 {
            assert(a == 0) by (nonlinear_arith)
                requires
                    a == m1 as nat * pow2(k1 as nat),
                    m1 == 0,
            ;
            return signed_zero(s1 && s2);
        }
        assert(a > 0) by (nonlinear_arith)
            requires
                a == m1 as nat * pow2(k1 as nat),
                m1 > 0,
                pow2(k1 as nat) > 0,
        ;
        return round_pack(s1, m1 as u128, k1 + BASE);
    }
    if d <= 64 {
        let p = pow2_u128(d);
        assert(m1 as nat * p as nat <= 0x20_0000_0000_0000 * 0x1_0000_0000_0000_0000) by {
            if d < 64 {
                lemma_pow2_strictly_increases(d as nat, 64);
            }
            lemma_mul_upper_bound(m1 as int, 0x20_0000_0000_0000, p as int, 0x1_0000_0000_0000_0000);
        }
        let big: u128 = (m1 as u128) * p;
        let small: u128 = m2 as u128;
        proof {
            assert(a == big as nat * pow2(k2 as nat)) by (nonlinear_arith)
                requires
                    a == m1 as nat * pow2(k1 as nat),
                    pow2(k1 as nat) == p as nat * pow2(k2 as nat),
                    big == m1 as nat * p as nat,
            ;
            assert(b > 0) by (nonlinear_arith)
                requires
                    b == m2 as nat * pow2(k2 as nat),
                    m2 > 0,
                    pow2(k2 as nat) > 0,
            ;
        }
        let (neg, sig): (bool, u128) = if s1 == s2 {
            (s1, big + small)
        } else if big > small {
            (s1, big - small)
        } else if small > big {
            (s2, small - big)
        } else {
            return signed_zero(false);
        };
        proof {
            let pk = pow2(k2 as nat);
            assert(sig as nat * pk == (if s1 == s2 {
                (a + b) as int
            } else if big > small {
                a - b
            } else {
                b - a
            }) && sig as nat * pk > 0) by (nonlinear_arith)
                requires
                    a == big as nat * pk,
                    b == small as nat * pk,
                    pk > 0,
                    s1 == s2 ==> sig == big + small,
                    s1 != s2 && big > small ==> sig == big - small,
                    s1 != s2 && big <= small ==> sig == small - big && small > big,
                    small > 0,
            ;
            lemma_units(sig as nat, k2 as nat);
        }
        round_pack(neg, sig, k2 + BASE)
    } else {
        proof {
            // the smaller term is below 2^(k1 - 3)
            lemma_pow2_adds(53, k2 as nat);
            lemma_pow2_strictly_increases((53 + k2) as nat, (k1 - 3) as nat);
            lemma_mul_strict_inequality(m2 as int, pow2(53) as int, pow2(k2 as nat) as int);
            assert(b > 0) by (nonlinear_arith)
                requires
                    b == m2 as nat * pow2(k2 as nat),
                    m2 > 0,
                    pow2(k2 as nat) > 0,
            ;
            lemma_far_sum(m1 as nat, k1 as nat, b, s1 == s2);
        }
        let sig: u128 = if s1 == s2 {
            16 * (m1 as u128) + 1
        } else {
            16 * (m1 as u128) - 1
        };
        round_pack(s1, sig, k1 - 4 + BASE)
    }
}

} // verus!
