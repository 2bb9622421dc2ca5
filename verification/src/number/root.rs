//! The square root of a double.

use vstd::prelude::*;
use vstd::arithmetic::power2::*;
use crate::number::product::{lemma_of_nan, lemma_of_value, of_value, unit, unpack};
use crate::number::pack::{pow2_u128, round_pack, BASE};
use crate::number::quot::normalize;
use crate::number::rounding::{lemma_round_between, lemma_round_scale, round_mag, rounded};
use crate::number::scalar::{Scalar, Value};

verus! {

/// Whether `s` is the whole part of the square root of `n`.
pub open spec fn is_floor_sqrt(s: nat, n: nat) -> bool {
    s * s <= n < (s + 1) * (s + 1)
}

/// The whole part of the square root of `n`.
pub open spec fn floor_sqrt(n: nat) -> nat {
    choose|s: nat| is_floor_sqrt(s, n)
}

/// The magnitude to which the square root of `n` square units rounds. The
/// root lies between the whole numbers `s` and `s + 1`; where it is not `s`
/// itself, `s + 1/2` stands for it: for a root of 2^54 units and more, no
/// double and no midpoint between doubles lies strictly between two whole
/// numbers of units that follow each other.
pub open spec fn root_mag(n: nat) -> nat {
    let s = floor_sqrt(n);
    if s * s == n {
        round_mag(s, 1)
    } else {
        round_mag(2 * s + 1, 2)
    }
}

/// The value to which the square root of `n` square units rounds: finite and
/// of magnitude `root_mag(n)`.
pub open spec fn root_value(n: nat) -> Value {
    let s = floor_sqrt(n);
    if s * s == n {
        rounded(false, s, 1)
    } else {
        rounded(false, 2 * s + 1, 2)
    }
}

/// The square root of a value: NaN below zero, and zero keeps its sign.
pub open spec fn sqrt_value(a: Value) -> Value {
    match a {
        Value::Nan => Value::Nan,
        Value::Inf { neg } => if neg {
            Value::Nan
        } else {
            a
        },
        Value::Finite { neg, mag } => if mag == 0 {
            a
        } else if neg {
            Value::Nan
        } else {
            root_value(mag * unit())
        },
    }
}

/// Every number has a whole part of its square root.
pub proof fn lemma_floor_sqrt(n: nat)
    ensures
        floor_sqrt(n) * floor_sqrt(n) <= n < (floor_sqrt(n) + 1) * (floor_sqrt(n) + 1),
    decreases n,
{
    if n == 0 {
        assert(is_floor_sqrt(0, n)) by (nonlinear_arith)
            requires
                n == 0,
        ;
    } else {
        lemma_floor_sqrt((n - 1) as nat);
        let t = floor_sqrt((n - 1) as nat);
        if n < (t + 1) * (t + 1) {
            assert(is_floor_sqrt(t, n));
        } else {
            let u = t + 1;
            assert(u * u <= n < (u + 1) * (u + 1)) by (nonlinear_arith)
                requires
                    u == t + 1,
                    n - 1 < (t + 1) * (t + 1),
                    n >= (t + 1) * (t + 1),
            ;
            assert(is_floor_sqrt(u, n));
        }
    }
}

/// Of two numbers that are not negative, the one with the smaller square is
/// the smaller.
proof fn lemma_square_order(a: nat, b: nat)
    requires
        a * a < b * b,
    ensures
        a < b,
{
    assert(a < b) by (nonlinear_arith)
        requires
            a * a < b * b,
            a >= 0,
            b >= 0,
    ;
}

/// The rounded root of `m2 * 4^h`, from the whole part `s2` of the root of
/// `m2`.
proof fn lemma_root(n: nat, m2: nat, s2: nat, h: nat)
    requires
        n == m2 * pow2(h) * pow2(h),
        s2 * s2 <= m2 < (s2 + 1) * (s2 + 1),
        s2 >= pow2(54),
        h >= 1,
    ensures
        ({
            let sig: nat = if s2 * s2 == m2 {
                2 * s2
            } else {
                2 * s2 + 1
            };
            root_mag(n) == round_mag(sig * pow2((h - 1 + BASE) as nat), pow2(BASE as nat))
        }),
{
    let p = pow2(h);
    let s = floor_sqrt(n);
    lemma_floor_sqrt(n);
    lemma_pow2_pos(h);
    lemma2_to64();
    let lo = s2 * p;
    let hi = (s2 + 1) * p;
    assert(lo * lo <= n && n < hi * hi && (s2 * s2 == m2 ==> lo * lo == n) && (s2 * s2 < m2
        ==> lo * lo < n)) by (nonlinear_arith)
        requires
            n == m2 * p * p,
            s2 * s2 <= m2 < (s2 + 1) * (s2 + 1),
            lo == s2 * p,
            hi == (s2 + 1) * p,
            p > 0,
    ;
    // lo <= s < hi
    lemma_square_order(s, hi);
    lemma_square_order(lo, s + 1);
    let sig: nat = if s2 * s2 == m2 {
        2 * s2
    } else {
        2 * s2 + 1
    };
    let c = pow2((BASE - 1) as nat);
    lemma_pow2_pos((BASE - 1) as nat);
    lemma_pow2_adds(1, (BASE - 1) as nat);
    lemma_pow2_adds(h, (BASE - 1) as nat);
    assert((sig * p) * c == sig * pow2((h - 1 + BASE) as nat)) by (nonlinear_arith)
        requires
            pow2((h - 1 + BASE) as nat) == p * c,
    ;
    lemma_round_scale(sig * p, 2, c);
    if s2 * s2 == m2 {
        // the root is the whole number lo
        if s > lo {
            assert((lo + 1) * (lo + 1) <= s * s) by (nonlinear_arith)
                requires
                    lo + 1 <= s,
            ;
            assert(lo * lo < (lo + 1) * (lo + 1)) by (nonlinear_arith);
        }
        assert(s == lo);
        lemma_round_scale(lo, 1, 2);
        assert((2 * s2) * p == lo * 2) by (nonlinear_arith)
            requires
                lo == s2 * p,
        ;
    } else {
        if s * s == n {
            lemma_square_order(lo, s);
            assert(s2 * p * 1 < s * pow2(0) && s * pow2(0) < (s2 + 1) * p * 1) by (nonlinear_arith)
                requires
                    lo == s2 * p,
                    hi == (s2 + 1) * p,
                    lo < s < hi,
                    pow2(0) == 1,
            ;
            lemma_round_between(s, 1, s2, h, 0);
        } else {
            assert(s2 * p * 2 < (2 * s + 1) * pow2(0) && (2 * s + 1) * pow2(0) < (s2 + 1) * p * 2)
                by (nonlinear_arith)
                requires
                    lo == s2 * p,
                    hi == (s2 + 1) * p,
                    lo <= s < hi,
                    pow2(0) == 1,
            ;
            lemma_round_between(2 * s + 1, 2, s2, h, 0);
        }
    }
}

/// The whole part of the square root of a number below 2^112.
fn isqrt(x: u128) -> (r: u128)
    requires
        x < 0x1_0000_0000_0000_0000_0000_0000_0000,
    ensures
        r * r <= x < (r + 1) * (r + 1),
        r < 0x100_0000_0000_0000,
{
    let mut r: u128 = 0;
    let mut i: u32 = 56;
    proof {
        lemma2_to64();
        lemma2_to64_rest();
        lemma_pow2_adds(56, 56);
        lemma_pow2_adds(64, 48);
    }
    while i > 0
        invariant
            i <= 56,
            r * r <= x,
            x < (r + pow2(i as nat)) * (r + pow2(i as nat)),
            r + pow2(i as nat) <= 0x100_0000_0000_0000,
            x < 0x1_0000_0000_0000_0000_0000_0000_0000,
        decreases i,
    {
        i = i - 1;
        let b = pow2_u128(i);
        proof {
            lemma_pow2_unfold((i + 1) as nat);
        }
        let t: u128 = r + b;
        assert(t * t <= 0x100_0000_0000_0000 * 0x100_0000_0000_0000) by (nonlinear_arith)
            requires
                t <= 0x100_0000_0000_0000,
        ;
        if t * t <= x {
            r = t;
        }
    }
    proof {
        lemma_pow2_pos(0);
    }
    r
}

impl Scalar {
    /// The square root, rounded to nearest.
    #[verifier::opaque]
    pub open spec fn sqrt_spec(self) -> Scalar {
        of_value(sqrt_value(self@))
    }

    /// The square root.
    pub fn sqrt(self) -> (r: Scalar)
        ensures
            r@ == sqrt_value(self@),
            r == self.sqrt_spec(),
    {
        proof {
            reveal(Scalar::sqrt_spec);
        }
        if self.is_nan() {
            return Scalar::nan();
        }
        let r = if self.expo() == 2047 {
            if self.sign() {
                Scalar::nan()
            } else {
                self
            }
        } else {
            let (m, k) = unpack(&self);
            if m == 0 {
                self
            } else if self.sign() {
                Scalar::nan()
            } else {
                sqrt_finite(m, k)
            }
        };
        proof {
            if r@ is Nan {
                lemma_of_nan(r);
            } else {
                lemma_of_value(r);
            }
        }
        r
    }
}

/// The square root of the positive number `m * 2^k`.
fn sqrt_finite(m: u64, k: u32) -> (r: Scalar)
    requires
        0 < m < 0x20_0000_0000_0000,
        k <= 2045,
    ensures
        r@ == root_value((m as nat * pow2(k as nat)) * unit()),
{
    let ghost n = (m as nat * pow2(k as nat)) * unit();
    let (nm, l) = normalize(m);
    let e0: u32 = k + 1074 - l;
    let j: u32 = if e0 % 2 == 0 {
        58
    } else {
        59
    };
    let h: u32 = (e0 - j) / 2;
    let p = pow2_u128(j);
    proof {
        lemma2_to64();
        lemma2_to64_rest();
        lemma_pow2_adds(29, 29);
        lemma_pow2_unfold(59);
        lemma_pow2_adds(64, 48);
        assert(nm * p < 0x20_0000_0000_0000 * 0x800_0000_0000_0000 && nm * p
            >= 0x10_0000_0000_0000 * 0x400_0000_0000_0000) by (nonlinear_arith)
            requires
                0x10_0000_0000_0000 <= nm < 0x20_0000_0000_0000,
                0x400_0000_0000_0000 <= p <= 0x800_0000_0000_0000,
        ;
    }
    let m2: u128 = nm * p;
    let s2 = isqrt(m2);
    let exact = s2 * s2 == m2;
    let sig: u128 = if exact {
        2 * s2
    } else {
        2 * s2 + 1
    };
    proof {
        assert(s2 >= 0x80_0000_0000_0000) by (nonlinear_arith)
            requires
                m2 < (s2 + 1) * (s2 + 1),
                m2 >= 0x80_0000_0000_0000 * 0x80_0000_0000_0000,
        ;
        // n == m2 * 2^h * 2^h
        let ph = pow2(h as nat);
        lemma_pow2_adds(h as nat, h as nat);
        lemma_pow2_adds(l as nat, j as nat);
        lemma_pow2_adds((l + j) as nat, (2 * h) as nat);
        lemma_pow2_adds(k as nat, 1074);
        assert(n == m2 as nat * ph * ph) by (nonlinear_arith)
            requires
                n == (m as nat * pow2(k as nat)) * pow2(1074),
                m2 == (m as nat * pow2(l as nat)) * pow2(j as nat),
                pow2(k as nat) * pow2(1074) == (pow2(l as nat) * pow2(j as nat)) * (ph * ph),
        ;
        lemma_root(n, m2 as nat, s2 as nat, h as nat);
    }
    round_pack(false, sig, h - 1 + BASE)
}

} // verus!
