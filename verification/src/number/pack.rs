//! From a significand and a binary scale to the nearest double.

use vstd::prelude::*;
use vstd::arithmetic::power2::*;
use vstd::arithmetic::mul::*;
use vstd::arithmetic::div_mod::*;
use crate::number::scalar::{Scalar, Value, HIDDEN_BIT, INF_BITS, SIGN_BIT};
use vstd::std_specs::bits::u64_leading_zeros;
use crate::number::rounding::{
    bits_of, lemma_bits_of, lemma_nearest_even_scale, lemma_quantum_is, lemma_round_scale,
    nearest_even, quantum, round_mag, rounded, MANTISSA_LIMIT,
};

verus! {

/// The operations hand their exact results to `round_pack` as a significand
/// times `2^scale / 2^BASE` units, so that no scale is negative.
pub const BASE: u32 = 1200;

/// `1 << k` is 2^k.
pub proof fn lemma_one_shl(k: u32)
    requires
        k < 128,
    ensures
        (1u128 << k) == pow2(k as nat),
    decreases k,
{
    if k == 0 {
        assert(1u128 << 0u32 == 1) by (bit_vector);
        lemma2_to64();
    } else {
        lemma_one_shl((k - 1) as u32);
        let j = (k - 1) as u32;
        assert((1u128 << k) == 2 * (1u128 << j)) by (bit_vector)
            requires
                0 < k < 128,
                j == k - 1,
        ;
        lemma_pow2_unfold(k as nat);
    }
}

/// 2^k.
pub fn pow2_u128(k: u32) -> (r: u128)
    requires
        k < 128,
    ensures
        r == pow2(k as nat),
        r > 0,
{
    proof {
        lemma_one_shl(k);
        lemma_pow2_pos(k as nat);
    }
    1u128 << k
}

/// Counting leading zeros of a word gives its number of bits.
pub proof fn lemma_leading_zeros(i: u64)
    ensures
        64 - u64_leading_zeros(i) == bits_of(i as nat),
    decreases i,
{
    reveal(u64_leading_zeros);
    if i != 0 {
        lemma_leading_zeros(i / 2);
    }
}

/// The number of bits of `x`: 0 for 0, else the `n` with `2^(n - 1) <= x < 2^n`.
pub fn bit_len(x: u128) -> (n: u32)
    ensures
        n <= 128,
        x == 0 ==> n == 0,
        x > 0 ==> n >= 1 && pow2((n - 1) as nat) <= x < pow2(n as nat),
{
    let hi: u64 = (x / 0x1_0000_0000_0000_0000) as u64;
    let lo: u64 = (x % 0x1_0000_0000_0000_0000) as u64;
    proof {
        lemma_leading_zeros(hi);
        lemma_leading_zeros(lo);
        lemma_bits_of(hi as nat);
        lemma_bits_of(lo as nat);
        lemma2_to64();
    }
    if hi != 0 {
        let n: u32 = 128 - hi.leading_zeros();
        proof {
            let b = bits_of(hi as nat);
            lemma_pow2_adds((b - 1) as nat, 64);
            lemma_pow2_adds(b, 64);
            assert(pow2((b - 1) as nat) * 0x1_0000_0000_0000_0000 <= hi
                * 0x1_0000_0000_0000_0000) by (nonlinear_arith)
                requires
                    pow2((b - 1) as nat) <= hi,
            ;
            assert((hi + 1) * 0x1_0000_0000_0000_0000 <= pow2(b) * 0x1_0000_0000_0000_0000)
                by (nonlinear_arith)
                requires
                    hi < pow2(b),
            ;
        }
        n
    } else {
        64 - lo.leading_zeros()
    }
}

/// The finite double with mantissa `m` and grid exponent `k`.
pub fn encode(neg: bool, m: u64, k: u32) -> (r: Scalar)
    requires
        m < MANTISSA_LIMIT,
        m < HIDDEN_BIT ==> k == 0,
        k <= 2045,
    ensures
        r@ == (Value::Finite { neg, mag: m as nat * pow2(k as nat) }),
{
    let low: u64 = if m < HIDDEN_BIT {
        m
    } else {
        (k as u64 + 1) * HIDDEN_BIT + (m - HIDDEN_BIT)
    };
    let bits: u64 = if neg {
        low + SIGN_BIT
    } else {
        low
    };
    proof {
        lemma2_to64();
        if m < HIDDEN_BIT {
            assert(m as nat * pow2(0) == m) by (nonlinear_arith)
                requires
                    pow2(0) == 1,
            ;
        }
    }
    Scalar { bits }
}

/// The signed infinity.
pub fn signed_infinity(neg: bool) -> (r: Scalar)
    ensures
        r@ == (Value::Inf { neg }),
{
    if neg {
        Scalar { bits: INF_BITS + SIGN_BIT }
    } else {
        Scalar { bits: INF_BITS }
    }
}

/// The signed zero.
pub fn signed_zero(neg: bool) -> (r: Scalar)
    ensures
        r@ == (Value::Finite { neg, mag: 0 }),
{
    if neg {
        Scalar { bits: SIGN_BIT }
    } else {
        Scalar { bits: 0 }
    }
}

/// Zero rounds to zero.
pub proof fn lemma_round_zero(den: nat)
    requires
        den > 0,
    ensures
        round_mag(0, den) == 0,
{
    lemma2_to64();
    assert(quantum(0, den) == 0);
    assert(den * pow2(0) == den) by (nonlinear_arith)
        requires
            pow2(0) == 1,
    ;
    lemma_basic_div(0, den as int);
    lemma_small_mod(0, den);
}

/// A whole number of units, handed over at scale `k + BASE`, is rounded as
/// itself.
pub proof fn lemma_units(sig: nat, k: nat)
    ensures
        round_mag(sig * pow2(k + BASE as nat), pow2(BASE as nat)) == round_mag(sig * pow2(k), 1),
{
    let c = pow2(BASE as nat);
    lemma_pow2_pos(BASE as nat);
    lemma_pow2_adds(k, BASE as nat);
    lemma_round_scale(sig * pow2(k), 1, c);
    assert((sig * pow2(k)) * c == sig * pow2(k + BASE as nat)) by (nonlinear_arith)
        requires
            pow2(k + BASE as nat) == pow2(k) * c,
    ;
}

/// A number that a double can hold is rounded to itself.
pub proof fn lemma_round_exact(m: nat, k: nat)
    requires
        m < pow2(53),
        k > 0 ==> m >= pow2(52),
    ensures
        round_mag(m * pow2(k), 1) == m * pow2(k),
{
    let p = pow2(k);
    lemma_pow2_pos(k);
    lemma_pow2_adds(53, k);
    lemma_pow2_adds(52, k);
    lemma_mul_strict_inequality(m as int, pow2(53) as int, p as int);
    if k > 0 {
        lemma_mul_inequality(pow2(52) as int, m as int, p as int);
    }
    assert(pow2(53 + k) * 1 == pow2(53 + k) && pow2(52 + k) * 1 == pow2(52 + k));
    lemma_quantum_is(m * p, 1, k);
    lemma_nearest_even_scale(m, 1, p);
    assert(1 * p == p);
    assert(nearest_even(m, 1) == m);
}

/// A whole number below 2^53, times a power of two from 2^52 on, is a number
/// that a double can hold, and is rounded to itself.
pub proof fn lemma_round_whole(n: nat, e: nat)
    requires
        n < pow2(53),
        e >= 52,
    ensures
        round_mag(n * pow2(e), 1) == n * pow2(e),
{
    if n == 0 {
        lemma_round_zero(1);
        assert(n * pow2(e) == 0) by (nonlinear_arith)
            requires
                n == 0,
        ;
    } else {
        let len = bits_of(n);
        lemma_bits_of(n);
        if len > 53 {
            lemma_pow2_strictly_increases(53, (len - 1) as nat);
        }
        let l = (53 - len) as nat;
        let pl = pow2(l);
        let m = n * pl;
        let k = (e - l) as nat;
        lemma_pow2_pos(l);
        lemma_pow2_adds((len - 1) as nat, l);
        lemma_pow2_adds(len, l);
        lemma_pow2_adds(l, k);
        lemma_mul_inequality(pow2((len - 1) as nat) as int, n as int, pl as int);
        lemma_mul_strict_inequality(n as int, pow2(len) as int, pl as int);
        lemma_round_exact(m, k);
        assert(m * pow2(k) == n * pow2(e)) by (nonlinear_arith)
            requires
                m == n * pl,
                pow2(e) == pl * pow2(k),
        ;
    }
}

/// The quantum of `sig * 2^scale / 2^BASE` for a significand of `len` bits.
proof fn lemma_pack_quantum(sig: nat, len: nat, scale: nat, k: nat)
    requires
        len >= 1,
        pow2((len - 1) as nat) <= sig < pow2(len),
        k == (if len + scale > BASE + 53 {
            (len + scale - BASE - 53) as nat
        } else {
            0
        }),
    ensures
        quantum(sig * pow2(scale), pow2(BASE as nat)) == k,
{
    let ps = pow2(scale);
    let den = pow2(BASE as nat);
    lemma_pow2_pos(scale);
    lemma_pow2_pos(BASE as nat);
    lemma_pow2_adds(len, scale);
    lemma_pow2_adds(53 + k, BASE as nat);
    assert(sig * ps < pow2(len) * ps) by {
        lemma_mul_strict_inequality(sig as int, pow2(len) as int, ps as int);
    }
    if len + scale < 53 + k + BASE {
        lemma_pow2_strictly_increases(len + scale, (53 + k + BASE) as nat);
    }
    if k > 0 {
        lemma_pow2_adds((len - 1) as nat, scale);
        lemma_pow2_adds(52 + k, BASE as nat);
        assert(pow2((len - 1) as nat) * ps <= sig * ps) by {
            lemma_mul_inequality(pow2((len - 1) as nat) as int, sig as int, ps as int);
        }
    }
    lemma_quantum_is(sig * ps, den, k);
}

/// The double nearest to `sig * 2^scale / 2^BASE` units, ties to even, with
/// the given sign; infinite from 2^1024 on.
pub fn round_pack(neg: bool, sig: u128, scale: u32) -> (r: Scalar)
    requires
        scale <= 8192,
    ensures
        r@ == rounded(neg, sig as nat * pow2(scale as nat), pow2(BASE as nat)),
{
    let ghost num = sig as nat * pow2(scale as nat);
    let ghost den = pow2(BASE as nat);
    proof {
        lemma_pow2_pos(BASE as nat);
        lemma_pow2_pos(scale as nat);
        lemma_pow2_pos(2098);
    }
    if sig == 0 {
        proof {
            assert(num == 0) by (nonlinear_arith)
                requires
                    num == sig as nat * pow2(scale as nat),
                    sig == 0,
            ;
            lemma_round_zero(den);
        }
        return signed_zero(neg);
    }
    let len = bit_len(sig);
    let top: u32 = len + scale;
    let k: u32 = if top > BASE + 53 {
        top - (BASE + 53)
    } else {
        0
    };
    proof {
        lemma_pack_quantum(sig as nat, len as nat, scale as nat, k as nat);
        lemma_pow2_pos(k as nat);
        lemma2_to64();
        lemma2_to64_rest();
    }
    let ghost grid = den * pow2(k as nat);
    let m: u64;
    if scale >= k + BASE {
        let up: u32 = scale - (k + BASE);
        let p = pow2_u128(up);
        proof {
            lemma_pow2_adds(len as nat, up as nat);
            if len + up < 53 {
                lemma_pow2_strictly_increases((len + up) as nat, 53);
            }
            lemma_mul_strict_inequality(sig as int, pow2(len as nat) as int, p as int);
            if k > 0 {
                lemma_pow2_adds((len - 1) as nat, up as nat);
                lemma_mul_inequality(pow2((len - 1) as nat) as int, sig as int, p as int);
            }
        }
        m = (sig * p) as u64;
        proof {
            // num == m * grid, so that the quotient is exact
            lemma_pow2_adds(up as nat, (k + BASE) as nat);
            lemma_pow2_adds(BASE as nat, k as nat);
            assert(num == m as nat * grid) by (nonlinear_arith)
                requires
                    num == sig as nat * pow2(scale as nat),
                    pow2(scale as nat) == p as nat * grid,
                    m as nat == sig as nat * p as nat,
            ;
            lemma_nearest_even_scale(m as nat, 1, grid);
            assert(m as nat * grid == (m as nat) * grid && 1 * grid == grid);
            assert(nearest_even(m as nat, 1) == m);
        }
    } else {
        let sh: u32 = k + BASE - scale;
        proof {
            lemma_pow2_adds(sh as nat, scale as nat);
            lemma_pow2_adds(BASE as nat, k as nat);
            assert(grid == pow2(sh as nat) * pow2(scale as nat));
            lemma_pow2_pos(sh as nat);
            lemma_nearest_even_scale(sig as nat, pow2(sh as nat), pow2(scale as nat));
            // sig < 2^53 * 2^sh, and sig >= 2^52 * 2^sh in the normal range
            lemma_pow2_adds(53, sh as nat);
            if len < 53 + sh {
                lemma_pow2_strictly_increases(len as nat, (53 + sh) as nat);
            }
            if k > 0 {
                lemma_pow2_adds(52, sh as nat);
            }
        }
        if sh >= 128 {
            proof {
                lemma_pow2_adds(64, 64);
                if sh > 128 {
                    lemma_pow2_strictly_increases(128, sh as nat);
                    lemma_pow2_unfold(sh as nat);
                    if sh > 129 {
                        lemma_pow2_strictly_increases(129, sh as nat);
                    }
                    lemma_pow2_unfold(129);
                }
                lemma_basic_div(sig as int, pow2(sh as nat) as int);
                lemma_small_mod(sig as nat, pow2(sh as nat));
            }
            m = if sh == 128 && sig > 0x8000_0000_0000_0000_0000_0000_0000_0000 {
                1
            } else {
                0
            };
        } else {
            let p = pow2_u128(sh);
            let q = sig / p;
            let rem = sig % p;
            proof {
                lemma_fundamental_div_mod(sig as int, p as int);
                assert(q < 0x20_0000_0000_0000) by (nonlinear_arith)
                    requires
                        sig == p * q + rem,
                        0 <= rem,
                        p > 0,
                        sig < 0x20_0000_0000_0000 * p,
                ;
                if k > 0 {
                    assert(q >= 0x10_0000_0000_0000) by (nonlinear_arith)
                        requires
                            sig == p * q + rem,
                            rem < p,
                            p > 0,
                            sig >= 0x10_0000_0000_0000 * p,
                    ;
                }
            }
            let up = rem > p - rem || (rem == p - rem && q % 2 == 1);
            m = if up {
                (q + 1) as u64
            } else {
                q as u64
            };
        }
    }
    assert(nearest_even(num, grid) == m);
    assert(m <= MANTISSA_LIMIT);
    assert(k > 0 ==> m >= HIDDEN_BIT);
    assert(round_mag(num, den) == m as nat * pow2(k as nat));
    let (m1, k1): (u64, u32) = if m == MANTISSA_LIMIT {
        (HIDDEN_BIT, k + 1)
    } else {
        (m, k)
    };
    proof {
        lemma_pow2_unfold((k + 1) as nat);
        assert(m1 as nat * pow2(k1 as nat) == m as nat * pow2(k as nat)) by (nonlinear_arith)
            requires
                m == 0x20_0000_0000_0000 ==> m1 == 0x10_0000_0000_0000 && k1 == k + 1,
                m != 0x20_0000_0000_0000 ==> m1 == m && k1 == k,
                pow2((k + 1) as nat) == 2 * pow2(k as nat),
        ;
        // the magnitude against 2^1024
        lemma_pow2_adds(52, 2046);
        lemma_pow2_adds(53, 2045);
        lemma_pow2_pos(k1 as nat);
        if k1 > 2045 {
            if k1 > 2046 {
                lemma_pow2_strictly_increases(2046, k1 as nat);
            }
            lemma_mul_inequality(pow2(2046) as int, pow2(k1 as nat) as int, pow2(52) as int);
            lemma_mul_inequality(pow2(52) as int, m1 as int, pow2(k1 as nat) as int);
            lemma_mul_is_commutative(pow2(52) as int, pow2(k1 as nat) as int);
            lemma_mul_is_commutative(pow2(52) as int, pow2(2046) as int);
        } else {
            if k1 < 2045 {
                lemma_pow2_strictly_increases(k1 as nat, 2045);
            }
            lemma_mul_inequality(pow2(k1 as nat) as int, pow2(2045) as int, pow2(53) as int);
            lemma_mul_strict_inequality(m1 as int, pow2(53) as int, pow2(k1 as nat) as int);
            lemma_mul_is_commutative(pow2(53) as int, pow2(k1 as nat) as int);
            lemma_mul_is_commutative(pow2(53) as int, pow2(2045) as int);
        }
    }
    if k1 > 2045 {
        signed_infinity(neg)
    } else {
        encode(neg, m1, k1)
    }
}

} // verus!
