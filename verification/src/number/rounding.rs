//! Rounding to nearest, ties to even: what it means for a positive rational
//! number, and the facts about it that the arithmetic rests on.
//!
//! A rational is given as `num / den`, in units of 2^-1074. The doubles form
//! a grid whose spacing doubles from one binade to the next: a number below
//! 2^(53 + k) units is rounded to a multiple of 2^k units.

use vstd::prelude::*;
use vstd::arithmetic::power2::*;
use vstd::arithmetic::mul::*;
use vstd::arithmetic::div_mod::*;
use crate::number::scalar::{inf_mag, Value};

verus! {

/// 2^53: a mantissa is below it.
pub const MANTISSA_LIMIT: u64 = 0x0020_0000_0000_0000;

/// The exponent of the grid spacing at `num / den`: the least `k` such that
/// `num / den < 2^(53 + k)`.
pub open spec fn quantum(num: nat, den: nat) -> nat
    decreases num,
{
    if den == 0 || num < MANTISSA_LIMIT * den {
        0
    } else {
        1 + quantum(num / 2, den)
    }
}

/// The whole number nearest to `num / den`; of two equally near, the even one.
pub open spec fn nearest_even(num: nat, den: nat) -> nat {
    let q = num / den;
    let r = num % den;
    if 2 * r < den || (2 * r == den && q % 2 == 0) {
        q
    } else {
        q + 1
    }
}

/// The magnitude of the double nearest to `num / den`, were the exponent range
/// unbounded above: the nearest multiple of the grid spacing at `num / den`.
pub open spec fn round_mag(num: nat, den: nat) -> nat {
    let k = quantum(num, den);
    nearest_even(num, den * pow2(k)) * pow2(k)
}

/// The value to which `num / den` rounds, with the given sign: infinite when
/// the nearest magnitude is 2^1024 or more.
pub open spec fn rounded(neg: bool, num: nat, den: nat) -> Value {
    let mag = round_mag(num, den);
    if mag >= inf_mag() {
        Value::Inf { neg }
    } else {
        Value::Finite { neg, mag }
    }
}

/// `k` is the quantum of every number in `[2^(52 + k), 2^(53 + k))`, and 0 is
/// the quantum of every number below 2^53.
pub proof fn lemma_quantum_is(num: nat, den: nat, k: nat)
    requires
        den > 0,
        k == 0 || pow2(52 + k) * den <= num,
        num < pow2(53 + k) * den,
    ensures
        quantum(num, den) == k,
    decreases k,
{
    lemma2_to64_rest();
    if k > 0 {
        let a = pow2(51 + k) * den;
        lemma_pow2_unfold(52 + k);
        lemma_pow2_unfold(53 + k);
        assert(pow2(52 + k) * den == 2 * a) by (nonlinear_arith)
            requires
                pow2(52 + k) == 2 * pow2(51 + k),
                a == pow2(51 + k) * den,
        ;
        assert(pow2(53 + k) * den == 4 * a) by (nonlinear_arith)
            requires
                pow2(53 + k) == 4 * pow2(51 + k),
                a == pow2(51 + k) * den,
        ;
        assert(pow2(53) * den <= pow2(52 + k) * den) by {
            if 53 < 52 + k {
                lemma_pow2_strictly_increases(53, 52 + k);
            }
            lemma_mul_inequality(pow2(53) as int, pow2(52 + k) as int, den as int);
        }
        assert(pow2(52 + (k - 1) as nat) == pow2(51 + k));
        assert(pow2(53 + (k - 1) as nat) == pow2(52 + k));
        lemma_quantum_is(num / 2, den, (k - 1) as nat);
    }
}

/// Rounding a quotient is unchanged when both of its terms are scaled alike.
pub proof fn lemma_nearest_even_scale(num: nat, den: nat, c: nat)
    requires
        den > 0,
        c > 0,
    ensures
        nearest_even(num * c, den * c) == nearest_even(num, den),
{
    let q = num / den;
    let r = num % den;
    lemma_fundamental_div_mod(num as int, den as int);
    assert(num * c == q * (den * c) + r * c && 0 <= r * c < den * c && den * c > 0)
        by (nonlinear_arith)
        requires
            num == den * q + r,
            0 <= r < den,
            c > 0,
    ;
    lemma_fundamental_div_mod_converse(
        (num * c) as int,
        (den * c) as int,
        q as int,
        (r * c) as int,
    );
    assert((2 * (r * c) < den * c <==> 2 * r < den) && (2 * (r * c) == den * c <==> 2 * r == den))
        by (nonlinear_arith)
        requires
            c > 0,
    ;
}

/// A number strictly between the midpoints on either side of `q` rounds to `q`.
pub proof fn lemma_nearest_even_is(num: nat, den: nat, q: nat)
    requires
        den > 0,
        (2 * q - 1) * den < 2 * num,
        2 * num < (2 * q + 1) * den,
    ensures
        nearest_even(num, den) == q,
{
    let q0 = num / den;
    let r = num % den;
    lemma_fundamental_div_mod(num as int, den as int);
    assert(q0 <= q) by (nonlinear_arith)
        requires
            num == den * q0 + r,
            0 <= r,
            den > 0,
            2 * num < (2 * q + 1) * den,
    ;
    assert(q0 + 1 >= q) by (nonlinear_arith)
        requires
            num == den * q0 + r,
            r < den,
            den > 0,
            (2 * q - 1) * den < 2 * num,
    ;
    if q0 == q {
        assert(2 * r < den) by (nonlinear_arith)
            requires
                num == den * q + r,
                2 * num < (2 * q + 1) * den,
        ;
    } else {
        assert(2 * r > den) by (nonlinear_arith)
            requires
                num == den * q0 + r,
                q0 + 1 == q,
                (2 * q - 1) * den < 2 * num,
        ;
    }
}

/// A whole number that is divided by a power of two with exponent at least 1
/// is rounded as the same number taken with one more low bit, set to 1, over
/// twice the divisor: and that is never a tie.
proof fn lemma_nearest_even_odd(n: nat, t: nat)
    requires
        t >= 1,
    ensures
        ({
            let q = n / pow2(t);
            let r = n % pow2(t);
            nearest_even(2 * n + 1, 2 * pow2(t)) == (if 2 * r < pow2(t) {
                q
            } else {
                q + 1
            })
        }),
        pow2(t) % 2 == 0,
{
    let d = pow2(t);
    let q = n / d;
    let r = n % d;
    lemma_pow2_pos(t);
    lemma_pow2_unfold(t);
    lemma_fundamental_div_mod(n as int, d as int);
    assert(2 * n + 1 == q * (2 * d) + (2 * r + 1)) by (nonlinear_arith)
        requires
            n == d * q + r,
    ;
    lemma_fundamental_div_mod_converse(
        (2 * n + 1) as int,
        (2 * d) as int,
        q as int,
        (2 * r + 1) as int,
    );
}

/// The quantum of a number strictly between two neighbours `n` and `n + 1`
/// of the grid with spacing `2^e / 2^b` units, `n` having `len` bits.
proof fn lemma_quantum_between(num: nat, den: nat, n: nat, e: nat, b: nat, len: nat)
    requires
        den > 0,
        len >= 1,
        pow2((len - 1) as nat) <= n < pow2(len),
        n * pow2(e) * den < num * pow2(b),
        num * pow2(b) < (n + 1) * pow2(e) * den,
    ensures
        quantum(num, den) == (if len + e > b + 53 {
            (len + e - b - 53) as nat
        } else {
            0
        }),
{
    let pe = pow2(e);
    let pb = pow2(b);
    lemma_pow2_pos(e);
    lemma_pow2_pos(b);
    let k: nat = if len + e > b + 53 {
        (len + e - b - 53) as nat
    } else {
        0
    };
    let w = pe * den;
    assert(n * w < num * pb && num * pb < (n + 1) * w) by (nonlinear_arith)
        requires
            w == pe * den,
            n * pe * den < num * pb,
            num * pb < (n + 1) * pe * den,
    ;
    let hi = pow2(len + e);
    lemma_pow2_adds(len, e);
    assert((n + 1) * w <= hi * den) by (nonlinear_arith)
        requires
            n + 1 <= pow2(len),
            hi == pow2(len) * pe,
            w == pe * den,
            den > 0,
            pe > 0,
    ;
    lemma_pow2_adds(53 + k, b);
    if k == 0 {
        if len + e < 53 + b {
            lemma_pow2_strictly_increases(len + e, 53 + b);
        }
        assert(num * pb < pow2(53) * pb * den) by (nonlinear_arith)
            requires
                num * pb < (n + 1) * w,
                (n + 1) * w <= hi * den,
                hi <= pow2(53) * pb,
                den > 0,
        ;
        assert(num < pow2(53) * den) by (nonlinear_arith)
            requires
                num * pb < pow2(53) * pb * den,
                pb > 0,
        ;
    } else {
        assert(hi == pow2(53 + k) * pb);
        assert(num < pow2(53 + k) * den) by (nonlinear_arith)
            requires
                num * pb < (n + 1) * w,
                (n + 1) * w <= hi * den,
                hi == pow2(53 + k) * pb,
                pb > 0,
        ;
        let lo = pow2((len - 1 + e) as nat);
        lemma_pow2_adds((len - 1) as nat, e);
        lemma_pow2_adds(52 + k, b);
        assert(lo == pow2(52 + k) * pb);
        assert(pow2(52 + k) * den <= num) by (nonlinear_arith)
            requires
                n * w < num * pb,
                pow2((len - 1) as nat) <= n,
                lo == pow2((len - 1) as nat) * pe,
                lo == pow2(52 + k) * pb,
                w == pe * den,
                pb > 0,
                den > 0,
                pe > 0,
        ;
    }
    lemma_quantum_is(num, den, k);
}

/// Every number strictly between two neighbours `n` and `n + 1` of a fine
/// grid rounds alike, when `n` has at least 55 bits: no double and no midpoint
/// between doubles lies strictly between them. The grid's spacing is
/// `2^e / 2^b` units, and the number `n + 1/2` of the grid stands for all.
pub proof fn lemma_round_between(num: nat, den: nat, n: nat, e: nat, b: nat)
    requires
        den > 0,
        n >= pow2(54),
        n * pow2(e) * den < num * pow2(b),
        num * pow2(b) < (n + 1) * pow2(e) * den,
    ensures
        round_mag(num, den) == round_mag((2 * n + 1) * pow2(e), 2 * pow2(b)),
{
    let pe = pow2(e);
    let pb = pow2(b);
    lemma_pow2_pos(e);
    lemma_pow2_pos(b);
    let len = bits_of(n);
    lemma_bits_of(n);
    lemma2_to64_rest();
    assert(len >= 55) by {
        if len < 54 {
            lemma_pow2_strictly_increases(len, 54);
        }
    }
    let k: nat = if len + e > b + 53 {
        (len + e - b - 53) as nat
    } else {
        0
    };
    let t: nat = (k + b - e) as nat;
    assert(t >= 2);
    let pk = pow2(k);
    let pt = pow2(t);
    lemma_pow2_pos(k);
    lemma_pow2_pos(t);
    lemma_pow2_adds(k, b);
    lemma_pow2_adds(t, e);
    assert(pk * pb == pt * pe);
    let w = pe * den;
    assert(w > 0) by (nonlinear_arith)
        requires
            w == pe * den,
            pe > 0,
            den > 0,
    ;
    assert(n * w < num * pb && num * pb < (n + 1) * w) by (nonlinear_arith)
        requires
            w == pe * den,
            n * pe * den < num * pb,
            num * pb < (n + 1) * pe * den,
    ;
    // the number itself and the number that stands for it have one quantum
    let num2 = (2 * n + 1) * pe;
    let den2 = 2 * pb;
    assert(n * pe * den2 < num2 * pb && num2 * pb < (n + 1) * pe * den2) by (nonlinear_arith)
        requires
            num2 == (2 * n + 1) * pe,
            den2 == 2 * pb,
            pe > 0,
            pb > 0,
    ;
    lemma_quantum_between(num, den, n, e, b, len);
    lemma_quantum_between(num2, den2, n, e, b, len);
    // the mantissa to which the stand-in rounds
    let q0 = n / pt;
    let r0 = n % pt;
    lemma_fundamental_div_mod(n as int, pt as int);
    lemma_nearest_even_odd(n, t);
    let m: nat = if 2 * r0 < pt {
        q0
    } else {
        q0 + 1
    };
    assert(nearest_even(num2, den2 * pk) == m) by {
        assert(den2 * pk == (2 * pt) * pe) by (nonlinear_arith)
            requires
                den2 == 2 * pb,
                pk * pb == pt * pe,
        ;
        lemma_nearest_even_scale(2 * n + 1, 2 * pt, pe);
    }
    // the number itself lies strictly between the midpoints around that mantissa
    assert(nearest_even(num, den * pk) == m) by {
        let d = den * pk;
        assert(d * pb == pt * w) by (nonlinear_arith)
            requires
                d == den * pk,
                pk * pb == pt * pe,
                w == pe * den,
        ;
        assert(d > 0) by (nonlinear_arith)
            requires
                d == den * pk,
                den > 0,
                pk > 0,
        ;
        assert((2 * m - 1) * pt <= 2 * n && 2 * (n + 1) <= (2 * m + 1) * pt) by (nonlinear_arith)
            requires
                n == pt * q0 + r0,
                0 <= r0 < pt,
                pt % 2 == 0,
                m == (if 2 * r0 < pt {
                    q0
                } else {
                    q0 + 1
                }),
        ;
        assert((2 * m - 1) * d * pb < 2 * num * pb) by (nonlinear_arith)
            requires
                (2 * m - 1) * pt <= 2 * n,
                d * pb == pt * w,
                n * w < num * pb,
                w > 0,
        ;
        assert(2 * num * pb < (2 * m + 1) * d * pb) by (nonlinear_arith)
            requires
                2 * (n + 1) <= (2 * m + 1) * pt,
                d * pb == pt * w,
                num * pb < (n + 1) * w,
                w > 0,
        ;
        assert((2 * m - 1) * d < 2 * num && 2 * num < (2 * m + 1) * d) by (nonlinear_arith)
            requires
                (2 * m - 1) * d * pb < 2 * num * pb,
                2 * num * pb < (2 * m + 1) * d * pb,
                pb > 0,
        ;
        lemma_nearest_even_is(num, d, m);
    }
}

/// The quantum `k` of a number puts it in `[2^(52 + k), 2^(53 + k))`, or
/// below 2^53 when `k` is 0.
pub proof fn lemma_quantum_bounds(num: nat, den: nat)
    requires
        den > 0,
    ensures
        quantum(num, den) == 0 || pow2(52 + quantum(num, den)) * den <= num,
        num < pow2(53 + quantum(num, den)) * den,
    decreases num,
{
    lemma2_to64_rest();
    let k = quantum(num, den);
    if num >= MANTISSA_LIMIT * den {
        lemma_quantum_bounds(num / 2, den);
        let j = (k - 1) as nat;
        lemma_pow2_unfold(52 + k);
        lemma_pow2_unfold(53 + k);
        assert(pow2(53 + k) * den == 2 * (pow2(53 + j) * den)) by (nonlinear_arith)
            requires
                pow2(53 + k) == 2 * pow2(53 + j),
        ;
        if j > 0 {
            assert(pow2(52 + k) * den == 2 * (pow2(52 + j) * den)) by (nonlinear_arith)
                requires
                    pow2(52 + k) == 2 * pow2(52 + j),
            ;
        }
    }
}

/// Rounding is unchanged when both terms of the quotient are scaled alike.
pub proof fn lemma_round_scale(num: nat, den: nat, c: nat)
    requires
        den > 0,
        c > 0,
    ensures
        round_mag(num * c, den * c) == round_mag(num, den),
{
    let k = quantum(num, den);
    lemma_quantum_bounds(num, den);
    lemma_pow2_pos(k);
    assert(den * c > 0) by (nonlinear_arith)
        requires
            den > 0,
            c > 0,
    ;
    assert(num * c < pow2(53 + k) * (den * c)) by (nonlinear_arith)
        requires
            num < pow2(53 + k) * den,
            c > 0,
    ;
    if k > 0 {
        assert(pow2(52 + k) * (den * c) <= num * c) by (nonlinear_arith)
            requires
                pow2(52 + k) * den <= num,
                c > 0,
        ;
    }
    lemma_quantum_is(num * c, den * c, k);
    assert((den * c) * pow2(k) == (den * pow2(k)) * c) by (nonlinear_arith);
    assert(den * pow2(k) > 0) by (nonlinear_arith)
        requires
            den > 0,
            pow2(k) > 0,
    ;
    lemma_nearest_even_scale(num, den * pow2(k), c);
}

/// A number with quantum `k` is rounded to a magnitude in
/// `[2^(52 + k), 2^(53 + k)]`, or below 2^53 when `k` is 0.
pub proof fn lemma_round_bounds(num: nat, den: nat)
    requires
        den > 0,
    ensures
        round_mag(num, den) <= pow2(53 + quantum(num, den)),
        quantum(num, den) > 0 ==> pow2(52 + quantum(num, den)) <= round_mag(num, den),
{
    let k = quantum(num, den);
    let pk = pow2(k);
    let d = den * pk;
    lemma_quantum_bounds(num, den);
    lemma_pow2_pos(k);
    lemma_pow2_adds(53, k);
    lemma_pow2_adds(52, k);
    assert(d > 0) by (nonlinear_arith)
        requires
            d == den * pk,
            den > 0,
            pk > 0,
    ;
    let q = num / d;
    let r = num % d;
    lemma_fundamental_div_mod(num as int, d as int);
    assert(q < pow2(53)) by (nonlinear_arith)
        requires
            num == d * q + r,
            r >= 0,
            d == den * pk,
            num < (pow2(53) * pk) * den,
            d > 0,
    ;
    let m = nearest_even(num, d);
    assert(m <= pow2(53));
    lemma_mul_inequality(m as int, pow2(53) as int, pk as int);
    if k > 0 {
        assert(q >= pow2(52)) by (nonlinear_arith)
            requires
                num == d * q + r,
                r < d,
                d == den * pk,
                num >= (pow2(52) * pk) * den,
                d > 0,
        ;
        lemma_mul_inequality(pow2(52) as int, m as int, pk as int);
    }
}

/// Rounding a quotient keeps the order of the numerators.
pub proof fn lemma_nearest_even_monotone(n1: nat, n2: nat, den: nat)
    requires
        den > 0,
        n1 <= n2,
    ensures
        nearest_even(n1, den) <= nearest_even(n2, den),
{
    let q1 = n1 / den;
    let r1 = n1 % den;
    let q2 = n2 / den;
    let r2 = n2 % den;
    lemma_fundamental_div_mod(n1 as int, den as int);
    lemma_fundamental_div_mod(n2 as int, den as int);
    assert(q1 <= q2 && (q1 == q2 ==> r1 <= r2)) by (nonlinear_arith)
        requires
            n1 == den * q1 + r1,
            n2 == den * q2 + r2,
            0 <= r1 < den,
            0 <= r2 < den,
            n1 <= n2,
    ;
}

/// Rounding keeps the order of numbers over one denominator.
pub proof fn lemma_round_monotone_same(n1: nat, n2: nat, den: nat)
    requires
        den > 0,
        n1 <= n2,
    ensures
        round_mag(n1, den) <= round_mag(n2, den),
{
    let k1 = quantum(n1, den);
    let k2 = quantum(n2, den);
    lemma_quantum_bounds(n1, den);
    lemma_quantum_bounds(n2, den);
    lemma_round_bounds(n1, den);
    lemma_round_bounds(n2, den);
    if k1 > k2 {
        // then n1 >= 2^(52 + k1) >= 2^(53 + k2) > n2
        if 53 + k2 < 52 + k1 {
            lemma_pow2_strictly_increases(53 + k2, 52 + k1);
        }
        lemma_mul_inequality(pow2(53 + k2) as int, pow2(52 + k1) as int, den as int);
        assert(false);
    } else if k1 == k2 {
        lemma_pow2_pos(k1);
        assert(den * pow2(k1) > 0) by (nonlinear_arith)
            requires
                den > 0,
                pow2(k1) > 0,
        ;
        lemma_nearest_even_monotone(n1, n2, den * pow2(k1));
        lemma_mul_inequality(
            nearest_even(n1, den * pow2(k1)) as int,
            nearest_even(n2, den * pow2(k1)) as int,
            pow2(k1) as int,
        );
    } else {
        if 53 + k1 < 52 + k2 {
            lemma_pow2_strictly_increases(53 + k1, 52 + k2);
        }
    }
}

/// The number of bits of `n`: the least `len` with `n < 2^len`.
pub open spec fn bits_of(n: nat) -> nat
    decreases n,
{
    if n == 0 {
        0
    } else {
        1 + bits_of(n / 2)
    }
}

/// A positive number of `len` bits lies in `[2^(len - 1), 2^len)`.
pub proof fn lemma_bits_of(n: nat)
    ensures
        n < pow2(bits_of(n)),
        n > 0 ==> bits_of(n) >= 1 && pow2((bits_of(n) - 1) as nat) <= n,
    decreases n,
{
    if n == 0 {
        lemma_pow2_pos(0);
    } else {
        lemma_bits_of(n / 2);
        lemma_pow2_unfold(bits_of(n));
        if n / 2 > 0 {
            lemma_pow2_unfold((bits_of(n) - 1) as nat);
        } else {
            lemma2_to64();
        }
    }
}

} // verus!
