//! Random numbers, vectors and directions.
//!
//! Every random quantity is made from 64-bit words of the thread's generator.
//! What is made of the words is a function of its own, so that it can be
//! called with chosen words.

use vstd::prelude::*;
use rand::RngCore;
use crate::number::product::{lemma_of_value, mul_value};
use crate::number::convert::one;
use crate::number::pack::lemma_round_zero;
use crate::number::scalar::{Scalar, Value};
use crate::number::sum::add_value;
use crate::vec3::Vec3;

verus! {

/// Calls `next_u64` on the generator that `rand::thread_rng` hands out: the
/// next 64 bits of the calling thread's generator. Nothing is promised of
/// them.
#[verifier::external_body]
fn random_word() -> (w: u64) {
    rand::thread_rng().next_u64()
}

/// How often a sample is drawn anew before the search for one inside the
/// unit ball or disk gives up.
pub const MAX_DRAWS: u64 = 0xffff_ffff_ffff_ffff;

impl Scalar {
    /// `min + (max - min) * u`, with `u` the number in `[0, 1)` that the word
    /// stands for.
    pub open spec fn in_range_spec(min: Scalar, max: Scalar, w: u64) -> Scalar {
        min.add_spec(max.sub_spec(min).mul_spec(Scalar::from_word_spec(w)))
    }

    /// The number between `min` and `max` that a random word stands for.
    /// Rounding may carry it up to `max` itself; between -1 and 1 nothing is
    /// rounded.
    pub fn in_range(min: Scalar, max: Scalar, w: u64) -> (r: Scalar)
        ensures
            r == Scalar::in_range_spec(min, max, w),
    {
        min.add(max.sub(min).mul(Scalar::from_word(w)))
    }

    /// A random number in `[0, 1)`.
    pub fn random() -> (r: Scalar)
        ensures
            exists|w: u64| r == Scalar::from_word_spec(w),
            (Scalar { bits: 0 })@.le(r@),
            r@.lt(one()@),
    {
        let w = random_word();
        proof {
            crate::number::convert::lemma_word_in_unit_interval(w);
        }
        Scalar::from_word(w)
    }
}

impl Vec3 {
    /// The vector whose components are the numbers between `min` and `max`
    /// that three words stand for.
    pub open spec fn from_words_spec(min: Scalar, max: Scalar, w0: u64, w1: u64, w2: u64) -> Vec3 {
        Vec3 {
            x: Scalar::in_range_spec(min, max, w0),
            y: Scalar::in_range_spec(min, max, w1),
            z: Scalar::in_range_spec(min, max, w2),
        }
    }

    /// The vector in the plane `z = 0` whose other components are the
    /// numbers between -1 and 1 that two words stand for.
    pub open spec fn disk_words_spec(w0: u64, w1: u64) -> Vec3 {
        Vec3 {
            x: Scalar::in_range_spec(one().neg_spec(), one(), w0),
            y: Scalar::in_range_spec(one().neg_spec(), one(), w1),
            z: Scalar { bits: 0 },
        }
    }

    /// Whether the vector lies strictly inside the unit ball: the square of
    /// its length is less than 1.
    pub open spec fn in_unit_ball(self) -> bool {
        self.len_sqr_spec()@.lt(one()@)
    }

    /// `v` where it points to the side of `normal`, else `-v`.
    pub open spec fn toward_spec(v: Vec3, normal: Vec3) -> Vec3 {
        if (Scalar { bits: 0 })@.lt(Vec3::dot_spec(v, normal)@) {
            v
        } else {
            v.neg_spec()
        }
    }

    /// The zero vector lies inside the unit ball.
    pub proof fn lemma_zero_in_unit_ball()
        ensures
            Vec3::zero_spec().in_unit_ball(),
    {
        reveal(Scalar::mul_spec);
        reveal(Scalar::add_spec);
        let z = Scalar { bits: 0 };
        assert(z@ == (Value::Finite { neg: false, mag: 0 }));
        vstd::arithmetic::power2::lemma_pow2_pos(1074);
        vstd::arithmetic::power2::lemma_pow2_pos(2098);
        lemma_round_zero(crate::number::product::unit());
        assert(0nat * 0nat == 0);
        assert(mul_value(z@, z@) == z@);
        assert(add_value(z@, z@) == z@);
        lemma_of_value(z);
        assert(z.mul_spec(z) == z);
        assert(z.add_spec(z) == z);
        vstd::arithmetic::power2::lemma2_to64_rest();
        vstd::arithmetic::power2::lemma_pow2_adds(52, 1022);
    }

    /// The vector that three random words stand for.
    pub fn from_words(min: Scalar, max: Scalar, w0: u64, w1: u64, w2: u64) -> (r: Vec3)
        ensures
            r == Vec3::from_words_spec(min, max, w0, w1, w2),
    {
        Vec3 {
            x: Scalar::in_range(min, max, w0),
            y: Scalar::in_range(min, max, w1),
            z: Scalar::in_range(min, max, w2),
        }
    }

    /// The vector in the plane `z = 0` that two random words stand for.
    pub fn disk_words(w0: u64, w1: u64) -> (r: Vec3)
        ensures
            r == Vec3::disk_words_spec(w0, w1),
    {
        let lo = Scalar::one().neg();
        let hi = Scalar::one();
        Vec3 { x: Scalar::in_range(lo, hi, w0), y: Scalar::in_range(lo, hi, w1), z: Scalar::zero() }
    }

    /// A random vector with each component between `min` and `max`.
    pub fn random(min: Scalar, max: Scalar) -> (r: Vec3)
        ensures
            exists|w0: u64, w1: u64, w2: u64| r == Vec3::from_words_spec(min, max, w0, w1, w2),
    {
        let w0 = random_word();
        let w1 = random_word();
        let w2 = random_word();
        Vec3::from_words(min, max, w0, w1, w2)
    }

    /// A random point strictly inside the unit ball: vectors with components
    /// between -1 and 1 are drawn until one lies inside. After `MAX_DRAWS`
    /// draws in vain the centre of the ball is returned.
    pub fn random_in_unit_sphere() -> (r: Vec3)
        ensures
            r.in_unit_ball(),
            r == Vec3::zero_spec() || exists|w0: u64, w1: u64, w2: u64|
                r == Vec3::from_words_spec(one().neg_spec(), one(), w0, w1, w2),
    {
        let lo = Scalar::one().neg();
        let hi = Scalar::one();
        let mut left: u64 = MAX_DRAWS;
        while left > 0
            invariant
                lo == one().neg_spec(),
                hi == one(),
            decreases left,
        {
            let p = Vec3::random(lo, hi);
            if p.len_sqr().lt(&hi) {
                return p;
            }
            left = left - 1;
        }
        proof {
            Vec3::lemma_zero_in_unit_ball();
        }
        Vec3::new()
    }

    /// A random direction of length 1: a random point of the unit ball,
    /// normalized.
    pub fn random_unit_vector() -> (r: Vec3)
        ensures
            exists|p: Vec3| p.in_unit_ball() && r == p.normalize_spec(),
    {
        Vec3::random_in_unit_sphere().normalize()
    }

    /// `v` where it points to the side of `normal`, else `-v`.
    pub fn toward(v: Vec3, normal: &Vec3) -> (r: Vec3)
        ensures
            r == Vec3::toward_spec(v, *normal),
    {
        if Vec3::dot(&v, normal).gt(&Scalar::zero()) {
            v
        } else {
            v.neg()
        }
    }

    /// A random point of the unit ball on the side of `normal`.
    pub fn random_in_hemisphere(normal: &Vec3) -> (r: Vec3)
        ensures
            exists|p: Vec3| p.in_unit_ball() && r == Vec3::toward_spec(p, *normal),
    {
        Vec3::toward(Vec3::random_in_unit_sphere(), normal)
    }

    /// A random point strictly inside the unit disk of the plane `z = 0`.
    /// After `MAX_DRAWS` draws in vain the centre of the disk is returned.
    pub fn random_in_unit_disk() -> (r: Vec3)
        ensures
            r.in_unit_ball(),
            r == Vec3::zero_spec() || exists|w0: u64, w1: u64| r == Vec3::disk_words_spec(w0, w1),
    {
        let mut left: u64 = MAX_DRAWS;
        while left > 0
            decreases left,
        {
            let w0 = random_word();
            let w1 = random_word();
            let p = Vec3::disk_words(w0, w1);
            if p.len_sqr().lt(&Scalar::one()) {
                return p;
            }
            left = left - 1;
        }
        proof {
            Vec3::lemma_zero_in_unit_ball();
        }
        Vec3::new()
    }
}

} // verus!
