//! Mirror reflection, refraction, and the bytes of a colour.

use vstd::prelude::*;
use crate::number::convert::{byte_of, one, two};
use crate::number::scalar::Scalar;
use crate::vec3::Vec3;

verus! {

/// The smaller of a number and 1; NaN stays NaN.
pub open spec fn at_most_one(d: Scalar) -> Scalar {
    if one()@.lt(d@) {
        one()
    } else {
        d
    }
}

/// The byte of one colour channel: the square root of the scaled channel,
/// held between 0 and 0.999, times 256, cut to its whole part.
pub open spec fn channel_byte(t: Scalar, scale: Scalar) -> u8 {
    byte_of(
        Scalar::from_int_spec(256).mul_spec(
            t.mul_spec(scale).sqrt_spec().clamp_spec(
                Scalar { bits: 0 },
                Scalar::ratio_spec(999, 1000),
            ),
        )@,
    )
}

impl Vec3 {
    /// `v - 2 * dot(v, n) * n`: the mirror image of `v` at a surface with
    /// normal `n`.
    pub open spec fn reflect_spec(v: Vec3, n: Vec3) -> Vec3 {
        v.sub_spec(n.scale_spec(two().mul_spec(Vec3::dot_spec(v, n))))
    }

    /// The part of the refracted ray that lies across the normal:
    /// `ratio * (uv + cos * n)`, with `cos` the dot product of `-uv` and `n`,
    /// at most 1.
    pub open spec fn refract_across(uv: Vec3, n: Vec3, ratio: Scalar) -> Vec3 {
        let cos = at_most_one(Vec3::dot_spec(uv.neg_spec(), n));
        uv.add_spec(n.scale_spec(cos)).scale_spec(ratio)
    }

    /// Snell's law for a unit vector `uv` that meets a surface with normal
    /// `n`, `ratio` being the refractive index on the side of the incoming
    /// ray over that on the other side: the part across the normal, plus
    /// `-sqrt(|1 - across^2|) * n` along it.
    pub open spec fn refract_spec(uv: Vec3, n: Vec3, ratio: Scalar) -> Vec3 {
        let across = Vec3::refract_across(uv, n, ratio);
        let along = n.scale_spec(
            one().sub_spec(across.len_sqr_spec()).abs_spec().sqrt_spec().neg_spec(),
        );
        across.add_spec(along)
    }

    /// Whether each component is nearer to zero than 1e-8.
    pub open spec fn near_zero_spec(self) -> bool {
        let s = Scalar::ratio_spec(1, 100_000_000);
        self.x.abs_spec()@.lt(s@) && self.y.abs_spec()@.lt(s@) && self.z.abs_spec()@.lt(s@)
    }

    /// The three bytes of a colour that is the sum of `samples_per_pixel`
    /// samples.
    pub open spec fn into_rgb_spec(self, samples_per_pixel: Scalar) -> Seq<u8> {
        let scale = one().div_spec(samples_per_pixel);
        seq![
            channel_byte(self.x, scale),
            channel_byte(self.y, scale),
            channel_byte(self.z, scale),
        ]
    }

    /// The mirror image of `v` at a surface with normal `n`.
    pub fn reflect(v: &Vec3, n: &Vec3) -> (r: Vec3)
        ensures
            r == Vec3::reflect_spec(*v, *n),
    {
        v.sub(n.scale(Scalar::two().mul(Vec3::dot(v, n))))
    }

    /// The direction of the unit vector `uv` after it has passed a surface
    /// with normal `n`, by Snell's law.
    pub fn refract(uv: &Vec3, n: &Vec3, etai_over_etat: Scalar) -> (r: Vec3)
        ensures
            r == Vec3::refract_spec(*uv, *n, etai_over_etat),
    {
        let d = Vec3::dot(&uv.neg(), n);
        let cos = if d.gt(&Scalar::one()) {
            Scalar::one()
        } else {
            d
        };
        let across = uv.add(n.scale(cos)).scale(etai_over_etat);
        let along = n.scale(Scalar::one().sub(across.len_sqr()).abs().sqrt().neg());
        across.add(along)
    }

    /// Whether the vector is so near to zero that it gives no direction.
    pub fn near_zero(&self) -> (r: bool)
        ensures
            r == self.near_zero_spec(),
    {
        let s = Scalar::ratio(1, 100_000_000);
        self.x.abs().lt(&s) && self.y.abs().lt(&s) && self.z.abs().lt(&s)
    }

    /// The bytes of red, green and blue for a colour that is the sum of
    /// `samples_per_pixel` samples: the mean is taken, then its square root
    /// for a gamma of 2, and that is spread over 0 to 255.
    pub fn into_rgb(&self, samples_per_pixel: Scalar) -> (r: [u8; 3])
        ensures
            r@ == self.into_rgb_spec(samples_per_pixel),
    {
        let scale = Scalar::one().div(samples_per_pixel);
        let lo = Scalar::zero();
        let hi = Scalar::ratio(999, 1000);
        let full = Scalar::from_int(256);
        let red = full.mul(self.x.mul(scale).sqrt().clamp(lo, hi)).to_byte();
        let green = full.mul(self.y.mul(scale).sqrt().clamp(lo, hi)).to_byte();
        let blue = full.mul(self.z.mul(scale).sqrt().clamp(lo, hi)).to_byte();
        let r = [red, green, blue];
        assert(r@ =~= self.into_rgb_spec(samples_per_pixel));
        r
    }
}

} // verus!
