//! How surfaces scatter light.
//!
//! A surface answers a ray that hits it with a scattered ray and the colour
//! by which the light along it is dimmed, or with nothing where it takes the
//! light up. What it answers depends on a random point of the unit ball and
//! on a random number in `[0, 1)`.

use vstd::prelude::*;
use crate::geometry::at_most_one;
use crate::number::convert::one;
use crate::hittable::HitRecord;
use crate::ray::Ray;
use crate::number::scalar::Scalar;
use crate::vec3::{Color, Vec3};

verus! {

/// What a surface can be made of.
pub trait Material {
    /// The answer to `ray` at the hit `record`, for the random point `ball`
    /// of the unit ball and the random number `chance`.
    spec fn scatter_spec(&self, ray: Ray, record: HitRecord, ball: Vec3, chance: Scalar) -> Option<
        (Ray, Color),
    >;

    /// The answer to `ray` at the hit `record`, for a given point of the
    /// unit ball and a given number in `[0, 1)`.
    fn scatter_with(&self, ray: &Ray, record: &HitRecord, ball: &Vec3, chance: Scalar) -> (r:
        Option<(Ray, Color)>)
        ensures
            r == self.scatter_spec(*ray, *record, *ball, chance),
    ;

    /// The answer to `ray` at the hit `record`, for a random point of the
    /// unit ball and a random number in `[0, 1)`.
    fn scatter(&self, ray: &Ray, record: &HitRecord) -> (r: Option<(Ray, Color)>)
        ensures
            exists|ball: Vec3, w: u64|
                ball.in_unit_ball() && r == self.scatter_spec(
                    *ray,
                    *record,
                    ball,
                    Scalar::from_word_spec(w),
                ),
    ;
}

/// A matt surface.
#[derive(Clone, Copy, Debug)]
pub struct Lambertian {
    pub color: Color,
}

/// A mirror, the rougher the greater `fuzz` is.
#[derive(Clone, Copy, Debug)]
pub struct Metal {
    pub color: Color,
    /// From 0 to 1.
    pub fuzz: Scalar,
}

/// Clear matter such as glass, with its refractive index.
#[derive(Clone, Copy, Debug)]
pub struct Dielectric {
    pub ir: Scalar,
}

/// `x * x * x * x * x`, as `((x * x) * (x * x)) * x`.
pub open spec fn fifth_power(x: Scalar) -> Scalar {
    x.mul_spec(x).mul_spec(x.mul_spec(x)).mul_spec(x)
}

/// Schlick's estimate of how much of the light a clear surface reflects:
/// `r0 + (1 - r0) * (1 - cosine)^5` with `r0 = ((1 - n) / (1 + n))^2`.
pub open spec fn reflectance_spec(cosine: Scalar, ref_idx: Scalar) -> Scalar {
    let q = one().sub_spec(ref_idx).div_spec(one().add_spec(ref_idx));
    let r0 = q.mul_spec(q);
    r0.add_spec(one().sub_spec(r0).mul_spec(fifth_power(one().sub_spec(cosine))))
}

/// Schlick's estimate of how much of the light a clear surface reflects.
pub fn reflectance(cosine: Scalar, ref_idx: Scalar) -> (r: Scalar)
    ensures
        r == reflectance_spec(cosine, ref_idx),
{
    let q = Scalar::one().sub(ref_idx).div(Scalar::one().add(ref_idx));
    let r0 = q.mul(q);
    let x = Scalar::one().sub(cosine);
    let x5 = x.mul(x).mul(x.mul(x)).mul(x);
    r0.add(Scalar::one().sub(r0).mul(x5))
}

/// A roughness held between 0 and 1; what is not a number counts as 1.
pub open spec fn fuzz_spec(fuzz: Scalar) -> Scalar {
    if fuzz@.lt(one()@) {
        if fuzz@.lt((Scalar { bits: 0 })@) {
            Scalar { bits: 0 }
        } else {
            fuzz
        }
    } else {
        one()
    }
}

impl Lambertian {
    /// The direction in which the surface scatters: the normal plus the
    /// random unit vector `ball / |ball|`, or the normal alone where the two
    /// cancel.
    pub open spec fn direction_spec(record: HitRecord, ball: Vec3) -> Vec3 {
        let dir = record.normal.add_spec(ball.normalize_spec());
        if dir.near_zero_spec() {
            record.normal
        } else {
            dir
        }
    }

    /// A matt surface of the given colour.
    pub fn new(color: &Color) -> (r: Lambertian)
        ensures
            r.color == *color,
    {
        Lambertian { color: *color }
    }
}

impl Material for Lambertian {
    /// The light is always scattered, from the point of the hit, and dimmed
    /// by the colour of the surface.
    open spec fn scatter_spec(
        &self,
        ray: Ray,
        record: HitRecord,
        ball: Vec3,
        chance: Scalar,
    ) -> Option<(Ray, Color)> {
        Some(
            (
                Ray { origin: record.point, dir: Lambertian::direction_spec(record, ball) },
                self.color,
            ),
        )
    }

    fn scatter_with(&self, ray: &Ray, record: &HitRecord, ball: &Vec3, chance: Scalar) -> (r:
        Option<(Ray, Color)>)
        ensures
            r matches Some(out) && out.1 == self.color,
    {
        let dir = record.normal.add(ball.normalize());
        let dir = if dir.near_zero() {
            record.normal
        } else {
            dir
        };
        Some((Ray::with(&record.point, &dir), self.color))
    }

    fn scatter(&self, ray: &Ray, record: &HitRecord) -> (r: Option<(Ray, Color)>)
        ensures
            r matches Some(out) && out.1 == self.color,
    {
        let ball = Vec3::random_in_unit_sphere();
        let r = self.scatter_with(ray, record, &ball, Scalar::zero());
        proof {
            Scalar::lemma_zero_word();
        }
        r
    }
}

impl Metal {
    /// The direction in which the surface scatters: the mirror image of the
    /// direction of the ray, of length 1, plus `fuzz * ball`.
    pub open spec fn direction_spec(self, ray: Ray, record: HitRecord, ball: Vec3) -> Vec3 {
        Vec3::reflect_spec(ray.dir.normalize_spec(), record.normal).add_spec(
            ball.scale_spec(self.fuzz),
        )
    }

    /// A mirror of the given colour, with the roughness held between 0 and 1.
    pub fn new(color: &Color, fuzz: Scalar) -> (r: Metal)
        ensures
            r == (Metal { color: *color, fuzz: fuzz_spec(fuzz) }),
            (Scalar { bits: 0 })@.le(r.fuzz@),
            r.fuzz@.le(one()@),
    {
        proof {
            vstd::arithmetic::power2::lemma_pow2_pos(1074);
            vstd::arithmetic::power2::lemma2_to64_rest();
            vstd::arithmetic::power2::lemma_pow2_adds(52, 1022);
        }
        let fuzz = if fuzz.lt(&Scalar::one()) {
            if fuzz.lt(&Scalar::zero()) {
                Scalar::zero()
            } else {
                fuzz
            }
        } else {
            Scalar::one()
        };
        Metal { color: *color, fuzz }
    }
}

impl Material for Metal {
    /// The ray is scattered where the scattered direction leaves the
    /// surface, and taken up where it would enter it.
    open spec fn scatter_spec(
        &self,
        ray: Ray,
        record: HitRecord,
        ball: Vec3,
        chance: Scalar,
    ) -> Option<(Ray, Color)> {
        let dir = self.direction_spec(ray, record, ball);
        if (Scalar { bits: 0 })@.lt(Vec3::dot_spec(dir, record.normal)@) {
            Some((Ray { origin: record.point, dir }, self.color))
        } else {
            None
        }
    }

    fn scatter_with(&self, ray: &Ray, record: &HitRecord, ball: &Vec3, chance: Scalar) -> (r:
        Option<(Ray, Color)>) {
        let reflected = Vec3::reflect(&ray.direction().normalize(), &record.normal);
        let scattered = Ray::with(&record.point, &reflected.add(ball.scale(self.fuzz)));
        if Vec3::dot(&scattered.direction(), &record.normal).gt(&Scalar::zero()) {
            Some((scattered, self.color))
        } else {
            None
        }
    }

    fn scatter(&self, ray: &Ray, record: &HitRecord) -> (r: Option<(Ray, Color)>) {
        let ball = Vec3::random_in_unit_sphere();
        let r = self.scatter_with(ray, record, &ball, Scalar::zero());
        proof {
            Scalar::lemma_zero_word();
        }
        r
    }
}

impl Dielectric {
    /// The refractive index on the side of the ray over that on the other
    /// side: `1 / ir` for a ray from outside, `ir` for one from inside.
    pub open spec fn ratio_spec(self, record: HitRecord) -> Scalar {
        if record.front_face {
            one().div_spec(self.ir)
        } else {
            self.ir
        }
    }

    /// Whether the ray is reflected: where it cannot be refracted because
    /// `ratio * sin > 1`, and else by chance, as often as Schlick's estimate
    /// says.
    pub open spec fn reflects_spec(self, ray: Ray, record: HitRecord, chance: Scalar) -> bool {
        let ratio = self.ratio_spec(record);
        let cos = at_most_one(Vec3::dot_spec(ray.dir.normalize_spec().neg_spec(), record.normal));
        let sin = one().sub_spec(cos.mul_spec(cos)).sqrt_spec();
        one()@.lt(ratio.mul_spec(sin)@) || chance@.lt(reflectance_spec(cos, ratio)@)
    }

    /// The direction in which the surface scatters: reflected or refracted.
    pub open spec fn direction_spec(self, ray: Ray, record: HitRecord, chance: Scalar) -> Vec3 {
        let unit = ray.dir.normalize_spec();
        if self.reflects_spec(ray, record, chance) {
            Vec3::reflect_spec(unit, record.normal)
        } else {
            Vec3::refract_spec(unit, record.normal, self.ratio_spec(record))
        }
    }

    /// Clear matter with the given refractive index.
    pub fn new(ir: Scalar) -> (r: Dielectric)
        ensures
            r.ir == ir,
    {
        Dielectric { ir }
    }
}

/// The colour that dims nothing.
pub open spec fn white() -> Color {
    Vec3 { x: one(), y: one(), z: one() }
}

impl Material for Dielectric {
    /// The light is always scattered, from the point of the hit, and not
    /// dimmed.
    open spec fn scatter_spec(
        &self,
        ray: Ray,
        record: HitRecord,
        ball: Vec3,
        chance: Scalar,
    ) -> Option<(Ray, Color)> {
        Some((Ray { origin: record.point, dir: self.direction_spec(ray, record, chance) }, white()))
    }

    fn scatter_with(&self, ray: &Ray, record: &HitRecord, ball: &Vec3, chance: Scalar) -> (r:
        Option<(Ray, Color)>)
        ensures
            r matches Some(out) && out.1 == white(),
    {
        let attenuation = Vec3::with(Scalar::one(), Scalar::one(), Scalar::one());
        let ratio = if record.front_face {
            Scalar::one().div(self.ir)
        } else {
            self.ir
        };
        let unit = ray.direction().normalize();
        let d = Vec3::dot(&unit.neg(), &record.normal);
        let cos = if d.gt(&Scalar::one()) {
            Scalar::one()
        } else {
            d
        };
        let sin = Scalar::one().sub(cos.mul(cos)).sqrt();
        let dir = if ratio.mul(sin).gt(&Scalar::one()) || reflectance(cos, ratio).gt(&chance) {
            Vec3::reflect(&unit, &record.normal)
        } else {
            Vec3::refract(&unit, &record.normal, ratio)
        };
        Some((Ray::with(&record.point, &dir), attenuation))
    }

    fn scatter(&self, ray: &Ray, record: &HitRecord) -> (r: Option<(Ray, Color)>)
        ensures
            r matches Some(out) && out.1 == white(),
    {
        let chance = Scalar::random();
        let ball = Vec3::new();
        proof {
            Vec3::lemma_zero_in_unit_ball();
        }
        self.scatter_with(ray, record, &ball, chance)
    }
}

/// What a surface is made of: one of the three materials.
#[derive(Clone, Copy, Debug)]
pub enum Surface {
    Lambertian(Lambertian),
    Metal(Metal),
    Dielectric(Dielectric),
}

impl Material for Surface {
    /// What the material of the surface answers.
    open spec fn scatter_spec(
        &self,
        ray: Ray,
        record: HitRecord,
        ball: Vec3,
        chance: Scalar,
    ) -> Option<(Ray, Color)> {
        match *self {
            Surface::Lambertian(m) => m.scatter_spec(ray, record, ball, chance),
            Surface::Metal(m) => m.scatter_spec(ray, record, ball, chance),
            Surface::Dielectric(m) => m.scatter_spec(ray, record, ball, chance),
        }
    }

    fn scatter_with(&self, ray: &Ray, record: &HitRecord, ball: &Vec3, chance: Scalar) -> (r:
        Option<(Ray, Color)>) {
        match self {
            Surface::Lambertian(m) => m.scatter_with(ray, record, ball, chance),
            Surface::Metal(m) => m.scatter_with(ray, record, ball, chance),
            Surface::Dielectric(m) => m.scatter_with(ray, record, ball, chance),
        }
    }

    fn scatter(&self, ray: &Ray, record: &HitRecord) -> (r: Option<(Ray, Color)>) {
        let r = match self {
            Surface::Lambertian(m) => m.scatter(ray, record),
            Surface::Metal(m) => m.scatter(ray, record),
            Surface::Dielectric(m) => m.scatter(ray, record),
        };
        proof {
            self.lemma_scatter_of_kind(*ray, *record, r);
        }
        r
    }
}

impl Surface {
    /// What the material of a surface can answer, the surface can answer.
    proof fn lemma_scatter_of_kind(self, ray: Ray, record: HitRecord, r: Option<(Ray, Color)>)
        requires
            match self {
                Surface::Lambertian(m) => exists|ball: Vec3, w: u64|
                    ball.in_unit_ball() && r == m.scatter_spec(
                        ray,
                        record,
                        ball,
                        Scalar::from_word_spec(w),
                    ),
                Surface::Metal(m) => exists|ball: Vec3, w: u64|
                    ball.in_unit_ball() && r == m.scatter_spec(
                        ray,
                        record,
                        ball,
                        Scalar::from_word_spec(w),
                    ),
                Surface::Dielectric(m) => exists|ball: Vec3, w: u64|
                    ball.in_unit_ball() && r == m.scatter_spec(
                        ray,
                        record,
                        ball,
                        Scalar::from_word_spec(w),
                    ),
            },
        ensures
            exists|ball: Vec3, w: u64|
                ball.in_unit_ball() && r == self.scatter_spec(
                    ray,
                    record,
                    ball,
                    Scalar::from_word_spec(w),
                ),
    {
        match self {
            Surface::Lambertian(m) => {
                let (ball, w) = choose|ball: Vec3, w: u64|
                    ball.in_unit_ball() && r == m.scatter_spec(
                        ray,
                        record,
                        ball,
                        Scalar::from_word_spec(w),
                    );
                assert(self.scatter_spec(ray, record, ball, Scalar::from_word_spec(w))
                    == m.scatter_spec(ray, record, ball, Scalar::from_word_spec(w)));
            },
            Surface::Metal(m) => {
                let (ball, w) = choose|ball: Vec3, w: u64|
                    ball.in_unit_ball() && r == m.scatter_spec(
                        ray,
                        record,
                        ball,
                        Scalar::from_word_spec(w),
                    );
                assert(self.scatter_spec(ray, record, ball, Scalar::from_word_spec(w))
                    == m.scatter_spec(ray, record, ball, Scalar::from_word_spec(w)));
            },
            Surface::Dielectric(m) => {
                let (ball, w) = choose|ball: Vec3, w: u64|
                    ball.in_unit_ball() && r == m.scatter_spec(
                        ray,
                        record,
                        ball,
                        Scalar::from_word_spec(w),
                    );
                assert(self.scatter_spec(ray, record, ball, Scalar::from_word_spec(w))
                    == m.scatter_spec(ray, record, ball, Scalar::from_word_spec(w)));
            },
        }
    }
}

} // verus!
