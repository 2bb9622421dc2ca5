//! Spheres.

use vstd::prelude::*;
use crate::hittable::{HitRecord, Hittable};
use crate::material::Surface;
use crate::laws::lemma_len_sqr_not_negative;
use crate::number::facts::{lemma_div_monotone, lemma_minus_plus, lemma_sqrt_not_negative};
use crate::ray::Ray;
use crate::number::scalar::Scalar;
use crate::vec3::{Point3, Vec3};

verus! {

/// A sphere. Its radius is meant to be positive.
#[derive(Clone, Copy, Debug)]
pub struct Sphere {
    pub center: Point3,
    pub radius: Scalar,
    pub material: Surface,
}

/// Whether `x` lies in the interval from `t_min` to `t_max`.
pub open spec fn within(x: Scalar, t_min: Scalar, t_max: Scalar) -> bool {
    t_min@.le(x@) && x@.le(t_max@)
}

impl Sphere {
    /// The discriminant `b^2 - a * c` of the equation `a t^2 + 2 b t + c = 0`
    /// for the parameters at which the ray meets the sphere: `a` is the
    /// square of the length of the direction, `b` the dot product of the
    /// direction and of `origin - center`, and `c` the square of the length
    /// of `origin - center` less the square of the radius.
    pub open spec fn discriminant_spec(self, ray: Ray) -> Scalar {
        let oc = ray.origin.sub_spec(self.center);
        let a = ray.dir.len_sqr_spec();
        let b = Vec3::dot_spec(ray.dir, oc);
        let c = oc.len_sqr_spec().sub_spec(self.radius.mul_spec(self.radius));
        b.mul_spec(b).sub_spec(a.mul_spec(c))
    }

    /// The smaller solution `(-b - sqrt(disc)) / a`.
    pub open spec fn near_root_spec(self, ray: Ray) -> Scalar {
        let b = Vec3::dot_spec(ray.dir, ray.origin.sub_spec(self.center));
        b.neg_spec().sub_spec(self.discriminant_spec(ray).sqrt_spec()).div_spec(
            ray.dir.len_sqr_spec(),
        )
    }

    /// The larger solution `(-b + sqrt(disc)) / a`.
    pub open spec fn far_root_spec(self, ray: Ray) -> Scalar {
        let b = Vec3::dot_spec(ray.dir, ray.origin.sub_spec(self.center));
        b.neg_spec().add_spec(self.discriminant_spec(ray).sqrt_spec()).div_spec(
            ray.dir.len_sqr_spec(),
        )
    }

    /// The parameter of the hit: none where the discriminant is negative;
    /// else the smaller solution where it lies in the interval, else the
    /// larger where that does, else none.
    pub open spec fn root_spec(self, ray: Ray, t_min: Scalar, t_max: Scalar) -> Option<Scalar> {
        if self.discriminant_spec(ray)@.lt((Scalar { bits: 0 })@) {
            None
        } else if within(self.near_root_spec(ray), t_min, t_max) {
            Some(self.near_root_spec(ray))
        } else if within(self.far_root_spec(ray), t_min, t_max) {
            Some(self.far_root_spec(ray))
        } else {
            None
        }
    }

    /// The sphere around `center` with the given radius and material.
    pub fn new(center: &Point3, radius: Scalar, material: Surface) -> (r: Sphere)
        ensures
            r == (Sphere { center: *center, radius, material }),
    {
        Sphere { center: *center, radius, material }
    }
}

impl Hittable for Sphere {
    /// The record of the hit at the parameter that `root_spec` gives.
    open spec fn hit_spec(&self, ray: Ray, t_min: Scalar, t_max: Scalar) -> Option<HitRecord> {
        match self.root_spec(ray, t_min, t_max) {
            Some(root) => Some(
                HitRecord::new_spec(ray, self.center, root, self.radius, self.material),
            ),
            None => None,
        }
    }

    fn hit(&self, ray: &Ray, t_min: Scalar, t_max: Scalar) -> (r: Option<HitRecord>)
        ensures
            self.discriminant_spec(*ray)@.lt((Scalar { bits: 0 })@) ==> r is None,
            r matches Some(rec) ==> within(rec.t, t_min, t_max) && (rec.t == self.near_root_spec(
                *ray,
            ) || rec.t == self.far_root_spec(*ray)),
    {
        let oc = ray.origin().sub(self.center);
        let a = ray.direction().len_sqr();
        let b = Vec3::dot(&ray.direction(), &oc);
        let c = oc.len_sqr().sub(self.radius.mul(self.radius));
        let discriminant = b.mul(b).sub(a.mul(c));
        if discriminant.lt(&Scalar::zero()) {
            return None;
        }
        let sqrtd = discriminant.sqrt();
        let mut root = b.neg().sub(sqrtd).div(a);
        if !(t_min.le(&root) && root.le(&t_max)) {
            root = b.neg().add(sqrtd).div(a);
            if !(t_min.le(&root) && root.le(&t_max)) {
                return None;
            }
        }
        Some(HitRecord::new(ray, &self.center, root, self.radius, self.material))
    }

    proof fn lemma_hit_in_range(&self, ray: Ray, t_min: Scalar, t_max: Scalar) {
    }

    proof fn lemma_hit_shrinks(&self, ray: Ray, t_min: Scalar, t_max: Scalar, t_new: Scalar) {
        self.lemma_roots_ordered(ray);
    }
}

impl Sphere {
    /// The smaller solution is not above the larger, unless one of them is
    /// not a number.
    pub proof fn lemma_roots_ordered(self, ray: Ray)
        ensures
            self.near_root_spec(ray)@.is_nan() || self.far_root_spec(ray)@.is_nan()
                || self.near_root_spec(ray)@.le(self.far_root_spec(ray)@),
    {
        let nb = Vec3::dot_spec(ray.dir, ray.origin.sub_spec(self.center)).neg_spec();
        let s = self.discriminant_spec(ray).sqrt_spec();
        let a = ray.dir.len_sqr_spec();
        let lo = nb.sub_spec(s);
        let hi = nb.add_spec(s);
        nb.lemma_sub_view(s);
        nb.lemma_add_view(s);
        lo.lemma_div_view(a);
        hi.lemma_div_view(a);
        lemma_sqrt_not_negative(self.discriminant_spec(ray));
        lemma_len_sqr_not_negative(ray.dir);
        if !nb@.is_nan() && !s@.is_nan() {
            lemma_minus_plus(nb, s);
            if !lo@.is_nan() && !hi@.is_nan() && !a@.is_nan() {
                lemma_div_monotone(lo, hi, a);
            }
        }
    }
}

} // verus!
