//! What a ray can hit, and what is known of a hit.

use vstd::prelude::*;
use crate::material::Surface;
use crate::ray::Ray;
use crate::number::scalar::Scalar;
use crate::vec3::{Point3, Vec3};

verus! {

/// A hit of a ray on a surface.
#[derive(Clone, Copy, Debug)]
pub struct HitRecord {
    /// Where the ray meets the surface.
    pub point: Point3,
    /// The normal of the surface there, turned against the ray.
    pub normal: Vec3,
    /// The parameter of the ray at the hit.
    pub t: Scalar,
    /// Whether the ray comes from outside.
    pub front_face: bool,
    /// What the surface is made of.
    pub material: Surface,
}

impl HitRecord {
    /// The normal that points out of a sphere at the point of the ray with
    /// parameter `root`: `(point - center) / radius`.
    pub open spec fn outward_spec(ray: Ray, center: Point3, root: Scalar, radius: Scalar) -> Vec3 {
        ray.at_spec(root).sub_spec(center).div_spec(radius)
    }

    /// The record of the hit of `ray` on a sphere at parameter `root`. The
    /// ray comes from outside where its direction and the outward normal make
    /// a negative dot product; the normal of the record is the outward normal
    /// then, and its opposite else.
    pub open spec fn new_spec(
        ray: Ray,
        center: Point3,
        root: Scalar,
        radius: Scalar,
        material: Surface,
    ) -> HitRecord {
        let outward = HitRecord::outward_spec(ray, center, root, radius);
        let front_face = Vec3::dot_spec(ray.dir, outward)@.lt((Scalar { bits: 0 })@);
        HitRecord {
            point: ray.at_spec(root),
            normal: if front_face {
                outward
            } else {
                outward.neg_spec()
            },
            t: root,
            front_face,
            material,
        }
    }

    /// The record of the hit of `ray` at parameter `root` on the sphere
    /// around `center` with the given radius.
    pub fn new(ray: &Ray, center: &Point3, root: Scalar, radius: Scalar, material: Surface) -> (r:
        HitRecord)
        ensures
            r == HitRecord::new_spec(*ray, *center, root, radius, material),
    {
        let point = ray.at(root);
        let outward = point.sub(*center).div(radius);
        let front_face = Vec3::dot(&ray.direction(), &outward).lt(&Scalar::zero());
        let normal = if front_face {
            outward
        } else {
            outward.neg()
        };
        HitRecord { point, normal, t: root, front_face, material }
    }
}

/// Something that a ray can hit.
pub trait Hittable {
    /// The nearest hit of the ray with a parameter from `t_min` to `t_max`,
    /// if there is one.
    spec fn hit_spec(&self, ray: Ray, t_min: Scalar, t_max: Scalar) -> Option<HitRecord>;

    /// The nearest hit of the ray with a parameter from `t_min` to `t_max`.
    fn hit(&self, ray: &Ray, t_min: Scalar, t_max: Scalar) -> (r: Option<HitRecord>)
        ensures
            r == self.hit_spec(*ray, t_min, t_max),
    ;

    /// No hit is reported outside the interval asked for.
    proof fn lemma_hit_in_range(&self, ray: Ray, t_min: Scalar, t_max: Scalar)
        ensures
            self.hit_spec(ray, t_min, t_max) matches Some(rec) ==> t_min@.le(rec.t@) && rec.t@.le(
                t_max@,
            ),
    ;

    /// Asked for a hit up to a lesser bound, the thing reports the same hit
    /// where that lies below the bound, and none else: the hit is the
    /// nearest.
    proof fn lemma_hit_shrinks(&self, ray: Ray, t_min: Scalar, t_max: Scalar, t_new: Scalar)
        requires
            t_new@.le(t_max@),
        ensures
            self.hit_spec(ray, t_min, t_new) == no_farther(
                self.hit_spec(ray, t_min, t_max),
                t_new,
            ),
    ;
}

/// The hit, where its parameter is at most `bound`.
pub open spec fn no_farther(hit: Option<HitRecord>, bound: Scalar) -> Option<HitRecord> {
    match hit {
        Some(rec) => if rec.t@.le(bound@) {
            hit
        } else {
            None
        },
        None => None,
    }
}

} // verus!
