//! What holds of vectors and of hits, beyond the single operations.

use vstd::prelude::*;
use vstd::arithmetic::power2::*;
use crate::number::convert::one;
use crate::hittable::HitRecord;
use crate::material::Surface;
use crate::number::facts::{
    lemma_add_opposite, lemma_mul_negated, lemma_mul_one, lemma_one_over_one,
    lemma_square_not_negative, not_negative, opposite,
};
use crate::number::scalar::Scalar;
use crate::ray::Ray;
use crate::vec3::Vec3;


verus! {

/// A vector with a component that is not a number has no length.
pub proof fn lemma_length_of_nan(v: Vec3)
    requires
        v.x@.is_nan() || v.y@.is_nan() || v.z@.is_nan(),
    ensures
        v.len_spec()@.is_nan(),
{
    let xx = v.x.mul_spec(v.x);
    let yy = v.y.mul_spec(v.y);
    let zz = v.z.mul_spec(v.z);
    v.x.lemma_mul_view(v.x);
    v.y.lemma_mul_view(v.y);
    v.z.lemma_mul_view(v.z);
    xx.lemma_add_view(yy);
    xx.add_spec(yy).lemma_add_view(zz);
    xx.add_spec(yy).add_spec(zz).lemma_sqrt_view();
}

/// A vector of length 1 is its own normalization, so that its normalization
/// has length 1.
pub proof fn lemma_normalize_unit(v: Vec3)
    requires
        v.len_spec() == one(),
    ensures
        v.normalize_spec() == v,
        v.normalize_spec().len_spec() == one(),
{
    lemma2_to64_rest();
    lemma_pow2_adds(52, 1022);
    assert(!one()@.is_nan());
    if v.x@.is_nan() || v.y@.is_nan() || v.z@.is_nan() {
        lemma_length_of_nan(v);
    }
    lemma_one_over_one();
    lemma_mul_one(v.x);
    lemma_mul_one(v.y);
    lemma_mul_one(v.z);
}

/// The dot product with a negated vector is opposite to the dot product.
pub proof fn lemma_dot_negated(u: Vec3, v: Vec3)
    ensures
        opposite(Vec3::dot_spec(u, v.neg_spec())@, Vec3::dot_spec(u, v)@),
{
    let w = v.neg_spec();
    lemma_mul_negated(u.x, v.x);
    lemma_mul_negated(u.y, v.y);
    lemma_mul_negated(u.z, v.z);
    lemma_add_opposite(u.x.mul_spec(w.x), u.y.mul_spec(w.y), u.x.mul_spec(v.x), u.y.mul_spec(v.y));
    lemma_add_opposite(
        u.x.mul_spec(w.x).add_spec(u.y.mul_spec(w.y)),
        u.z.mul_spec(w.z),
        u.x.mul_spec(v.x).add_spec(u.y.mul_spec(v.y)),
        u.z.mul_spec(v.z),
    );
}

/// The normal of a hit is turned against the ray: its dot product with the
/// direction of the ray is not above zero. And the ray counts as coming from
/// outside exactly where its dot product with the outward normal is below
/// zero.
pub proof fn lemma_normal_faces_ray(
    ray: Ray,
    center: Vec3,
    root: Scalar,
    radius: Scalar,
    material: Surface,
)
    ensures
        ({
            let rec = HitRecord::new_spec(ray, center, root, radius, material);
            let d = Vec3::dot_spec(ray.dir, rec.normal)@;
            &&& d.is_nan() || d.signed() <= 0
            &&& rec.front_face <==> Vec3::dot_spec(
                ray.dir,
                HitRecord::outward_spec(ray, center, root, radius),
            )@.lt((Scalar { bits: 0 })@)
            &&& rec.front_face ==> d.signed() < 0
        }),
{
    lemma_dot_negated(ray.dir, HitRecord::outward_spec(ray, center, root, radius));
}

/// The square of the length of a vector is not negative.
pub proof fn lemma_len_sqr_not_negative(v: Vec3)
    ensures
        v.len_sqr_spec()@ is Nan || not_negative(v.len_sqr_spec()@),
{
    let xx = v.x.mul_spec(v.x);
    let yy = v.y.mul_spec(v.y);
    let zz = v.z.mul_spec(v.z);
    lemma_square_not_negative(v.x, v.x);
    lemma_square_not_negative(v.y, v.y);
    lemma_square_not_negative(v.z, v.z);
    lemma_square_not_negative(xx, yy);
    lemma_square_not_negative(xx.add_spec(yy), zz);
    xx.lemma_add_view(yy);
    xx.add_spec(yy).lemma_add_view(zz);
}

} // verus!
