//! Vectors of three doubles: points, directions and colours.

use vstd::prelude::*;
use crate::number::scalar::Scalar;

verus! {

/// A vector of three doubles.
#[derive(Clone, Copy, Debug)]
pub struct Vec3 {
    pub x: Scalar,
    pub y: Scalar,
    pub z: Scalar,
}

/// A position.
pub type Point3 = Vec3;

/// A colour: red, green and blue in linear light.
pub type Color = Vec3;

impl Vec3 {
    /// The vector of three positive zeros.
    pub open spec fn zero_spec() -> Vec3 {
        Vec3 { x: Scalar { bits: 0 }, y: Scalar { bits: 0 }, z: Scalar { bits: 0 } }
    }

    /// The sum, component by component.
    pub open spec fn add_spec(self, rhs: Vec3) -> Vec3 {
        Vec3 {
            x: self.x.add_spec(rhs.x),
            y: self.y.add_spec(rhs.y),
            z: self.z.add_spec(rhs.z),
        }
    }

    /// The vector with `t` added to each component.
    pub open spec fn add_scalar_spec(self, t: Scalar) -> Vec3 {
        Vec3 { x: self.x.add_spec(t), y: self.y.add_spec(t), z: self.z.add_spec(t) }
    }

    /// The difference, component by component.
    pub open spec fn sub_spec(self, rhs: Vec3) -> Vec3 {
        Vec3 {
            x: self.x.sub_spec(rhs.x),
            y: self.y.sub_spec(rhs.y),
            z: self.z.sub_spec(rhs.z),
        }
    }

    /// The vector with each component multiplied by `t`.
    pub open spec fn scale_spec(self, t: Scalar) -> Vec3 {
        Vec3 { x: self.x.mul_spec(t), y: self.y.mul_spec(t), z: self.z.mul_spec(t) }
    }

    /// The product, component by component, as a colour is tinted.
    pub open spec fn mul_spec(self, rhs: Vec3) -> Vec3 {
        Vec3 {
            x: self.x.mul_spec(rhs.x),
            y: self.y.mul_spec(rhs.y),
            z: self.z.mul_spec(rhs.z),
        }
    }

    /// The vector scaled by the reciprocal of `t`.
    pub open spec fn div_spec(self, t: Scalar) -> Vec3 {
        self.scale_spec(Scalar { bits: crate::number::convert::ONE_BITS }.div_spec(t))
    }

    /// The vector with the sign of each component flipped.
    pub open spec fn neg_spec(self) -> Vec3 {
        Vec3 { x: self.x.neg_spec(), y: self.y.neg_spec(), z: self.z.neg_spec() }
    }

    /// The dot product `(u.x * v.x + u.y * v.y) + u.z * v.z`.
    pub open spec fn dot_spec(u: Vec3, v: Vec3) -> Scalar {
        u.x.mul_spec(v.x).add_spec(u.y.mul_spec(v.y)).add_spec(u.z.mul_spec(v.z))
    }

    /// The cross product.
    pub open spec fn cross_spec(u: Vec3, v: Vec3) -> Vec3 {
        Vec3 {
            x: u.y.mul_spec(v.z).sub_spec(u.z.mul_spec(v.y)),
            y: u.z.mul_spec(v.x).sub_spec(u.x.mul_spec(v.z)),
            z: u.x.mul_spec(v.y).sub_spec(u.y.mul_spec(v.x)),
        }
    }

    /// The square of the length.
    pub open spec fn len_sqr_spec(self) -> Scalar {
        Vec3::dot_spec(self, self)
    }

    /// The length.
    pub open spec fn len_spec(self) -> Scalar {
        self.len_sqr_spec().sqrt_spec()
    }

    /// The vector divided by its length.
    pub open spec fn normalize_spec(self) -> Vec3 {
        self.div_spec(self.len_spec())
    }

    /// The zero vector.
    pub fn new() -> (r: Vec3)
        ensures
            r == Vec3::zero_spec(),
    {
        Vec3 { x: Scalar::zero(), y: Scalar::zero(), z: Scalar::zero() }
    }

    /// The vector with the given components.
    pub fn with(x: Scalar, y: Scalar, z: Scalar) -> (r: Vec3)
        ensures
            r == (Vec3 { x, y, z }),
    {
        Vec3 { x, y, z }
    }

    /// The first component.
    pub fn x(&self) -> (r: Scalar)
        ensures
            r == self.x,
    {
        self.x
    }

    /// The second component.
    pub fn y(&self) -> (r: Scalar)
        ensures
            r == self.y,
    {
        self.y
    }

    /// The third component.
    pub fn z(&self) -> (r: Scalar)
        ensures
            r == self.z,
    {
        self.z
    }

    /// The sum of two vectors.
    pub fn add(self, rhs: Vec3) -> (r: Vec3)
        ensures
            r == self.add_spec(rhs),
    {
        Vec3 { x: self.x.add(rhs.x), y: self.y.add(rhs.y), z: self.z.add(rhs.z) }
    }

    /// The vector with `t` added to each component.
    pub fn add_scalar(self, t: Scalar) -> (r: Vec3)
        ensures
            r == self.add_scalar_spec(t),
    {
        Vec3 { x: self.x.add(t), y: self.y.add(t), z: self.z.add(t) }
    }

    /// The difference of two vectors.
    pub fn sub(self, rhs: Vec3) -> (r: Vec3)
        ensures
            r == self.sub_spec(rhs),
    {
        Vec3 { x: self.x.sub(rhs.x), y: self.y.sub(rhs.y), z: self.z.sub(rhs.z) }
    }

    /// The vector scaled by `t`.
    pub fn scale(self, t: Scalar) -> (r: Vec3)
        ensures
            r == self.scale_spec(t),
    {
        Vec3 { x: self.x.mul(t), y: self.y.mul(t), z: self.z.mul(t) }
    }

    /// The product of two vectors, component by component.
    pub fn mul(self, rhs: Vec3) -> (r: Vec3)
        ensures
            r == self.mul_spec(rhs),
    {
        Vec3 { x: self.x.mul(rhs.x), y: self.y.mul(rhs.y), z: self.z.mul(rhs.z) }
    }

    /// The vector divided by `t`: scaled by the reciprocal of `t`.
    pub fn div(self, t: Scalar) -> (r: Vec3)
        ensures
            r == self.div_spec(t),
    {
        self.scale(Scalar::one().div(t))
    }

    /// The opposite vector.
    pub fn neg(self) -> (r: Vec3)
        ensures
            r == self.neg_spec(),
    {
        Vec3 { x: self.x.neg(), y: self.y.neg(), z: self.z.neg() }
    }

    /// Adds `rhs` to the vector.
    pub fn add_assign(&mut self, rhs: Vec3)
        ensures
            *final(self) == old(self).add_spec(rhs),
    {
        self.x = self.x.add(rhs.x);
        self.y = self.y.add(rhs.y);
        self.z = self.z.add(rhs.z);
    }

    /// Takes `rhs` away from the vector.
    pub fn sub_assign(&mut self, rhs: Vec3)
        ensures
            *final(self) == old(self).sub_spec(rhs),
    {
        self.x = self.x.sub(rhs.x);
        self.y = self.y.sub(rhs.y);
        self.z = self.z.sub(rhs.z);
    }

    /// Scales the vector by `t`.
    pub fn mul_assign(&mut self, t: Scalar)
        ensures
            *final(self) == old(self).scale_spec(t),
    {
        self.x = self.x.mul(t);
        self.y = self.y.mul(t);
        self.z = self.z.mul(t);
    }

    /// The vector with each component divided by `t`.
    pub open spec fn div_each_spec(self, t: Scalar) -> Vec3 {
        Vec3 { x: self.x.div_spec(t), y: self.y.div_spec(t), z: self.z.div_spec(t) }
    }

    /// Divides each component of the vector by `t`.
    pub fn div_assign(&mut self, t: Scalar)
        ensures
            *final(self) == old(self).div_each_spec(t),
    {
        self.x = self.x.div(t);
        self.y = self.y.div(t);
        self.z = self.z.div(t);
    }

    /// The dot product of two vectors.
    pub fn dot(u: &Vec3, v: &Vec3) -> (r: Scalar)
        ensures
            r == Vec3::dot_spec(*u, *v),
    {
        u.x.mul(v.x).add(u.y.mul(v.y)).add(u.z.mul(v.z))
    }

    /// The cross product of two vectors.
    pub fn cross(u: &Vec3, v: &Vec3) -> (r: Vec3)
        ensures
            r == Vec3::cross_spec(*u, *v),
    {
        Vec3 {
            x: u.y.mul(v.z).sub(u.z.mul(v.y)),
            y: u.z.mul(v.x).sub(u.x.mul(v.z)),
            z: u.x.mul(v.y).sub(u.y.mul(v.x)),
        }
    }

    /// The square of the length.
    pub fn len_sqr(&self) -> (r: Scalar)
        ensures
            r == self.len_sqr_spec(),
    {
        Vec3::dot(self, self)
    }

    /// The length.
    pub fn len(&self) -> (r: Scalar)
        ensures
            r == self.len_spec(),
    {
        self.len_sqr().sqrt()
    }

    /// The vector of the same direction and length 1. The zero vector has
    /// none: its components come out as NaN.
    pub fn normalize(&self) -> (r: Vec3)
        ensures
            r == self.normalize_spec(),
    {
        self.div(self.len())
    }
}

} // verus!
