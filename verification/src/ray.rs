//! Rays: half-lines from an origin along a direction.

use vstd::prelude::*;
use crate::number::scalar::Scalar;
use crate::vec3::{Point3, Vec3};

verus! {

/// A ray. Its direction need not have length 1.
#[derive(Clone, Copy, Debug)]
pub struct Ray {
    pub origin: Point3,
    pub dir: Vec3,
}

impl Ray {
    /// The point `origin + t * dir`.
    pub open spec fn at_spec(self, t: Scalar) -> Point3 {
        self.origin.add_spec(self.dir.scale_spec(t))
    }

    /// The ray from the origin of space with no direction.
    pub fn new() -> (r: Ray)
        ensures
            r == (Ray { origin: Vec3::zero_spec(), dir: Vec3::zero_spec() }),
    {
        Ray { origin: Vec3::new(), dir: Vec3::new() }
    }

    /// The ray from `origin` along `dir`.
    pub fn with(origin: &Point3, dir: &Vec3) -> (r: Ray)
        ensures
            r == (Ray { origin: *origin, dir: *dir }),
    {
        Ray { origin: *origin, dir: *dir }
    }

    /// Where the ray starts.
    pub fn origin(&self) -> (r: Point3)
        ensures
            r == self.origin,
    {
        self.origin
    }

    /// Where the ray points.
    pub fn direction(&self) -> (r: Vec3)
        ensures
            r == self.dir,
    {
        self.dir
    }

    /// The point of the ray at parameter `t`.
    pub fn at(&self, t: Scalar) -> (r: Point3)
        ensures
            r == self.at_spec(t),
    {
        self.origin.add(self.dir.scale(t))
    }
}

} // verus!
