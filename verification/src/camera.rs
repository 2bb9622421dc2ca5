//! The camera: from a place on the picture to a ray into the scene.

use vstd::prelude::*;
use crate::number::convert::two;
use crate::ray::Ray;
use crate::number::scalar::Scalar;
use crate::vec3::{Point3, Vec3};

verus! {

/// A camera with a thin lens.
#[derive(Clone, Copy, Debug)]
pub struct Camera {
    /// Where the camera stands.
    pub origin: Point3,
    /// The lower left corner of the plane that is in focus.
    pub lower_left_corner: Point3,
    /// From the left edge of that plane to its right edge.
    pub horizontal: Vec3,
    /// From its lower edge to its upper edge.
    pub vertical: Vec3,
    /// To the right of the camera, of length 1.
    pub u: Vec3,
    /// Upward for the camera, of length 1.
    pub v: Vec3,
    /// Against the direction of view, of length 1.
    pub w: Vec3,
    /// Half the aperture.
    pub lens_radius: Scalar,
}

impl Camera {
    /// The camera that stands at `look_from` and looks at `look_at`, with
    /// `vup` pointing upward. `half_height` is the tangent of half the
    /// vertical angle of view, `aspect_ratio` the width of the picture over
    /// its height, `aperture` the diameter of the lens and `focus_dist` the
    /// distance of the plane that is in focus.
    pub open spec fn new_spec(
        half_height: Scalar,
        aspect_ratio: Scalar,
        look_from: Point3,
        look_at: Point3,
        vup: Vec3,
        aperture: Scalar,
        focus_dist: Scalar,
    ) -> Camera {
        let viewport_height = two().mul_spec(half_height);
        let viewport_width = aspect_ratio.mul_spec(viewport_height);
        let w = look_from.sub_spec(look_at).normalize_spec();
        let u = Vec3::cross_spec(vup, w).normalize_spec();
        let v = Vec3::cross_spec(w, u);
        let horizontal = u.scale_spec(focus_dist.mul_spec(viewport_width));
        let vertical = v.scale_spec(focus_dist.mul_spec(viewport_height));
        Camera {
            origin: look_from,
            lower_left_corner: look_from.sub_spec(horizontal.div_spec(two())).sub_spec(
                vertical.div_spec(two()),
            ).sub_spec(w.scale_spec(focus_dist)),
            horizontal,
            vertical,
            u,
            v,
            w,
            lens_radius: aperture.div_spec(two()),
        }
    }

    /// The ray for the place `(s, t)` of the picture, both from 0 to 1,
    /// through the point `disk` of the unit disk of the lens: it starts at
    /// `origin + offset` with `offset = rd.x * u + rd.y * v` and
    /// `rd = lens_radius * disk`, and it is aimed at the point
    /// `lower_left_corner + s * horizontal + t * vertical` of the plane in
    /// focus.
    pub open spec fn get_ray_spec(self, s: Scalar, t: Scalar, disk: Vec3) -> Ray {
        let rd = disk.scale_spec(self.lens_radius);
        let offset = self.u.scale_spec(rd.x).add_spec(self.v.scale_spec(rd.y));
        Ray {
            origin: self.origin.add_spec(offset),
            dir: self.lower_left_corner.add_spec(self.horizontal.scale_spec(s)).add_spec(
                self.vertical.scale_spec(t),
            ).sub_spec(self.origin).sub_spec(offset),
        }
    }

    /// The camera that stands at `look_from` and looks at `look_at`.
    pub fn new(
        half_height: Scalar,
        aspect_ratio: Scalar,
        look_from: &Point3,
        look_at: &Point3,
        vup: &Vec3,
        aperture: Scalar,
        focus_dist: Scalar,
    ) -> (r: Camera)
        ensures
            r == Camera::new_spec(
                half_height,
                aspect_ratio,
                *look_from,
                *look_at,
                *vup,
                aperture,
                focus_dist,
            ),
    {
        let viewport_height = Scalar::two().mul(half_height);
        let viewport_width = aspect_ratio.mul(viewport_height);
        let w = look_from.sub(*look_at).normalize();
        let u = Vec3::cross(vup, &w).normalize();
        let v = Vec3::cross(&w, &u);
        let horizontal = u.scale(focus_dist.mul(viewport_width));
        let vertical = v.scale(focus_dist.mul(viewport_height));
        let lower_left_corner = look_from.sub(horizontal.div(Scalar::two())).sub(
            vertical.div(Scalar::two()),
        ).sub(w.scale(focus_dist));
        Camera {
            origin: *look_from,
            lower_left_corner,
            horizontal,
            vertical,
            u,
            v,
            w,
            lens_radius: aperture.div(Scalar::two()),
        }
    }

    /// The ray for the place `(s, t)` of the picture through a given point of
    /// the unit disk of the lens.
    pub fn get_ray_with(&self, s: Scalar, t: Scalar, disk: &Vec3) -> (r: Ray)
        ensures
            r == self.get_ray_spec(s, t, *disk),
    {
        let rd = disk.scale(self.lens_radius);
        let offset = self.u.scale(rd.x()).add(self.v.scale(rd.y()));
        Ray::with(
            &self.origin.add(offset),
            &self.lower_left_corner.add(self.horizontal.scale(s)).add(self.vertical.scale(t)).sub(
                self.origin,
            ).sub(offset),
        )
    }

    /// The ray for the place `(s, t)` of the picture through a random point
    /// of the lens.
    pub fn get_ray(&self, s: Scalar, t: Scalar) -> (r: Ray)
        ensures
            exists|disk: Vec3| disk.in_unit_ball() && r == self.get_ray_spec(s, t, disk),
    {
        let disk = Vec3::random_in_unit_disk();
        self.get_ray_with(s, t, &disk)
    }
}

} // verus!
