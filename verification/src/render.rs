//! The colour that arrives along a ray.

use vstd::prelude::*;
use crate::number::convert::one;
use crate::hittable::{HitRecord, Hittable};
use crate::material::Material;
use crate::ray::Ray;
use crate::number::scalar::{Scalar, INF_BITS};
use crate::vec3::{Color, Vec3};

verus! {

/// The least parameter at which a hit counts, 0.001: what lies nearer is the
/// surface that the ray has just left.
pub open spec fn t_min_spec() -> Scalar {
    Scalar::ratio_spec(1, 1000)
}

/// The colour of the sky in the direction of a ray: with `t` half of the
/// height of the direction of length 1, plus a half, it is
/// `(1 - t) * (1, 1, 1) + t * (0.5, 0.7, 1)`, white at the bottom and blue at
/// the top.
pub open spec fn background_spec(ray: Ray) -> Color {
    let t = Scalar { bits: crate::number::convert::HALF_BITS }.mul_spec(
        ray.dir.normalize_spec().y.add_spec(one()),
    );
    let white = Vec3 { x: one(), y: one(), z: one() };
    let blue = Vec3 {
        x: Scalar { bits: crate::number::convert::HALF_BITS },
        y: Scalar::ratio_spec(7, 10),
        z: one(),
    };
    white.scale_spec(one().sub_spec(t)).add_spec(blue.scale_spec(t))
}

/// Whether a surface may answer a ray with `out`: whether it does so for some
/// point of the unit ball and some random word.
#[verifier::opaque]
pub open spec fn may_scatter(ray: Ray, record: HitRecord, out: Option<(Ray, Color)>) -> bool {
    exists|ball: Vec3, w: u64|
        ball.in_unit_ball() && out == record.material.scatter_spec(
            ray,
            record,
            ball,
            Scalar::from_word_spec(w),
        )
}

/// The colour that leaves a surface which has answered with `out`, when
/// `light` arrives along the scattered ray: `light` dimmed by the surface,
/// and black where the surface has taken the light up.
pub open spec fn dimmed(out: Option<(Ray, Color)>, light: Color) -> Color {
    match out {
        Some(pair) => pair.1.mul_spec(light),
        None => Vec3::zero_spec(),
    }
}

/// Whether `c` is a colour that may arrive along `ray` in the scene `world`
/// when the light is followed over at most `depth` surfaces: black where
/// `depth` is used up, the colour of the sky where the ray hits nothing,
/// and else a colour that may arrive along the scattered ray over at most
/// `depth - 1` surfaces, dimmed by the surface that the ray hits.
pub open spec fn may_arrive<H: Hittable>(ray: Ray, world: H, depth: int, c: Color) -> bool
    decreases depth,
{
    if depth <= 0 {
        c == Vec3::zero_spec()
    } else {
        match world.hit_spec(ray, t_min_spec(), Scalar { bits: INF_BITS }) {
            None => c == background_spec(ray),
            Some(record) => exists|out: Option<(Ray, Color)>, light: Color|
                #![trigger dimmed(out, light)]
                may_scatter(ray, record, out) && c == dimmed(out, light) && (out matches Some(pair)
                    ==> may_arrive(pair.0, world, depth - 1, light)),
        }
    }
}

/// The colour of the sky in the direction of a ray.
pub fn background(ray: &Ray) -> (c: Color)
    ensures
        c == background_spec(*ray),
{
    let unit = ray.direction().normalize();
    let t = Scalar::half().mul(unit.y().add(Scalar::one()));
    let white = Vec3::with(Scalar::one(), Scalar::one(), Scalar::one());
    let blue = Vec3::with(Scalar::half(), Scalar::ratio(7, 10), Scalar::one());
    white.scale(Scalar::one().sub(t)).add(blue.scale(t))
}

/// What is needed for a colour to be one that may arrive.
proof fn lemma_arrival<H: Hittable>(
    ray: Ray,
    world: H,
    depth: int,
    out: Option<(Ray, Color)>,
    light: Color,
    c: Color,
)
    requires
        depth > 0,
        match world.hit_spec(ray, t_min_spec(), Scalar { bits: INF_BITS }) {
            None => c == background_spec(ray),
            Some(record) => may_scatter(ray, record, out) && c == dimmed(out, light) && (
            out matches Some(pair) ==> may_arrive(pair.0, world, depth - 1, light)),
        },
    ensures
        may_arrive(ray, world, depth, c),
{
}

/// The colour that arrives along `r` in the scene `entity`, the light being
/// followed over at most `depth` surfaces.
pub fn ray_color<H: Hittable>(r: &Ray, entity: &H, depth: i32) -> (c: Color)
    ensures
        may_arrive(*r, *entity, depth as int, c),
        depth <= 0 ==> c == Vec3::zero_spec(),
        depth > 0 && entity.hit_spec(*r, t_min_spec(), Scalar { bits: INF_BITS }) is None ==> c
            == background_spec(*r),
    decreases depth,
{
    if depth <= 0 {
        return Vec3::new();
    }
    let hit = entity.hit(r, Scalar::ratio(1, 1000), Scalar::infinity());
    if let Some(record) = hit {
        let out = record.material.scatter(r, &record);
        proof {
            reveal(may_scatter);
        }
        if let Some((scattered, attenuation)) = out {
            let light = ray_color(&scattered, entity, depth - 1);
            let c = attenuation.mul(light);
            proof {
                lemma_arrival(*r, *entity, depth as int, out, light, c);
            }
            c
        } else {
            let c = Vec3::new();
            proof {
                lemma_arrival(*r, *entity, depth as int, out, c, c);
            }
            c
        }
    } else {
        let c = background(r);
        proof {
            lemma_arrival(*r, *entity, depth as int, None, c, c);
        }
        c
    }
}

} // verus!
