//! A small path tracer.
//!
//! For each place of a picture a camera sends a ray into a scene of spheres.
//! Where the ray hits a surface, the surface scatters it, and the light is
//! followed along the scattered ray; where it hits nothing, it sees the sky.
//!
//! All arithmetic is IEEE 754 double precision, carried out on bit patterns
//! by the module [`number`], so that every step can be reasoned about: the
//! contracts of the tracer are stated in the operations of that module.

pub mod camera;
pub mod geometry;
pub mod hittable;
pub mod laws;
pub mod material;
pub mod number;
pub mod ray;
pub mod render;
pub mod sample;
pub mod sphere;
pub mod vec3;
pub mod world;
