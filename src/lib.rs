//! A Monte Carlo path tracer over exact decimal fixed-point arithmetic.
//!
//! Every scalar is an `i64` counting billionths (see [`fixed`]); every
//! operation rounds toward negative infinity and saturates to
//! `[-i64::MAX, i64::MAX]`, so all numeric paths are total and exactly
//! specified. Lengths and unit vectors are computed exactly and rounded
//! once.

pub mod fixed;
pub mod vec3;
pub mod random;
pub mod ray;
pub mod hittable;
pub mod material;
pub mod scene;
pub mod camera;
pub mod ppm;
pub mod renderer;

pub use camera::Camera;
pub use hittable::{HitRecord, Shape, Sphere};
pub use material::{Dielectric, Lambertian, Material, Metal};
pub use ray::Ray;
pub use renderer::Renderer;
pub use scene::{Object, Scene};
pub use vec3::{Color, Point3, Vec3};
