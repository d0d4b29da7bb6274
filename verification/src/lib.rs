//! A small ray tracer whose numeric core is exact fixed-point arithmetic.
//!
//! Real-valued quantities (coordinates, colors, ray parameters) are carried as
//! `i64` values scaled by `fixed::SCALE`; every operation rounds downward in a
//! fully specified way, so each function's contract pins its result exactly.

pub mod camera;
pub mod fixed;
pub mod hittable;
pub mod material;
pub mod ray;
pub mod render;
pub mod rng;
pub mod sphere;
pub mod vec3;

pub use fixed::SCALE;
