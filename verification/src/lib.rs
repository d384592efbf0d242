//! A path-tracing renderer core in exact fixed-point arithmetic.
//!
//! Geometry, colors and ray parameters are carried as `i64` values scaled
//! by `fixed::SCALE`; every stage of the pipeline is specified by a spec
//! function that pins down the computed value exactly.

pub mod aabb;
pub mod bvh;
pub mod camera;
pub mod fixed;
pub mod material;
pub mod pixel;
pub mod ray;
pub mod render;
pub mod rng;
pub mod scene;
pub mod sphere;
pub mod tracer;
pub mod vec3;
pub mod world;
