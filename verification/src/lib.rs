//! A software ray caster over a scene of spheres, built on fixed-point
//! arithmetic.
//!
//! Every pixel of the output image is shaded independently: a ray is built
//! from the pinhole camera model, intersected against every sphere of the
//! scene, and the nearest valid hit is shaded with a diffuse term and a
//! specular highlight. Scalars are fixed-point numbers: an `i64` holding
//! `value * SCALE`, with every operation rounding toward negative infinity.

pub mod fixed;
pub mod render;
pub mod scene;
pub mod vec3;
