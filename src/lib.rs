//! Discrete core of a Monte Carlo ray tracer: the 2D sample generators, the
//! bounding-volume hierarchy over a triangle soup, closest-hit selection, light
//! selection and the integrator's per-ray decision.
//!
//! Coordinates and ray distances enter the library as order-preserving integer
//! ordinals of the renderer's floating-point values, and sample points leave it as
//! exact fractions of the sampling square's side.
pub mod bvh;
pub mod hitable;
pub mod light;
mod random;
pub mod sampler;
pub mod shader;
