//! Verified core of a small Monte Carlo path tracer.
//!
//! The numerical heart of the renderer (camera projection, sphere
//! intersection, shading) runs on floating point and lives outside this
//! library. What is verified here is everything the renderer relies on that
//! has an exact mathematical meaning: fixed-size matrix and vector
//! arithmetic over an integer value model, the deterministic sampler state
//! machine, the integrator's bounce-control decisions, pixel indexing, and
//! the binary raster encoding of the finished image.

pub mod matrix;
pub mod ppm;
pub mod render;
pub mod rng;
