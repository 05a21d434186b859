//! A stochastic path tracer over exact fixed-point arithmetic.
//!
//! Every real quantity (coordinates, colors, ray parameters) is stored as a
//! 64-bit integer counting multiples of `1 / fixed::SCALE`.  All arithmetic is
//! exact integer arithmetic with truncation toward zero, so every routine in
//! this crate has a deterministic, fully specified result; the only
//! nondeterminism is the uniform random source used for sampling.

pub mod camera;
pub mod fixed;
pub mod hit;
pub mod interval;
pub mod material;
pub mod ray;
pub mod rng;
pub mod sphere;
pub mod vec3;
