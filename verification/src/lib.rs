//! A small path tracer verified with Verus.
//!
//! Every scalar is a fixed-point number: an `i64` counting millionths, so
//! `1.0` is the constant [`fixed::ONE`]. All arithmetic saturates at
//! [`fixed::FX_MAX`], which stands in for an infinite value. The rendering
//! pipeline — vector algebra, ray/sphere intersection, material scattering,
//! camera ray generation and the recursive color integrator — is verified
//! against exact contracts over this scalar model.

pub mod camera;
pub mod fixed;
pub mod hitable;
pub mod material;
pub mod ray;
pub mod rng;
pub mod trace;
pub mod vec;
