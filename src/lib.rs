//! Ray intersection with hyperspheres and hyperplanes in four dimensions.
//!
//! Every scalar is a 16.16 fixed-point number held in an `i64` (the integer
//! `n` stands for `n / ONE`). Intermediate products are exact, in `i128`,
//! and each result is rounded once, so every operation is stated exactly
//! over mathematical integers.
pub mod fixed;
pub mod hittable;
pub mod point4;
pub mod ray;
pub mod vec4;
