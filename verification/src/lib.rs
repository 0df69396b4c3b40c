//! Arbitrary-precision binary floating point: correctly rounded
//! arithmetic, square root and decimal parsing, and elementary
//! transcendental and special functions rounded through a Ziv driver.

pub mod limbs;
pub mod types;
pub mod round;
pub mod float;
pub mod arith;
pub mod ordering;
pub mod sqrt;
pub mod parse;
pub mod fixed;
pub mod math;
pub mod laws;

pub use types::{BigFloat, BuildError, Class, RoundingMode, Sign, Status};
pub use fixed::FixedFloat;
