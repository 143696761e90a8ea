//! Complex numbers with single-precision parts.
//!
//! The parts are held by their IEEE-754 bit patterns, so that construction,
//! comparison and the rounded arithmetic are computed on integers and proved
//! against what the patterns denote.

pub mod arith;
pub mod complex;
pub mod ops;
pub mod rounding;
pub mod single;

pub use crate::complex::Complex;
pub use crate::single::Single;
