//! Single-precision arithmetic on integers.

pub mod arith;
pub mod convert;
pub mod error;
pub mod laws;
pub mod model;
pub mod round;
pub mod scale;

pub use model::F32;
