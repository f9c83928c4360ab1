//! Bit-level queries on the primitive integer types: whether a value is a
//! single flag, whether a bit or a mask is set, and reading a run of bits as a
//! number.

pub mod laws;
pub mod model;
pub mod ops;
pub mod word;

pub use ops::BitOps;
