//! Bit-scanning primitives over 256-bit unsigned integers: locating the index
//! of the most significant and of the least significant set bit.

pub mod bit_math;
pub mod error;
pub mod u256;
