//! Operators as one source framework defines them.

pub mod concatv2;
pub mod reshape;
pub mod strided_slice;
