//! IEEE 754 numbers held as bit patterns, with the operations that decoding needs.

pub mod binary32;
pub mod binary64;
pub mod laws;
pub mod rounding;

pub use binary32::F32;
pub use binary64::F64;
