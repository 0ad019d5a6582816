pub mod decoder;
pub mod mtp;
