//! Decompression: the decoder and the size estimator.

pub mod common;
pub mod decompress;
pub mod estimate;
pub mod validate;
