//! The compressor and the decompressor.

pub mod comp;
pub mod decomp;
