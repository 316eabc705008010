//! Compression: the position index, the match finder and the encoder.

pub mod choice;
pub mod comp_dict;
pub mod compress;
pub mod lz77_matcher;
