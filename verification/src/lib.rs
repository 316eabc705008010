//! Compressor and decompressor for the PRS byte-level LZ77 format.
//!
//! A compressed stream is a sequence of tokens and a terminator. A token
//! carries one literal byte, or it copies bytes that were produced earlier.
//! Control bits tell the tokens apart; they are packed into control bytes
//! that stand between the payload bytes of the tokens.
//!
//! Every executable function has a contract over this model, and the
//! contracts are proved:
//!
//! - [`token`] defines the tokens and what they decode to.
//! - [`stream`] defines how tokens are laid out in a stream, once as a
//!   writer and once as a reader.
//! - [`codec`] shows that the reader undoes the writer.
//! - [`impls`] holds the position index, the match finder, the encoder, the
//!   decoder, the size estimator and the validator.
//! - [`comp`], [`decomp`] and [`util`] are the entry points.
//! - [`laws`] states what holds of compression and decompression together:
//!   decompressing what was compressed gives the source back, and what was
//!   compressed is no longer than the advertised bound allows.

pub mod codec;
pub mod comp;
pub mod decomp;
pub mod impls;
pub mod laws;
pub mod stream;
pub mod token;
pub mod util;
