//! Decompression.

use crate::impls::decomp::decompress::prs_decompress;
use crate::impls::decomp::estimate::prs_calculate_decompressed_size_impl;
use crate::stream::{parse, prs_decoded, prs_decoded_size, prs_valid};
use crate::util::same_behind;
use vstd::prelude::*;

pub use crate::impls::decomp::validate::prs_validate;

verus! {

/// Returns the number of bytes that the stream in `src` decompresses to,
/// without decompressing it.
///
/// The stream has to have a terminator. Bytes behind the terminator are
/// not read.
pub fn prs_calculate_decompressed_size(src: &[u8]) -> (size: usize)
    requires
        parse(src@) is Some,
        prs_decoded_size(src@) <= usize::MAX,
    ensures
        size == prs_decoded_size(src@),
        size == prs_decoded(src@).len(),
{
    prs_calculate_decompressed_size_impl(src)
}

/// Decompresses the stream in `src` into the front of `dest` and returns
/// the number of bytes written.
///
/// The stream has to be valid, and the destination has to hold what it
/// decompresses to: `prs_calculate_decompressed_size` tells how much that
/// is. The bytes of `dest` behind what is written are left as they were.
pub fn prs_decompress_unsafe(src: &[u8], dest: &mut [u8]) -> (written: usize)
    requires
        prs_valid(src@),
        prs_decoded(src@).len() <= old(dest).len(),
    ensures
        written == prs_decoded(src@).len(),
        final(dest)@.subrange(0, written as int) == prs_decoded(src@),
        same_behind(old(dest)@, final(dest)@, written),
{
    prs_decompress(src, dest)
}

} // verus!
