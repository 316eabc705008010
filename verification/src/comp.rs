//! Compression.

use crate::impls::comp::comp_dict::{occurs, CompDict, MaxOffset};
use crate::impls::comp::choice::prs_compressed;
use crate::impls::comp::compress::prs_compress;
use crate::stream::{prs_decoded, prs_decoded_size, prs_valid};
use crate::util::{max_compressed_size, same_behind};
use vstd::prelude::*;

verus! {

/// Builds the position index of `data` and returns the first place where
/// two zero bytes stand. This is for measuring how long it takes to build
/// an index; `data` has to hold two zero bytes in a row.
pub fn create_comp_dict(data: &[u8]) -> (first: MaxOffset)
    requires
        data.len() <= u32::MAX,
        exists|p: int| occurs(data@, 0, 0, p),
    ensures
        occurs(data@, 0, 0, first as int),
        forall|p: int| occurs(data@, 0, 0, p) ==> first <= p,
{
    let mut dict = CompDict::new(data.len());
    dict.init(data, 0);
    proof {
        dict.lemma_fresh_ready(0, u32::MAX as int);
    }
    let items = dict.get_item(0, 0, u32::MAX as usize);
    proof {
        let witness = choose|p: int| occurs(data@, 0, 0, p);
        assert(items@.contains(witness as u32));
        assert forall|p: int| occurs(data@, 0, 0, p) implies items@[0] <= p by {
            assert(items@.contains(p as u32));
            let t = choose|t: int| 0 <= t < items@.len() && items@[t] == p as u32;
            if t > 0 {
                assert(items@[0] < items@[t]);
            }
        }
    }
    items[0]
}

/// Compresses the first `src_len` bytes of `src` into the front of `dest`
/// and returns the number of bytes written.
///
/// The destination has to hold the compressed stream. One byte more than
/// `prs_calculate_max_compressed_size` gives is always enough;
/// `lemma_compressed_size` in the crate's laws says when that size itself
/// is. The bytes of `dest` behind what is written are left as they were.
/// What is written is a valid stream that decompresses to the source.
pub fn prs_compress_unsafe(src: &[u8], src_len: usize, dest: &mut [u8]) -> (written: usize)
    requires
        src_len <= src.len(),
        src_len <= 0x7FFF_FFFF,
        max_compressed_size(src_len as int) < old(dest).len() || prs_compressed(
            src@.subrange(0, src_len as int),
        ).len() <= old(dest).len(),
    ensures
        written == prs_compressed(src@.subrange(0, src_len as int)).len(),
        written <= max_compressed_size(src_len as int) + 1,
        final(dest)@.subrange(0, written as int) == prs_compressed(
            src@.subrange(0, src_len as int),
        ),
        same_behind(old(dest)@, final(dest)@, written),
        prs_valid(final(dest)@.subrange(0, written as int)),
        prs_decoded(final(dest)@.subrange(0, written as int)) == src@.subrange(0, src_len as int),
        prs_decoded_size(final(dest)@.subrange(0, written as int)) == src_len,
{
    prs_compress(src, dest, src_len)
}

} // verus!
