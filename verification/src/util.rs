//! Size bounds for compressed data.

use vstd::prelude::*;

verus! {

/// The advertised upper bound on the size of a compressed stream, as a
/// function of the number of bytes that were compressed.
pub open spec fn max_compressed_size(source_len: int) -> int {
    source_len * 9 / 8 + 3
}

/// Computes the advertised maximum size of the compressed form of
/// `source_len` bytes: nine eighths of the input, rounded down, plus three
/// bytes.
///
/// The result has to fit in `usize`; every length up to 2^31 - 1 does.
pub fn prs_calculate_max_compressed_size(source_len: usize) -> (size: usize)
    requires
        max_compressed_size(source_len as int) <= usize::MAX,
    ensures
        size == max_compressed_size(source_len as int),
{
    source_len + source_len / 8 + 3
}

/// The bound never shrinks when the input grows.
pub proof fn lemma_max_compressed_size_monotonic(shorter: int, longer: int)
    requires
        0 <= shorter <= longer,
    ensures
        max_compressed_size(shorter) <= max_compressed_size(longer),
{
}

/// Every input of at most 2^31 - 1 bytes has a bound that fits in `usize`.
pub proof fn lemma_max_compressed_size_fits(source_len: int)
    requires
        0 <= source_len <= 0x7FFF_FFFF,
    ensures
        max_compressed_size(source_len) <= usize::MAX,
        max_compressed_size(source_len) == source_len + source_len / 8 + 3,
{
}

/// `after` differs from `before` only in front of `head`.
pub open spec fn same_behind(before: Seq<u8>, after: Seq<u8>, head: usize) -> bool {
    &&& after.len() == before.len()
    &&& forall|i: int| head <= i < before.len() ==> after[i] == before[i]
}

} // verus!
