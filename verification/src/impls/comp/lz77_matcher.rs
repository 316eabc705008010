//! The match finder: the longest earlier occurrence of the bytes at a
//! position.

use crate::impls::comp::comp_dict::{ascending, key_at, occurs, read_key, samples, CompDict};
use vstd::bytes::{
    lemma_auto_spec_u64_to_from_le_bytes, spec_u64_from_le_bytes, spec_u64_to_le_bytes,
    u64_from_le_bytes,
};
use vstd::prelude::*;
use vstd::slice::slice_subrange;

verus! {

/// Limits of a match search.
pub trait Lz77Parameters {
    /// How far back from the current position a match may start, as a
    /// positive number of bytes.
    const MAX_OFFSET: usize;

    /// Length at which a match is cut off.
    const MAX_LENGTH: usize;
}

/// A match: `length` bytes that also stand `-offset` bytes earlier.
pub struct Lz77Match {
    /// Where the earlier occurrence starts, relative to the position that
    /// was searched for; negative, or zero when nothing was found.
    pub offset: isize,
    /// Number of matching bytes; zero when nothing was found.
    pub length: usize,
}

/// What a search finds, as mathematical integers.
pub struct Found {
    pub length: int,
    pub offset: int,
}

/// The two bytes at `p` are the two bytes at `i`.
pub open spec fn is_candidate(src: Seq<u8>, p: int, i: int) -> bool {
    src[p] == src[i] && src[p + 1] == src[i + 1]
}

/// The byte `j` places behind `p` is the byte `j` places behind `i`.
pub open spec fn agrees_at(src: Seq<u8>, p: int, i: int, j: int) -> bool {
    src[p + j] == src[i + j]
}

/// How far the bytes from `p` agree with the bytes from `i`, given that
/// the first `k` agree, and counting no further than `cap`.
pub open spec fn agreed_length(src: Seq<u8>, p: int, i: int, k: int, cap: int) -> int
    decreases cap - k,
{
    if k < cap && src[p + k] == src[i + k] {
        agreed_length(src, p, i, k + 1, cap)
    } else {
        k
    }
}

/// The first place that a search from `i` looks at.
pub open spec fn search_start(i: int, max_offset: int) -> int {
    if i >= max_offset {
        i - max_offset
    } else {
        0
    }
}

/// The last place that a search from `i` looks at.
pub open spec fn search_last(i: int) -> int {
    if i >= 1 {
        i - 1
    } else {
        0
    }
}

/// The best match for the bytes at `i` among the places from `from` up to
/// `last`: the longest, and of several longest the one nearest to `last`.
pub open spec fn best_match_from(src: Seq<u8>, i: int, from: int, last: int, cap: int) -> Found
    decreases last + 1 - from,
{
    if from > last {
        Found { length: 0, offset: 0 }
    } else {
        let nearer = best_match_from(src, i, from + 1, last, cap);
        let length = agreed_length(src, from, i, 2, cap);
        if is_candidate(src, from, i) && length > nearer.length {
            Found { length, offset: from - i }
        } else {
            nearer
        }
    }
}

/// The best match for the bytes at `i` of a source of `n` bytes: among the
/// places at most `max_offset` before `i` where the two bytes at `i` also
/// stand, the one from which the most bytes agree, counting no further than
/// `max_length` or the end of the source; of several such, the nearest.
/// Length and offset are zero when there is no such place.
pub open spec fn best_match(src: Seq<u8>, n: int, i: int, max_offset: int, max_length: int) -> Found {
    best_match_from(
        src,
        i,
        search_start(i, max_offset),
        search_last(i),
        if max_length <= n - i {
            max_length
        } else {
            n - i
        },
    )
}

/// `window` holds the bytes of `source` from the place `base` on.
pub open spec fn window_of(window: Seq<u8>, base: int, source: Seq<u8>) -> bool {
    &&& 0 <= base
    &&& base + window.len() <= source.len()
    &&& forall|j: int| 0 <= j < window.len() ==> #[trigger] window[j] == source[base + j]
}

/// The index was built from the part of `source` that a search between
/// `min_ofs` and `max_ofs` looks at, and admits that search.
pub open spec fn indexes(dict: &CompDict, source: Seq<u8>, min_ofs: int, max_ofs: int) -> bool {
    &&& dict.well_formed()
    &&& window_of(dict.window(), dict.base(), source)
    &&& dict.base() <= min_ofs
    &&& max_ofs < dict.base() + samples(dict.window())
    &&& dict.ready(min_ofs, max_ofs)
}

/// The agreed length is at least what was given and at most the cap, and
/// the bytes agree all the way up to it.
pub proof fn lemma_agreed_length_bounds(src: Seq<u8>, p: int, i: int, k: int, cap: int)
    ensures
        k <= agreed_length(src, p, i, k, cap),
        agreed_length(src, p, i, k, cap) <= if k <= cap { cap } else { k },
        forall|j: int|
            k <= j < agreed_length(src, p, i, k, cap) ==> #[trigger] agrees_at(src, p, i, j),
    decreases cap - k,
{
    if k < cap && src[p + k] == src[i + k] {
        lemma_agreed_length_bounds(src, p, i, k + 1, cap);
    }
}

/// Places that are no candidates do not change the best match.
pub proof fn lemma_best_match_skip(src: Seq<u8>, i: int, from: int, to: int, last: int, cap: int)
    requires
        from <= to,
        forall|q: int| from <= q < to && q <= last ==> !is_candidate(src, q, i),
    ensures
        best_match_from(src, i, from, last, cap) == best_match_from(src, i, to, last, cap),
    decreases to - from,
{
    if from < to {
        lemma_best_match_skip(src, i, from + 1, to, last, cap);
    }
}

/// A match that has reached the cap is not beaten by places further back.
pub proof fn lemma_best_match_capped(src: Seq<u8>, i: int, from: int, to: int, last: int, cap: int)
    requires
        from <= to,
        2 <= cap,
        best_match_from(src, i, to, last, cap).length == cap,
    ensures
        best_match_from(src, i, from, last, cap) == best_match_from(src, i, to, last, cap),
    decreases to - from,
{
    if from < to {
        lemma_best_match_capped(src, i, from + 1, to, last, cap);
        lemma_agreed_length_bounds(src, from, i, 2, cap);
    }
}

/// What the best match is: nothing when no place is a candidate, else a
/// candidate in range with its own match length.
pub proof fn lemma_best_match_sound(src: Seq<u8>, i: int, from: int, last: int, cap: int)
    ensures
        ({
            let best = best_match_from(src, i, from, last, cap);
            best.length == 0 && best.offset == 0 || {
                &&& 2 <= best.length
                &&& best.length <= if 2 <= cap { cap } else { 2 }
                &&& from <= i + best.offset <= last
                &&& is_candidate(src, i + best.offset, i)
                &&& best.length == agreed_length(src, i + best.offset, i, 2, cap)
            }
        }),
    decreases last + 1 - from,
{
    if from <= last {
        lemma_best_match_sound(src, i, from + 1, last, cap);
        lemma_agreed_length_bounds(src, from, i, 2, cap);
    }
}

/// No candidate agrees for longer than the best match, and none that is
/// nearer agrees for as long.
pub proof fn lemma_best_match_optimal(
    src: Seq<u8>,
    i: int,
    from: int,
    last: int,
    cap: int,
    q: int,
)
    requires
        from <= q <= last,
        is_candidate(src, q, i),
    ensures
        agreed_length(src, q, i, 2, cap) <= best_match_from(src, i, from, last, cap).length,
        q > i + best_match_from(src, i, from, last, cap).offset ==> agreed_length(
            src,
            q,
            i,
            2,
            cap,
        ) < best_match_from(src, i, from, last, cap).length,
    decreases last + 1 - from,
{
    lemma_agreed_length_bounds(src, q, i, 2, cap);
    if from < q {
        lemma_best_match_optimal(src, i, from + 1, last, cap, q);
        lemma_best_match_sound(src, i, from + 1, last, cap);
    } else {
        lemma_best_match_sound(src, i, from + 1, last, cap);
    }
}

/// Where the bytes agree from `k` up to `m`, counting from `k` and
/// counting from `m` come to the same.
proof fn lemma_agreed_length_skip(src: Seq<u8>, p: int, i: int, k: int, m: int, cap: int)
    requires
        k <= m <= cap,
        forall|j: int| k <= j < m ==> #[trigger] agrees_at(src, p, i, j),
    ensures
        agreed_length(src, p, i, k, cap) == agreed_length(src, p, i, m, cap),
    decreases m - k,
{
    if k < m {
        assert(agrees_at(src, p, i, k));
        lemma_agreed_length_skip(src, p, i, k + 1, m, cap);
    }
}

/// Two words of eight bytes that are equal as numbers are equal byte by
/// byte.
proof fn lemma_words_agree(src: Seq<u8>, p: int, i: int, k: int)
    requires
        0 <= p + k,
        0 <= i + k,
        p + k + 8 <= src.len(),
        i + k + 8 <= src.len(),
        spec_u64_from_le_bytes(src.subrange(p + k, p + k + 8)) == spec_u64_from_le_bytes(
            src.subrange(i + k, i + k + 8),
        ),
    ensures
        forall|j: int| k <= j < k + 8 ==> #[trigger] agrees_at(src, p, i, j),
{
    let earlier = src.subrange(p + k, p + k + 8);
    let later = src.subrange(i + k, i + k + 8);
    lemma_auto_spec_u64_to_from_le_bytes();
    assert(spec_u64_to_le_bytes(spec_u64_from_le_bytes(earlier)) == earlier);
    assert(spec_u64_to_le_bytes(spec_u64_from_le_bytes(later)) == later);
    assert forall|j: int| k <= j < k + 8 implies #[trigger] agrees_at(src, p, i, j) by {
        assert(earlier[j - k] == src[p + j]);
        assert(later[j - k] == src[i + j]);
    }
}

/// Between two neighbours of what a query returned, and in front of and
/// behind all of it, no place is a candidate.
proof fn lemma_gap(
    src: Seq<u8>,
    window: Seq<u8>,
    base: int,
    i: int,
    min_ofs: int,
    max_ofs: int,
    items: Seq<u32>,
    k: int,
)
    requires
        window_of(window, base, src),
        base <= min_ofs,
        max_ofs < base + samples(window),
        max_ofs <= u32::MAX,
        0 <= i && i + 1 < src.len(),
        ascending(items),
        forall|t: int| 0 <= t < items.len() ==> min_ofs <= #[trigger] items[t] <= max_ofs,
        forall|p: int|
            min_ofs <= p <= max_ofs && #[trigger] occurs(window, base, key_at(src, i), p)
                ==> items.contains(p as u32),
        0 <= k <= items.len(),
    ensures
        forall|q: int|
            (if k == 0 {
                min_ofs
            } else {
                items[k - 1] + 1
            }) <= q < (if k == items.len() {
                max_ofs + 1
            } else {
                items[k] as int
            }) && q <= max_ofs ==> !is_candidate(src, q, i),
{
    assert forall|q: int|
        (if k == 0 {
            min_ofs
        } else {
            items[k - 1] + 1
        }) <= q < (if k == items.len() {
            max_ofs + 1
        } else {
            items[k] as int
        }) && q <= max_ofs implies !is_candidate(src, q, i) by {
        if is_candidate(src, q, i) {
            assert(window[q - base] == src[q]);
            assert(window[q - base + 1] == src[q + 1]);
            assert(occurs(window, base, key_at(src, i), q));
            let t = choose|t: int| 0 <= t < items.len() && items[t] == q as u32;
            if t >= k {
                if t > k {
                    assert(items[k] < items[t]);
                }
            } else {
                if t < k - 1 {
                    assert(items[t] < items[k - 1]);
                }
            }
        }
    }
}

/// What a query returned are candidates.
proof fn lemma_item_is_candidate(src: Seq<u8>, window: Seq<u8>, base: int, i: int, p: int)
    requires
        window_of(window, base, src),
        0 <= i && i + 1 < src.len(),
        occurs(window, base, key_at(src, i), p),
    ensures
        is_candidate(src, p, i),
{
    assert(window[p - base] == src[p]);
    assert(window[p - base + 1] == src[p + 1]);
}

/// Finds the best match for the bytes at `source_index`.
///
/// This is the variant for the bulk of the source, where a match of full
/// length cannot reach the end: it does not look for the end of the source
/// while it compares, and it compares a word of eight bytes at a time
/// until two words differ.
pub fn lz77_get_longest_match_fast<P: Lz77Parameters>(
    dict: &mut CompDict,
    source: &[u8],
    source_index: usize,
) -> (found: Lz77Match)
    requires
        source.len() <= 0x7FFF_FFFF,
        source_index + 1 < source.len(),
        source_index + P::MAX_LENGTH <= source.len(),
        indexes(
            old(dict),
            source@,
            search_start(source_index as int, P::MAX_OFFSET as int),
            search_last(source_index as int),
        ),
    ensures
        indexes(
            final(dict),
            source@,
            search_start(source_index as int, P::MAX_OFFSET as int),
            search_last(source_index as int),
        ),
        forall|later_min: int, later_max: int|
            search_start(source_index as int, P::MAX_OFFSET as int) <= later_min && search_last(
                source_index as int,
            ) <= later_max ==> #[trigger] final(dict).ready(later_min, later_max),
        final(dict).window() == old(dict).window(),
        final(dict).base() == old(dict).base(),
        final(dict).capacity() == old(dict).capacity(),
        found.length == best_match(
            source@,
            source@.len() as int,
            source_index as int,
            P::MAX_OFFSET as int,
            P::MAX_LENGTH as int,
        ).length,
        found.offset == best_match(
            source@,
            source@.len() as int,
            source_index as int,
            P::MAX_OFFSET as int,
            P::MAX_LENGTH as int,
        ).offset,
{
    let mut best_match = Lz77Match { offset: 0, length: 0 };
    let min_offset = source_index.saturating_sub(P::MAX_OFFSET);
    let key = read_key(source, source_index);
    let max_offset = source_index.saturating_sub(1);
    let ghost window = dict.window();
    let ghost base = dict.base();
    let ghost src = source@;
    let ghost i = source_index as int;
    let ghost cap = P::MAX_LENGTH as int;
    let ghost first = min_offset as int;
    let ghost last = max_offset as int;

    let offsets = dict.get_item(key, min_offset, max_offset);
    let mut k = offsets.len();
    proof {
        if offsets@.len() == 0 {
            lemma_gap(src, window, base, i, first, last, offsets@, 0);
            lemma_best_match_skip(src, i, first, last + 1, last, cap);
        }
    }
    while k > 0
        invariant_except_break
            k == 0 ==> best_match.length == best_match_from(src, i, first, last, cap).length
                && best_match.offset == best_match_from(src, i, first, last, cap).offset,
            best_match.length == best_match_from(
                src,
                i,
                if k == offsets@.len() {
                    last + 1
                } else {
                    offsets@[k as int] as int
                },
                last,
                cap,
            ).length,
            best_match.offset == best_match_from(
                src,
                i,
                if k == offsets@.len() {
                    last + 1
                } else {
                    offsets@[k as int] as int
                },
                last,
                cap,
            ).offset,
        invariant
            k <= offsets@.len(),
            src == source@,
            i == source_index,
            cap == P::MAX_LENGTH,
            first == min_offset,
            last == max_offset,
            last <= i,
            first <= last + 1,
            i + 1 < source.len(),
            source.len() <= 0x7FFF_FFFF,
            source_index + P::MAX_LENGTH <= source.len(),
            window_of(window, base, src),
            base <= first,
            last < base + samples(window),
            ascending(offsets@),
            forall|t: int|
                0 <= t < offsets@.len() ==> first <= #[trigger] offsets@[t] <= last && occurs(
                    window,
                    base,
                    key as int,
                    offsets@[t] as int,
                ),
            forall|p: int|
                first <= p <= last && #[trigger] occurs(window, base, key as int, p)
                    ==> offsets@.contains(p as u32),
            key == key_at(src, i),
        ensures
            best_match.length == best_match_from(src, i, first, last, cap).length,
            best_match.offset == best_match_from(src, i, first, last, cap).offset,
        decreases k,
    {
        proof {
            lemma_gap(src, window, base, i, first, last, offsets@, k as int);
        }
        let ghost behind = if k == offsets@.len() {
            last + 1
        } else {
            offsets@[k as int] as int
        };
        k = k - 1;
        let match_offset = offsets[k] as usize;
        let ghost p = match_offset as int;
        proof {
            lemma_item_is_candidate(src, window, base, i, p);
            lemma_best_match_skip(src, i, p + 1, behind, last, cap);
        }

        let mut match_length: usize = 2;

        // A word at a time while whole words agree.
        while match_length + 8 <= P::MAX_LENGTH && u64_from_le_bytes(
            slice_subrange(
                source,
                match_offset + match_length,
                match_offset + match_length + 8,
            ),
        ) == u64_from_le_bytes(
            slice_subrange(source, source_index + match_length, source_index + match_length + 8),
        )
            invariant
                2 <= match_length,
                match_length <= if 2 <= P::MAX_LENGTH { P::MAX_LENGTH } else { 2 },
                source_index + P::MAX_LENGTH <= source.len(),
                source.len() <= 0x7FFF_FFFF,
                match_offset <= source_index,
                src == source@,
                i == source_index,
                p == match_offset,
                cap == P::MAX_LENGTH,
                agreed_length(src, p, i, 2, cap) == agreed_length(
                    src,
                    p,
                    i,
                    match_length as int,
                    cap,
                ),
            decreases P::MAX_LENGTH - match_length,
        {
            proof {
                lemma_words_agree(src, p, i, match_length as int);
                lemma_agreed_length_skip(src, p, i, match_length as int, match_length + 8, cap);
            }
            match_length = match_length + 8;
        }

        // Then byte by byte.
        while match_length < P::MAX_LENGTH && source[match_offset + match_length]
            == source[source_index + match_length]
            invariant
                2 <= match_length,
                match_length <= if 2 <= P::MAX_LENGTH { P::MAX_LENGTH } else { 2 },
                source_index + P::MAX_LENGTH <= source.len(),
                match_offset <= source_index,
                src == source@,
                i == source_index,
                p == match_offset,
                cap == P::MAX_LENGTH,
                agreed_length(src, p, i, 2, cap) == agreed_length(
                    src,
                    p,
                    i,
                    match_length as int,
                    cap,
                ),
            decreases P::MAX_LENGTH - match_length,
        {
            match_length = match_length + 1;
        }

        if match_length > best_match.length {
            best_match.length = match_length;
            best_match.offset = match_offset as isize - source_index as isize;

            if match_length == P::MAX_LENGTH {
                proof {
                    lemma_best_match_capped(src, i, first, p, last, cap);
                }
                break ;
            }
        }
        proof {
            if k == 0 {
                lemma_gap(src, window, base, i, first, last, offsets@, 0);
                lemma_best_match_skip(src, i, first, p, last, cap);
            }
        }
    }
    proof {
        assert forall|other: int| 0 <= other < 0x1_0000 implies #[trigger] dict.admits(
            other,
            first,
            last,
        ) by {
            if other != key {
                assert(dict.passed_min(other) == old(dict).passed_min(other));
                assert(old(dict).admits(other, first, last));
            }
        }
        assert forall|later_min: int, later_max: int|
            first <= later_min && last <= later_max implies #[trigger] dict.ready(
            later_min,
            later_max,
        ) by {
            dict.lemma_ready_later(first, last, later_min, later_max);
        }
    }
    best_match
}

/// Finds the best match for the bytes at `source_index`, looking no
/// further than `source_len`.
///
/// This is the variant for the end of the source: it checks at every byte
/// that the match stays in front of `source_len`.
pub fn lz77_get_longest_match_slow<P: Lz77Parameters>(
    dict: &mut CompDict,
    source: &[u8],
    source_len: usize,
    source_index: usize,
) -> (found: Lz77Match)
    requires
        source_len <= source.len(),
        source_len <= 0x7FFF_FFFF,
        source_index + 1 < source_len,
        indexes(
            old(dict),
            source@,
            search_start(source_index as int, P::MAX_OFFSET as int),
            search_last(source_index as int),
        ),
    ensures
        indexes(
            final(dict),
            source@,
            search_start(source_index as int, P::MAX_OFFSET as int),
            search_last(source_index as int),
        ),
        forall|later_min: int, later_max: int|
            search_start(source_index as int, P::MAX_OFFSET as int) <= later_min && search_last(
                source_index as int,
            ) <= later_max ==> #[trigger] final(dict).ready(later_min, later_max),
        final(dict).window() == old(dict).window(),
        final(dict).base() == old(dict).base(),
        final(dict).capacity() == old(dict).capacity(),
        found.length == best_match(
            source@,
            source_len as int,
            source_index as int,
            P::MAX_OFFSET as int,
            P::MAX_LENGTH as int,
        ).length,
        found.offset == best_match(
            source@,
            source_len as int,
            source_index as int,
            P::MAX_OFFSET as int,
            P::MAX_LENGTH as int,
        ).offset,
{
    let mut best_match = Lz77Match { offset: 0, length: 0 };
    let min_offset = source_index.saturating_sub(P::MAX_OFFSET);
    let key = read_key(source, source_index);
    let remaining = source_len - source_index;
    let max_match_length = if P::MAX_LENGTH <= remaining {
        P::MAX_LENGTH
    } else {
        remaining
    };
    let max_offset = source_index.saturating_sub(1);
    let ghost window = dict.window();
    let ghost base = dict.base();
    let ghost src = source@;
    let ghost i = source_index as int;
    let ghost cap = max_match_length as int;
    let ghost first = min_offset as int;
    let ghost last = max_offset as int;

    let offsets = dict.get_item(key, min_offset, max_offset);
    let mut k = offsets.len();
    proof {
        if offsets@.len() == 0 {
            lemma_gap(src, window, base, i, first, last, offsets@, 0);
            lemma_best_match_skip(src, i, first, last + 1, last, cap);
        }
    }
    while k > 0
        invariant_except_break
            k == 0 ==> best_match.length == best_match_from(src, i, first, last, cap).length
                && best_match.offset == best_match_from(src, i, first, last, cap).offset,
            best_match.length == best_match_from(
                src,
                i,
                if k == offsets@.len() {
                    last + 1
                } else {
                    offsets@[k as int] as int
                },
                last,
                cap,
            ).length,
            best_match.offset == best_match_from(
                src,
                i,
                if k == offsets@.len() {
                    last + 1
                } else {
                    offsets@[k as int] as int
                },
                last,
                cap,
            ).offset,
        invariant
            k <= offsets@.len(),
            src == source@,
            i == source_index,
            cap == max_match_length,
            first == min_offset,
            last == max_offset,
            last <= i,
            first <= last + 1,
            i + 1 < source_len <= source.len(),
            source_len <= 0x7FFF_FFFF,
            max_match_length <= source_len - source_index,
            window_of(window, base, src),
            base <= first,
            last < base + samples(window),
            ascending(offsets@),
            forall|t: int|
                0 <= t < offsets@.len() ==> first <= #[trigger] offsets@[t] <= last && occurs(
                    window,
                    base,
                    key as int,
                    offsets@[t] as int,
                ),
            forall|p: int|
                first <= p <= last && #[trigger] occurs(window, base, key as int, p)
                    ==> offsets@.contains(p as u32),
            key == key_at(src, i),
        ensures
            best_match.length == best_match_from(src, i, first, last, cap).length,
            best_match.offset == best_match_from(src, i, first, last, cap).offset,
        decreases k,
    {
        proof {
            lemma_gap(src, window, base, i, first, last, offsets@, k as int);
        }
        let ghost behind = if k == offsets@.len() {
            last + 1
        } else {
            offsets@[k as int] as int
        };
        k = k - 1;
        let match_offset = offsets[k] as usize;
        let ghost p = match_offset as int;
        proof {
            lemma_item_is_candidate(src, window, base, i, p);
            lemma_best_match_skip(src, i, p + 1, behind, last, cap);
        }

        let mut match_length: usize = 2;
        while match_length < max_match_length && source[match_offset + match_length]
            == source[source_index + match_length]
            invariant
                2 <= match_length,
                match_length <= if 2 <= max_match_length { max_match_length } else { 2 },
                max_match_length <= source_len - source_index,
                source_len <= source.len(),
                match_offset <= source_index,
                src == source@,
                i == source_index,
                p == match_offset,
                cap == max_match_length,
                agreed_length(src, p, i, 2, cap) == agreed_length(
                    src,
                    p,
                    i,
                    match_length as int,
                    cap,
                ),
            decreases max_match_length - match_length,
        {
            match_length = match_length + 1;
        }

        if match_length > best_match.length {
            best_match.length = match_length;
            best_match.offset = match_offset as isize - source_index as isize;

            if match_length == max_match_length {
                proof {
                    lemma_best_match_capped(src, i, first, p, last, cap);
                }
                break ;
            }
        }
        proof {
            if k == 0 {
                lemma_gap(src, window, base, i, first, last, offsets@, 0);
                lemma_best_match_skip(src, i, first, p, last, cap);
            }
        }
    }
    proof {
        assert forall|other: int| 0 <= other < 0x1_0000 implies #[trigger] dict.admits(
            other,
            first,
            last,
        ) by {
            if other != key {
                assert(dict.passed_min(other) == old(dict).passed_min(other));
                assert(old(dict).admits(other, first, last));
            }
        }
        assert forall|later_min: int, later_max: int|
            first <= later_min && last <= later_max implies #[trigger] dict.ready(
            later_min,
            later_max,
        ) by {
            dict.lemma_ready_later(first, last, later_min, later_max);
        }
    }
    best_match
}

} // verus!
