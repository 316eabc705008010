//! The encoder: writes tokens into a destination buffer.

use crate::codec::{
    lemma_put_bit_well_formed, lemma_put_end_well_formed, lemma_written_push,
    lemma_written_well_formed,
};
use crate::impls::comp::choice::{
    chosen_tokens, defers, encode_span, encode_windows, fast_end, lemma_match_at,
    lemma_span_grows, lemma_span_reaches, lemma_span_step, lemma_windows_grow, prs_compressed,
    match_at, select_token, token_at,
};
use crate::impls::comp::comp_dict::CompDict;
use crate::impls::comp::lz77_matcher::{
    lz77_get_longest_match_fast, lz77_get_longest_match_slow, search_last, search_start,
    window_of, Lz77Match, Lz77Parameters,
};
use crate::stream::{prs_decoded, prs_decoded_size, prs_valid, written, Writer};
use crate::token::{
    Token, COPY_MAX_LENGTH, MAX_OFFSET, SHORT_COPY_MAX_LEN, SHORT_COPY_MAX_OFFSET,
    SHORT_COPY_MIN_LEN,
};
use crate::laws::{lemma_compressed_size_fits, lemma_decoded_size, lemma_round_trip};
use crate::util::{max_compressed_size, same_behind};
use vstd::prelude::*;
use vstd::slice::slice_subrange;

verus! {

/// Number of source bytes that one build of the position index covers: the
/// bytes that matches may reach back to, and behind them the bytes that are
/// encoded before the index is built again. Kept small so that the index
/// stays in cache.
pub const WINDOW_SIZE: usize = 0xFFFF;

/// The limits of the encoder's match search.
pub struct CompressParameters;

impl Lz77Parameters for CompressParameters {
    const MAX_OFFSET: usize = MAX_OFFSET;

    const MAX_LENGTH: usize = COPY_MAX_LENGTH;
}

/// The limits of the encoder's search are those of the format: matches
/// start at most 8191 bytes back and are at most 256 bytes long.
pub proof fn lemma_compress_parameters()
    ensures
        CompressParameters::MAX_OFFSET == MAX_OFFSET,
        CompressParameters::MAX_OFFSET == 0x1FFF,
        CompressParameters::MAX_LENGTH == COPY_MAX_LENGTH,
        CompressParameters::MAX_LENGTH == 0x100,
{
}

/// The writer that a destination buffer stands for: the bytes in front of
/// `head` are written, `control` is the index of the current control byte
/// and `filled` the number of its bits that are taken.
spec fn writer_view(dest: Seq<u8>, head: usize, control: usize, filled: usize) -> Writer {
    Writer { bytes: dest.subrange(0, head as int), control: control as int, filled: filled as int }
}

/// The destination can take what turns its writer into `next`.
spec fn can_put(
    dest: Seq<u8>,
    head: usize,
    control: usize,
    filled: usize,
    next: Writer,
) -> bool {
    &&& head <= dest.len()
    &&& writer_view(dest, head, control, filled).well_formed()
    &&& next.bytes.len() <= dest.len()
}

/// The destination has become `next` and is unchanged behind its head.
spec fn has_put(
    before: Seq<u8>,
    old_head: usize,
    after: Seq<u8>,
    head: usize,
    control: usize,
    filled: usize,
    next: Writer,
) -> bool {
    &&& writer_view(after, head, control, filled) == next
    &&& next.well_formed()
    &&& old_head <= head <= after.len()
    &&& same_behind(before, after, head)
}

/// The destination holds in front of `head` what the writer has written
/// for `tokens`, and behind it what it held at first.
spec fn encoding(
    initial: Seq<u8>,
    dest: Seq<u8>,
    head: usize,
    control: usize,
    filled: usize,
    tokens: Seq<Token>,
) -> bool {
    &&& writer_view(dest, head, control, filled) == written(tokens)
    &&& head <= dest.len()
    &&& same_behind(initial, dest, head)
}

/// The index was built from a window of `src` that reaches back as far as a
/// search from `i` does, and it admits that search.
spec fn dict_at(dict: &CompDict, src: Seq<u8>, i: int) -> bool {
    &&& dict.well_formed()
    &&& dict.capacity() == WINDOW_SIZE
    &&& window_of(dict.window(), dict.base(), src)
    &&& dict.base() <= search_start(i, MAX_OFFSET as int)
    &&& dict.ready(search_start(i, MAX_OFFSET as int), search_last(i))
}

/// An index that serves the searches from one place serves those from every
/// later place.
proof fn lemma_dict_later(dict: &CompDict, src: Seq<u8>, i: int, later: int)
    requires
        dict_at(dict, src, i),
        0 <= i <= later,
    ensures
        dict_at(dict, src, later),
{
    dict.lemma_ready_later(
        search_start(i, MAX_OFFSET as int),
        search_last(i),
        search_start(later, MAX_OFFSET as int),
        search_last(later),
    );
}

/// One more token in the destination is one more token in the sequence.
proof fn lemma_emit(
    initial: Seq<u8>,
    before: Seq<u8>,
    old_head: usize,
    after: Seq<u8>,
    head: usize,
    control: usize,
    filled: usize,
    tokens: Seq<Token>,
    token: Token,
)
    requires
        same_behind(initial, before, old_head),
        has_put(before, old_head, after, head, control, filled, written(tokens).put_token(token)),
    ensures
        encoding(initial, after, head, control, filled, tokens.push(token)),
{
    lemma_written_push(tokens, token);
}

/// Zeroes the byte at the head and takes it as the new control byte. The
/// byte has to be zeroed because control bits are only ever or-ed in.
fn reserve_control_byte(dest: &mut [u8], head: &mut usize) -> (control: usize)
    requires
        *old(head) < old(dest).len(),
    ensures
        control == *old(head),
        *final(head) == *old(head) + 1,
        final(dest)@ == old(dest)@.update(control as int, 0u8),
{
    dest[*head] = 0;
    let result = *head;
    *head = *head + 1;
    result
}

/// Appends one control bit to the current control byte. When that byte is
/// full, a new one is reserved at the head first.
fn append_control_bit(
    bit: u8,
    dest: &mut [u8],
    head: &mut usize,
    control_bit_position: &mut usize,
    control_byte_ptr: &mut usize,
)
    requires
        bit <= 1,
        can_put(
            old(dest)@,
            *old(head),
            *old(control_byte_ptr),
            *old(control_bit_position),
            writer_view(
                old(dest)@,
                *old(head),
                *old(control_byte_ptr),
                *old(control_bit_position),
            ).put_bit(bit == 1),
        ),
    ensures
        has_put(
            old(dest)@,
            *old(head),
            final(dest)@,
            *final(head),
            *final(control_byte_ptr),
            *final(control_bit_position),
            writer_view(
                old(dest)@,
                *old(head),
                *old(control_byte_ptr),
                *old(control_bit_position),
            ).put_bit(bit == 1),
        ),
{
    let ghost before = writer_view(
        old(dest)@,
        *old(head),
        *old(control_byte_ptr),
        *old(control_bit_position),
    );
    let ghost was_full = *control_bit_position >= 8;
    if *control_bit_position >= 8 {
        *control_byte_ptr = reserve_control_byte(dest, head);
        *control_bit_position = 0;
    }
    let shift = *control_bit_position;
    let current = dest[*control_byte_ptr];
    proof {
        let k = shift as u8;
        assert(bit << shift == bit << k);
        assert(k < 8 && bit <= 1 ==> (current | (bit << k)) == (if bit == 1 {
            current | (1u8 << k)
        } else {
            current
        })) by (bit_vector);
    }
    dest[*control_byte_ptr] = current | (bit << shift);
    *control_bit_position = *control_bit_position + 1;
    proof {
        let after = writer_view(
            dest@,
            *head,
            *control_byte_ptr,
            *control_bit_position,
        );
        assert(after.bytes =~= before.put_bit(bit == 1).bytes);
        lemma_put_bit_well_formed(before, bit == 1);
    }
}

/// Appends one payload byte at the head.
fn append_byte(value: u8, dest: &mut [u8], head: &mut usize)
    requires
        *old(head) < old(dest).len(),
    ensures
        *final(head) == *old(head) + 1,
        final(dest)@ == old(dest)@.update(*old(head) as int, value),
        forall|control: usize, filled: usize|
            writer_view(old(dest)@, *old(head), control, filled).well_formed() ==> has_put(
                old(dest)@,
                *old(head),
                final(dest)@,
                *final(head),
                control,
                filled,
                #[trigger] writer_view(old(dest)@, *old(head), control, filled).put_byte(value),
            ),
{
    dest[*head] = value;
    *head = *head + 1;
    proof {
        assert forall|control: usize, filled: usize|
            writer_view(old(dest)@, *old(head), control, filled).well_formed() implies has_put(
            old(dest)@,
            *old(head),
            dest@,
            *head,
            control,
            filled,
            #[trigger] writer_view(old(dest)@, *old(head), control, filled).put_byte(value),
        ) by {
            let before = writer_view(old(dest)@, *old(head), control, filled);
            assert(writer_view(dest@, *head, control, filled).bytes =~= before.put_byte(
                value,
            ).bytes);
        }
    }
}

/// Appends a sixteen-bit word at the head, low byte first.
fn append_u16_le(value: u16, dest: &mut [u8], head: &mut usize)
    requires
        *old(head) + 1 < old(dest).len(),
    ensures
        *final(head) == *old(head) + 2,
        forall|control: usize, filled: usize|
            writer_view(old(dest)@, *old(head), control, filled).well_formed() ==> has_put(
                old(dest)@,
                *old(head),
                final(dest)@,
                *final(head),
                control,
                filled,
                #[trigger] writer_view(old(dest)@, *old(head), control, filled).put_word(
                    value as int,
                ),
            ),
{
    assert((value & 0xFF) == value % 256 && (value >> 8) == value / 256) by (bit_vector);
    dest[*head] = (value & 0xFF) as u8;
    dest[*head + 1] = (value >> 8) as u8;
    *head = *head + 2;
    proof {
        assert forall|control: usize, filled: usize|
            writer_view(old(dest)@, *old(head), control, filled).well_formed() implies has_put(
            old(dest)@,
            *old(head),
            dest@,
            *head,
            control,
            filled,
            #[trigger] writer_view(old(dest)@, *old(head), control, filled).put_word(
                value as int,
            ),
        ) by {
            let before = writer_view(old(dest)@, *old(head), control, filled);
            assert(writer_view(dest@, *head, control, filled).bytes =~= before.put_word(
                value as int,
            ).bytes);
        }
    }
}

/// Writes a literal: the control bit 1 and the byte.
fn write_literal(
    value: u8,
    dest: &mut [u8],
    head: &mut usize,
    control_bit_position: &mut usize,
    control_byte_ptr: &mut usize,
)
    requires
        can_put(
            old(dest)@,
            *old(head),
            *old(control_byte_ptr),
            *old(control_bit_position),
            writer_view(
                old(dest)@,
                *old(head),
                *old(control_byte_ptr),
                *old(control_bit_position),
            ).put_literal(value),
        ),
    ensures
        has_put(
            old(dest)@,
            *old(head),
            final(dest)@,
            *final(head),
            *final(control_byte_ptr),
            *final(control_bit_position),
            writer_view(
                old(dest)@,
                *old(head),
                *old(control_byte_ptr),
                *old(control_bit_position),
            ).put_literal(value),
        ),
{
    proof {
        lemma_put_bit_well_formed(
            writer_view(dest@, *head, *control_byte_ptr, *control_bit_position),
            true,
        );
    }
    append_control_bit(1, dest, head, control_bit_position, control_byte_ptr);
    append_byte(value, dest, head);
}

/// Writes a short copy: the opcode 00, the two bits of the length less two
/// with the higher first, and the low byte of the offset.
fn write_short_copy(
    dest: &mut [u8],
    head: &mut usize,
    result: &Lz77Match,
    control_bit_position: &mut usize,
    control_byte_ptr: &mut usize,
)
    requires
        2 <= result.length <= 5,
        -256 <= result.offset <= -1,
        can_put(
            old(dest)@,
            *old(head),
            *old(control_byte_ptr),
            *old(control_bit_position),
            writer_view(
                old(dest)@,
                *old(head),
                *old(control_byte_ptr),
                *old(control_bit_position),
            ).put_short_copy(result.length as int, result.offset as int),
        ),
    ensures
        has_put(
            old(dest)@,
            *old(head),
            final(dest)@,
            *final(head),
            *final(control_byte_ptr),
            *final(control_bit_position),
            writer_view(
                old(dest)@,
                *old(head),
                *old(control_byte_ptr),
                *old(control_bit_position),
            ).put_short_copy(result.length as int, result.offset as int),
        ),
{
    let encoded_len = result.length - 2;
    let high = ((encoded_len >> 1) & 1) as u8;
    let low = (encoded_len & 1) as u8;
    let offset = result.offset;
    proof {
        assert(encoded_len < 4 ==> ((encoded_len >> 1) & 1) == encoded_len / 2 && (encoded_len & 1)
            == encoded_len % 2) by (bit_vector);
        assert((offset & 0xFF) == offset + 256) by (bit_vector)
            requires
                -256 <= offset <= -1,
        ;
        let w = writer_view(dest@, *head, *control_byte_ptr, *control_bit_position);
        let w1 = w.put_bit(false);
        let w2 = w1.put_bit(false);
        let w3 = w2.put_bit(high == 1);
        lemma_put_bit_well_formed(w, false);
        lemma_put_bit_well_formed(w1, false);
        lemma_put_bit_well_formed(w2, high == 1);
        lemma_put_bit_well_formed(w3, low == 1);
    }
    append_control_bit(0, dest, head, control_bit_position, control_byte_ptr);
    append_control_bit(0, dest, head, control_bit_position, control_byte_ptr);
    append_control_bit(high, dest, head, control_bit_position, control_byte_ptr);
    append_control_bit(low, dest, head, control_bit_position, control_byte_ptr);
    append_byte((offset & 0xFF) as u8, dest, head);
}

/// Writes a long copy whose length fits the packed word: the opcode 01 and
/// the word that holds the offset above the length less two.
fn write_long_copy_small(
    dest: &mut [u8],
    head: &mut usize,
    result: &Lz77Match,
    control_bit_position: &mut usize,
    control_byte_ptr: &mut usize,
)
    requires
        3 <= result.length <= 9,
        -8192 <= result.offset <= -1,
        can_put(
            old(dest)@,
            *old(head),
            *old(control_byte_ptr),
            *old(control_bit_position),
            writer_view(
                old(dest)@,
                *old(head),
                *old(control_byte_ptr),
                *old(control_bit_position),
            ).put_long_copy_small(result.length as int, result.offset as int),
        ),
    ensures
        has_put(
            old(dest)@,
            *old(head),
            final(dest)@,
            *final(head),
            *final(control_byte_ptr),
            *final(control_bit_position),
            writer_view(
                old(dest)@,
                *old(head),
                *old(control_byte_ptr),
                *old(control_bit_position),
            ).put_long_copy_small(result.length as int, result.offset as int),
        ),
{
    let len = (result.length - 2) as isize;
    let offset = result.offset;
    let ofs = offset << 3 & 0xFFF8;
    let packed = (ofs | len) as u16;
    proof {
        assert(((offset << 3 & 0xFFF8) | len) == (offset + 8192) * 8 + len) by (bit_vector)
            requires
                -8192 <= offset <= -1,
                0 <= len < 8,
        ;
        let w = writer_view(dest@, *head, *control_byte_ptr, *control_bit_position);
        lemma_put_bit_well_formed(w, false);
        lemma_put_bit_well_formed(w.put_bit(false), true);
    }
    append_control_bit(0, dest, head, control_bit_position, control_byte_ptr);
    append_control_bit(1, dest, head, control_bit_position, control_byte_ptr);
    append_u16_le(packed, dest, head);
}

/// Writes a long copy whose length needs the extension byte: the opcode 01,
/// the word that holds the offset above a zero length field, and the length
/// less one.
fn write_long_copy_large(
    dest: &mut [u8],
    head: &mut usize,
    result: &Lz77Match,
    control_bit_position: &mut usize,
    control_byte_ptr: &mut usize,
)
    requires
        1 <= result.length <= 256,
        -8191 <= result.offset <= -1,
        can_put(
            old(dest)@,
            *old(head),
            *old(control_byte_ptr),
            *old(control_bit_position),
            writer_view(
                old(dest)@,
                *old(head),
                *old(control_byte_ptr),
                *old(control_bit_position),
            ).put_long_copy_large(result.length as int, result.offset as int),
        ),
    ensures
        has_put(
            old(dest)@,
            *old(head),
            final(dest)@,
            *final(head),
            *final(control_byte_ptr),
            *final(control_bit_position),
            writer_view(
                old(dest)@,
                *old(head),
                *old(control_byte_ptr),
                *old(control_bit_position),
            ).put_long_copy_large(result.length as int, result.offset as int),
        ),
{
    let offset = result.offset;
    let packed = (offset << 3 & 0xFFF8) as u16;
    proof {
        assert((offset << 3 & 0xFFF8) == (offset + 8192) * 8) by (bit_vector)
            requires
                -8192 <= offset <= -1,
        ;
        let w = writer_view(dest@, *head, *control_byte_ptr, *control_bit_position);
        lemma_put_bit_well_formed(w, false);
        lemma_put_bit_well_formed(w.put_bit(false), true);
    }
    append_control_bit(0, dest, head, control_bit_position, control_byte_ptr);
    append_control_bit(1, dest, head, control_bit_position, control_byte_ptr);
    append_u16_le(packed, dest, head);
    append_byte((result.length - 1) as u8, dest, head);
}

/// Writes the terminator: the opcode 01 and a packed word of zero.
fn write_end(
    dest: &mut [u8],
    head: &mut usize,
    control_bit_position: &mut usize,
    control_byte_ptr: &mut usize,
)
    requires
        can_put(
            old(dest)@,
            *old(head),
            *old(control_byte_ptr),
            *old(control_bit_position),
            writer_view(
                old(dest)@,
                *old(head),
                *old(control_byte_ptr),
                *old(control_bit_position),
            ).put_end(),
        ),
    ensures
        has_put(
            old(dest)@,
            *old(head),
            final(dest)@,
            *final(head),
            *final(control_byte_ptr),
            *final(control_bit_position),
            writer_view(
                old(dest)@,
                *old(head),
                *old(control_byte_ptr),
                *old(control_bit_position),
            ).put_end(),
        ),
{
    proof {
        let w = writer_view(dest@, *head, *control_byte_ptr, *control_bit_position);
        lemma_put_bit_well_formed(w, false);
        lemma_put_bit_well_formed(w.put_bit(false), true);
    }
    append_control_bit(0, dest, head, control_bit_position, control_byte_ptr);
    append_control_bit(1, dest, head, control_bit_position, control_byte_ptr);
    append_byte(0x00, dest, head);
    append_byte(0x00, dest, head);
}

/// Writes the token that stands for a match found at `source_ofs` and
/// moves `source_ofs` behind the bytes that the token covers.
fn encode_lz77_match(
    result: Lz77Match,
    dest: &mut [u8],
    head: &mut usize,
    control_bit_position: &mut usize,
    control_byte_ptr: &mut usize,
    source_ofs: &mut usize,
    source: &[u8],
)
    requires
        *old(source_ofs) < source.len(),
        select_token(
            result.length as int,
            result.offset as int,
            source[*old(source_ofs) as int],
        ).well_formed(),
        *old(source_ofs) + select_token(
            result.length as int,
            result.offset as int,
            source[*old(source_ofs) as int],
        ).produced() <= source.len(),
        can_put(
            old(dest)@,
            *old(head),
            *old(control_byte_ptr),
            *old(control_bit_position),
            writer_view(
                old(dest)@,
                *old(head),
                *old(control_byte_ptr),
                *old(control_bit_position),
            ).put_token(
                select_token(
                    result.length as int,
                    result.offset as int,
                    source[*old(source_ofs) as int],
                ),
            ),
        ),
    ensures
        has_put(
            old(dest)@,
            *old(head),
            final(dest)@,
            *final(head),
            *final(control_byte_ptr),
            *final(control_bit_position),
            writer_view(
                old(dest)@,
                *old(head),
                *old(control_byte_ptr),
                *old(control_bit_position),
            ).put_token(
                select_token(
                    result.length as int,
                    result.offset as int,
                    source[*old(source_ofs) as int],
                ),
            ),
        ),
        *final(source_ofs) == *old(source_ofs) + select_token(
            result.length as int,
            result.offset as int,
            source[*old(source_ofs) as int],
        ).produced(),
{
    if result.offset >= -(SHORT_COPY_MAX_OFFSET as isize) && result.length >= SHORT_COPY_MIN_LEN
        && result.length <= SHORT_COPY_MAX_LEN {
        write_short_copy(dest, head, &result, control_bit_position, control_byte_ptr);
        *source_ofs = *source_ofs + result.length;
    } else if result.length <= 2 {
        write_literal(source[*source_ofs], dest, head, control_bit_position, control_byte_ptr);
        *source_ofs = *source_ofs + 1;
    } else {
        if result.length <= 9 {
            write_long_copy_small(dest, head, &result, control_bit_position, control_byte_ptr);
            *source_ofs = *source_ofs + result.length;
        } else {
            write_long_copy_large(dest, head, &result, control_bit_position, control_byte_ptr);
            *source_ofs = *source_ofs + result.length;
        }
    }
}


/// Compresses the first `source_len` bytes of `source` into the front of
/// `dest` and returns the number of bytes written.
///
/// What is written is the stream of `prs_compressed`: the tokens that
/// `chosen_tokens` names, and the terminator. The destination has to hold
/// that many bytes. A destination of one byte more than the advertised
/// maximum always does; `lemma_compressed_size` in the crate's laws says
/// when the maximum itself is enough. The bytes of `dest` behind what is
/// written are left as they were. What is written is a valid stream that
/// decompresses to the source.
pub fn prs_compress(source: &[u8], dest: &mut [u8], source_len: usize) -> (written: usize)
    requires
        source_len <= source.len(),
        source_len <= 0x7FFF_FFFF,
        max_compressed_size(source_len as int) < old(dest).len() || prs_compressed(
            source@.subrange(0, source_len as int),
        ).len() <= old(dest).len(),
    ensures
        written == prs_compressed(source@.subrange(0, source_len as int)).len(),
        written <= max_compressed_size(source_len as int) + 1,
        final(dest)@.subrange(0, written as int) == prs_compressed(
            source@.subrange(0, source_len as int),
        ),
        same_behind(old(dest)@, final(dest)@, written),
        prs_valid(final(dest)@.subrange(0, written as int)),
        prs_decoded(final(dest)@.subrange(0, written as int)) == source@.subrange(
            0,
            source_len as int,
        ),
        prs_decoded_size(final(dest)@.subrange(0, written as int)) == source_len,
{
    proof {
        lemma_compressed_size_fits(source@.subrange(0, source_len as int));
        lemma_round_trip(source@.subrange(0, source_len as int));
        lemma_decoded_size(source@.subrange(0, source_len as int));
    }
    let data = slice_subrange(source, 0, source_len);
    let n = source_len;
    let ghost src = data@;
    let ghost initial = dest@;
    let ghost goal = chosen_tokens(src);
    let ghost first = if n > 0 {
        (seq![Token::Literal { byte: src[0] }], 1int)
    } else {
        (Seq::<Token>::empty(), 0int)
    };
    let ghost bulk = encode_windows(src, first.1, first.0);
    let ghost tail = encode_span(src, bulk.1, n - 1, bulk.0);
    let ghost room = written(goal).bytes.len();
    let ghost tokens: Seq<Token> = Seq::empty();
    proof {
        lemma_written_well_formed(goal);
        lemma_put_end_well_formed(written(goal));
        lemma_windows_grow(src, first.1, first.0);
        lemma_span_grows(src, bulk.1, n - 1, bulk.0);
        if tail.1 == n - 1 {
            lemma_written_push(tail.0, Token::Literal { byte: src[n - 1] });
        }
    }

    let mut head: usize = 0;
    let mut last_init_covered_all = false;
    let mut control_byte_ptr = reserve_control_byte(dest, &mut head);
    let mut control_bit_position: usize = 0;
    let mut source_ofs: usize = 0;
    let mut dict = CompDict::new(WINDOW_SIZE);
    proof {
        assert(writer_view(dest@, head, control_byte_ptr, control_bit_position).bytes
            =~= Writer::start().bytes);
        assert(written(tokens) == Writer::start());
        lemma_written_well_formed(tokens);
    }

    // The first byte has nothing in front of it to copy from.
    if n > 0 {
        proof {
            lemma_written_push(tokens, Token::Literal { byte: src[0] });
            assert(tokens.push(Token::Literal { byte: src[0] }) =~= first.0);
        }
        let ghost before = dest@;
        let ghost old_head = head;
        write_literal(
            data[0],
            dest,
            &mut head,
            &mut control_bit_position,
            &mut control_byte_ptr,
        );
        source_ofs = source_ofs + 1;
        proof {
            lemma_emit(
                initial,
                before,
                old_head,
                dest@,
                head,
                control_byte_ptr,
                control_bit_position,
                tokens,
                Token::Literal { byte: src[0] },
            );
            tokens = tokens.push(Token::Literal { byte: src[0] });
        }
    }

    // While a match of full length cannot reach the end of the source, the
    // search need not look for the end.
    let fast_processing_end = n.saturating_sub(COPY_MAX_LENGTH);
    while source_ofs < fast_processing_end
        invariant
            src == data@,
            n == data@.len(),
            n <= 0x7FFF_FFFF,
            fast_processing_end == fast_end(n as int),
            n > 0 ==> 1 <= source_ofs <= n,
            encode_windows(src, source_ofs as int, tokens) == bulk,
            written(bulk.0).bytes.len() <= room,
            room + 2 <= dest@.len(),
            encoding(
                initial,
                dest@,
                head,
                control_byte_ptr,
                control_bit_position,
                tokens,
            ),
            dict.well_formed(),
            dict.capacity() == WINDOW_SIZE,
            last_init_covered_all ==> dict_at(&dict, src, source_ofs as int) && dict.base()
                + dict.window().len() == n && source_ofs >= fast_processing_end,
        decreases n - source_ofs,
    {
        let window_start = source_ofs.saturating_sub(MAX_OFFSET);
        let window_end = window_start + WINDOW_SIZE;
        let window_end = if window_end >= n {
            last_init_covered_all = true;
            n
        } else {
            window_end
        };
        let window_slice = slice_subrange(data, window_start, window_end);
        proof {
            dict.lemma_well_formed_allocated();
        }
        dict.init(window_slice, window_start);

        let fast_limit = if window_end <= fast_processing_end {
            window_end
        } else {
            fast_processing_end
        };
        let ghost span = encode_span(src, source_ofs as int, fast_limit as int, tokens);
        proof {
            dict.lemma_fresh_ready(
                search_start(source_ofs as int, MAX_OFFSET as int),
                search_last(source_ofs as int),
            );
            lemma_span_reaches(src, source_ofs as int, fast_limit as int, tokens);
            lemma_windows_grow(src, span.1, span.0);
        }
        while source_ofs < fast_limit
            invariant
                src == data@,
                n == data@.len(),
                n <= 0x7FFF_FFFF,
                1 <= source_ofs <= n,
                fast_limit <= fast_end(n as int),
                fast_limit <= window_end,
                encode_span(src, source_ofs as int, fast_limit as int, tokens) == span,
                written(span.0).bytes.len() <= room,
                room + 2 <= dest@.len(),
                encoding(
                    initial,
                    dest@,
                    head,
                    control_byte_ptr,
                    control_bit_position,
                    tokens,
                ),
                dict_at(&dict, src, source_ofs as int),
                dict.base() + dict.window().len() == window_end,
            decreases n - source_ofs,
        {
            let mut result = lz77_get_longest_match_fast::<CompressParameters>(
                &mut dict,
                data,
                source_ofs,
            );
            proof {
                lemma_dict_later(&dict, src, source_ofs as int, source_ofs as int + 1);
            }
            let ghost entry_ofs = source_ofs;

            // Where the next place has a longer match, this byte goes out as
            // a literal and the longer match is taken up instead.
            while result.length >= 2 && source_ofs + 1 < fast_limit
                invariant
                    entry_ofs <= source_ofs,
                    src == data@,
                    n == data@.len(),
                    n <= 0x7FFF_FFFF,
                    1 <= source_ofs < fast_limit,
                    fast_limit <= fast_end(n as int),
                    fast_limit <= window_end,
                    encode_span(src, source_ofs as int, fast_limit as int, tokens) == span,
                    written(span.0).bytes.len() <= room,
                    room + 2 <= dest@.len(),
                    encoding(
                        initial,
                        dest@,
                        head,
                        control_byte_ptr,
                        control_bit_position,
                        tokens,
                    ),
                    dict_at(&dict, src, source_ofs as int + 1),
                    dict.base() + dict.window().len() == window_end,
                    result.length == match_at(src, source_ofs as int).length,
                    result.offset == match_at(src, source_ofs as int).offset,
                ensures
                    entry_ofs <= source_ofs,
                    src == data@,
                    n == data@.len(),
                    1 <= source_ofs < fast_limit,
                    encode_span(src, source_ofs as int, fast_limit as int, tokens) == span,
                    encoding(
                        initial,
                        dest@,
                        head,
                        control_byte_ptr,
                        control_bit_position,
                        tokens,
                    ),
                    dict_at(&dict, src, source_ofs as int + 1),
                    dict.base() + dict.window().len() == window_end,
                    result.length == match_at(src, source_ofs as int).length,
                    result.offset == match_at(src, source_ofs as int).offset,
                    !defers(src, source_ofs as int, fast_limit as int),
                decreases n - source_ofs,
            {
                let next_result = lz77_get_longest_match_fast::<CompressParameters>(
                    &mut dict,
                    data,
                    source_ofs + 1,
                );

                if next_result.length > result.length {
                    proof {
                        lemma_span_step(src, source_ofs as int, fast_limit as int, tokens);
                        lemma_written_well_formed(tokens);
                        lemma_dict_later(&dict, src, source_ofs as int + 1, source_ofs as int + 2);
                    }
                    let ghost before = dest@;
                    let ghost old_head = head;
                    let ghost token = Token::Literal { byte: src[source_ofs as int] };
                    write_literal(
                        data[source_ofs],
                        dest,
                        &mut head,
                        &mut control_bit_position,
                        &mut control_byte_ptr,
                    );
                    source_ofs = source_ofs + 1;
                    result = next_result;
                    proof {
                        lemma_emit(
                            initial,
                            before,
                            old_head,
                            dest@,
                            head,
                            control_byte_ptr,
                            control_bit_position,
                            tokens,
                            token,
                        );
                        tokens = tokens.push(token);
                    }
                } else {
                    break ;
                }
            }

            let ghost before = dest@;
            let ghost old_head = head;
            let ghost old_ofs = source_ofs as int;
            let ghost token = token_at(src, old_ofs, fast_limit as int);
            proof {
                lemma_span_step(src, old_ofs, fast_limit as int, tokens);
                lemma_written_well_formed(tokens);
                lemma_match_at(src, old_ofs);
            }
            encode_lz77_match(
                result,
                dest,
                &mut head,
                &mut control_bit_position,
                &mut control_byte_ptr,
                &mut source_ofs,
                data,
            );
            proof {
                lemma_emit(
                    initial,
                    before,
                    old_head,
                    dest@,
                    head,
                    control_byte_ptr,
                    control_bit_position,
                    tokens,
                    token,
                );
                tokens = tokens.push(token);
                lemma_dict_later(&dict, src, old_ofs + 1, source_ofs as int);
            }
        }
    }

    // The rest of the source. Where the last index did not reach the end of
    // the source, it is built once more.
    if !last_init_covered_all {
        let window_start = source_ofs.saturating_sub(MAX_OFFSET);
        let window_slice = slice_subrange(data, window_start, n);
        proof {
            dict.lemma_well_formed_allocated();
        }
        dict.init(window_slice, window_start);
        proof {
            dict.lemma_fresh_ready(
                search_start(source_ofs as int, MAX_OFFSET as int),
                search_last(source_ofs as int),
            );
        }
    }

    // The search reads two bytes, so it stops in front of the last byte.
    let slow_limit = n.saturating_sub(1);
    while source_ofs < slow_limit
        invariant
            src == data@,
            n == data@.len(),
            n <= 0x7FFF_FFFF,
            slow_limit == if n > 0 { n - 1 } else { 0 },
            n > 0 ==> 1 <= source_ofs <= n,
            n == 0 ==> source_ofs == 0,
            encode_span(src, source_ofs as int, n - 1, tokens) == tail,
            written(tail.0).bytes.len() <= room,
            room + 2 <= dest@.len(),
            encoding(
                initial,
                dest@,
                head,
                control_byte_ptr,
                control_bit_position,
                tokens,
            ),
            dict_at(&dict, src, source_ofs as int),
            dict.base() + dict.window().len() == n,
        decreases n - source_ofs,
    {
        let mut result = lz77_get_longest_match_slow::<CompressParameters>(
            &mut dict,
            data,
            n,
            source_ofs,
        );
        proof {
            lemma_dict_later(&dict, src, source_ofs as int, source_ofs as int + 1);
        }
        let ghost entry_ofs = source_ofs;

        while result.length >= 2 && source_ofs + 1 < slow_limit
            invariant
                entry_ofs <= source_ofs,
                src == data@,
                n == data@.len(),
                n <= 0x7FFF_FFFF,
                slow_limit == n - 1,
                1 <= source_ofs < slow_limit,
                encode_span(src, source_ofs as int, n - 1, tokens) == tail,
                written(tail.0).bytes.len() <= room,
                room + 2 <= dest@.len(),
                encoding(
                    initial,
                    dest@,
                    head,
                    control_byte_ptr,
                    control_bit_position,
                    tokens,
                ),
                dict_at(&dict, src, source_ofs as int + 1),
                dict.base() + dict.window().len() == n,
                result.length == match_at(src, source_ofs as int).length,
                result.offset == match_at(src, source_ofs as int).offset,
            ensures
                entry_ofs <= source_ofs,
                src == data@,
                n == data@.len(),
                1 <= source_ofs < slow_limit,
                encode_span(src, source_ofs as int, n - 1, tokens) == tail,
                encoding(
                    initial,
                    dest@,
                    head,
                    control_byte_ptr,
                    control_bit_position,
                    tokens,
                ),
                dict_at(&dict, src, source_ofs as int + 1),
                dict.base() + dict.window().len() == n,
                result.length == match_at(src, source_ofs as int).length,
                result.offset == match_at(src, source_ofs as int).offset,
                !defers(src, source_ofs as int, n - 1),
            decreases n - source_ofs,
        {
            let next_result = lz77_get_longest_match_slow::<CompressParameters>(
                &mut dict,
                data,
                n,
                source_ofs + 1,
            );

            if next_result.length > result.length {
                proof {
                    lemma_span_step(src, source_ofs as int, n - 1, tokens);
                    lemma_written_well_formed(tokens);
                    lemma_dict_later(&dict, src, source_ofs as int + 1, source_ofs as int + 2);
                }
                let ghost before = dest@;
                let ghost old_head = head;
                let ghost token = Token::Literal { byte: src[source_ofs as int] };
                write_literal(
                    data[source_ofs],
                    dest,
                    &mut head,
                    &mut control_bit_position,
                    &mut control_byte_ptr,
                );
                source_ofs = source_ofs + 1;
                result = next_result;
                proof {
                    lemma_emit(
                        initial,
                        before,
                        old_head,
                        dest@,
                        head,
                        control_byte_ptr,
                        control_bit_position,
                        tokens,
                        token,
                    );
                    tokens = tokens.push(token);
                }
            } else {
                break ;
            }
        }

        let ghost before = dest@;
        let ghost old_head = head;
        let ghost old_ofs = source_ofs as int;
        let ghost token = token_at(src, old_ofs, n - 1);
        proof {
            lemma_span_step(src, old_ofs, n - 1, tokens);
            lemma_written_well_formed(tokens);
            lemma_match_at(src, old_ofs);
        }
        encode_lz77_match(
            result,
            dest,
            &mut head,
            &mut control_bit_position,
            &mut control_byte_ptr,
            &mut source_ofs,
            data,
        );
        proof {
            lemma_emit(
                initial,
                before,
                old_head,
                dest@,
                head,
                control_byte_ptr,
                control_bit_position,
                tokens,
                token,
            );
            tokens = tokens.push(token);
            lemma_dict_later(&dict, src, old_ofs + 1, source_ofs as int);
        }
    }

    // One byte may be left over.
    if source_ofs == n.wrapping_sub(1) {
        let ghost before = dest@;
        let ghost old_head = head;
        let ghost token = Token::Literal { byte: src[source_ofs as int] };
        proof {
            lemma_written_push(tokens, token);
            lemma_written_well_formed(tokens);
        }
        write_literal(
            data[source_ofs],
            dest,
            &mut head,
            &mut control_bit_position,
            &mut control_byte_ptr,
        );
        proof {
            lemma_emit(
                initial,
                before,
                old_head,
                dest@,
                head,
                control_byte_ptr,
                control_bit_position,
                tokens,
                token,
            );
            tokens = tokens.push(token);
        }
    }

    proof {
        assert(tokens == goal);
        lemma_written_well_formed(tokens);
    }
    let ghost before = dest@;
    write_end(dest, &mut head, &mut control_bit_position, &mut control_byte_ptr);
    head
}

} // verus!
