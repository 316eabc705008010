//! The decoder: turns a compressed stream back into the bytes it stands for.

use crate::codec::{
    lemma_parse_well_formed, lemma_take_token_sound, lemma_walk_end, lemma_walk_step,
};
use crate::impls::decomp::common::{read_byte, read_two_le, reader_view, retrieve_control_bit};
use crate::stream::{parse, parse_from, prs_decoded, prs_valid, Reader, Step};
use crate::token::{
    all_well_formed, copy_back, expand, lemma_expand_len, resolvable, total_produced, Token,
};
use crate::util::same_behind;
use vstd::prelude::*;

verus! {

/// Copies `length` bytes to the place `at` of `dest`, each from `distance`
/// bytes before the place it goes to, one after the other from the front:
/// a copy that is longer than its distance reads bytes that it has written.
fn copy_match(dest: &mut [u8], at: usize, distance: usize, length: usize)
    requires
        1 <= distance <= at,
        at + length <= old(dest).len(),
    ensures
        final(dest)@.subrange(0, at + length) == copy_back(
            old(dest)@.subrange(0, at as int),
            -(distance as int),
            length as int,
        ),
        same_behind(old(dest)@, final(dest)@, (at + length) as usize),
{
    let src_addr = at - distance;
    let ghost goal = copy_back(old(dest)@.subrange(0, at as int), -(distance as int), length as int);
    let mut i: usize = 0;
    while i < length
        invariant
            i <= length,
            src_addr == at - distance,
            1 <= distance <= at,
            at + length <= dest@.len(),
            at + length <= usize::MAX,
            dest@.len() == old(dest)@.len(),
            copy_back(dest@.subrange(0, at + i), -(distance as int), length - i) == goal,
            forall|j: int| at + i <= j < dest@.len() ==> dest@[j] == old(dest)@[j],
        decreases length - i,
    {
        let ghost before = dest@;
        dest[at + i] = dest[src_addr + i];
        proof {
            let out = before.subrange(0, at + i);
            assert(dest@.subrange(0, at + i + 1) =~= out.push(out[out.len() - distance]));
        }
        i = i + 1;
    }
}

/// Decodes what stands behind the opcode of a long copy: the terminator,
/// for which it returns `true`, or a copy whose bytes it appends to the
/// output.
fn decode_long_copy(
    source: &[u8],
    pos: &mut usize,
    dest: &mut [u8],
    file_size: &mut usize,
    Ghost(reader): Ghost<Reader>,
) -> (end: bool)
    requires
        reader.pos == *old(pos),
        match reader.take_long_copy(source@) {
            Step::Token(_, token) => token.distance() <= *old(file_size) && *old(file_size)
                + token.produced() <= old(dest).len(),
            Step::End(_) => true,
            Step::Truncated => false,
        },
    ensures
        match reader.take_long_copy(source@) {
            Step::Token(next, token) => {
                &&& !end
                &&& next.pos == *final(pos)
                &&& *final(file_size) == *old(file_size) + token.produced()
                &&& final(dest)@.subrange(0, *final(file_size) as int) == token.apply(
                    old(dest)@.subrange(0, *old(file_size) as int),
                )
                &&& same_behind(old(dest)@, final(dest)@, *final(file_size))
            },
            Step::End(next) => {
                &&& end
                &&& next.pos == *final(pos)
                &&& *final(file_size) == *old(file_size)
                &&& final(dest)@ == old(dest)@
            },
            Step::Truncated => false,
        },
{
    let ofs_bytes = read_two_le(source, pos) as isize;
    if ofs_bytes == 0 {
        return true;
    }

    // The thirteen bits of the offset stand for a negative number.
    let offset = (ofs_bytes >> 3) | -0x2000;
    let code = ofs_bytes as usize & 0b111;
    proof {
        assert(((ofs_bytes >> 3) | -0x2000isize) == ofs_bytes / 8 - 8192) by (bit_vector)
            requires
                0 <= ofs_bytes < 65536,
        ;
        let word = ofs_bytes as usize;
        assert(word & 0b111 == word % 8) by (bit_vector);
    }
    let length = if code == 0 {
        read_byte(source, pos) as usize + 1
    } else {
        code + 2
    };

    copy_match(dest, *file_size, (-offset) as usize, length);
    *file_size = *file_size + length;
    false
}

/// Decodes what stands behind the opcode of a short copy and appends the
/// bytes of the copy to the output.
fn decode_short_copy(
    control_byte: &mut u8,
    current_bit_position: &mut usize,
    source: &[u8],
    pos: &mut usize,
    dest: &mut [u8],
    file_size: &mut usize,
)
    requires
        match reader_view(
            *old(pos),
            *old(control_byte),
            *old(current_bit_position),
        ).take_short_copy(source@) {
            Step::Token(_, token) => token.distance() <= *old(file_size) && *old(file_size)
                + token.produced() <= old(dest).len(),
            _ => false,
        },
    ensures
        match reader_view(
            *old(pos),
            *old(control_byte),
            *old(current_bit_position),
        ).take_short_copy(source@) {
            Step::Token(next, token) => {
                &&& next == reader_view(
                    *final(pos),
                    *final(control_byte),
                    *final(current_bit_position),
                )
                &&& *final(file_size) == *old(file_size) + token.produced()
                &&& final(dest)@.subrange(0, *final(file_size) as int) == token.apply(
                    old(dest)@.subrange(0, *old(file_size) as int),
                )
                &&& same_behind(old(dest)@, final(dest)@, *final(file_size))
            },
            _ => false,
        },
{
    let high = retrieve_control_bit(control_byte, current_bit_position, source, pos);
    let low = retrieve_control_bit(control_byte, current_bit_position, source, pos);
    proof {
        assert(high <= 1 && low <= 1 ==> ((high << 1) | low) == 2 * high + low) by (bit_vector);
        assert((high << 1) as usize | (low as usize) == ((high << 1) | low) as usize) by (bit_vector)
            requires
                high <= 1,
                low <= 1,
        ;
    }
    let mut length = (high << 1) as usize;
    length = length | (low as usize);
    length = length + 2;

    // The byte holds the low eight bits of a negative number.
    let byte = read_byte(source, pos) as isize;
    let offset = byte | -0x100;
    proof {
        assert((byte | -0x100isize) == byte - 256) by (bit_vector)
            requires
                0 <= byte < 256,
        ;
    }

    copy_match(dest, *file_size, (-offset) as usize, length);
    *file_size = *file_size + length;
}

/// Decompresses `source` into the front of `dest` and returns the number
/// of bytes written.
///
/// The source has to be a valid stream, and the destination has to hold
/// what it decompresses to. Bytes of the source behind the terminator are
/// not read, and the bytes of `dest` behind what is written are left as
/// they were.
pub fn prs_decompress(source: &[u8], dest: &mut [u8]) -> (written: usize)
    requires
        prs_valid(source@),
        prs_decoded(source@).len() <= old(dest).len(),
    ensures
        written == prs_decoded(source@).len(),
        final(dest)@.subrange(0, written as int) == prs_decoded(source@),
        same_behind(old(dest)@, final(dest)@, written),
{
    let ghost stream = source@;
    let ghost all = parse(stream).unwrap();
    let ghost initial = dest@;
    let ghost tokens: Seq<Token> = Seq::empty();
    let mut pos: usize = 0;
    let mut control_byte = read_byte(source, &mut pos);
    let mut current_bit_position: usize = 0;
    let mut file_size: usize = 0;
    proof {
        lemma_parse_well_formed(stream);
        lemma_expand_len(all);
        assert(dest@.subrange(0, 0) =~= expand(tokens));
    }

    loop
        invariant_except_break
            parse_from(
                stream,
                reader_view(pos, control_byte, current_bit_position),
                tokens,
            ) == Some(all),
        invariant
            stream == source@,
            resolvable(all),
            all_well_formed(tokens),
            total_produced(all) <= dest@.len(),
            file_size == total_produced(tokens),
            dest@.subrange(0, file_size as int) == expand(tokens),
            same_behind(initial, dest@, file_size),
        ensures
            tokens == all,
            file_size == total_produced(tokens),
            dest@.subrange(0, file_size as int) == expand(tokens),
            same_behind(initial, dest@, file_size),
        decreases source.len() - pos,
    {
        let ghost reader = reader_view(pos, control_byte, current_bit_position);
        let ghost step = reader.take_token(stream);
        proof {
            lemma_take_token_sound(stream, reader);
            match step {
                Step::Token(next, token) => {
                    lemma_walk_step(stream, reader, next, token, tokens, all);
                },
                Step::End(next) => {
                    lemma_walk_end(stream, reader, next, tokens, all);
                },
                Step::Truncated => {},
            }
        }
        // A literal.
        if retrieve_control_bit(&mut control_byte, &mut current_bit_position, source, &mut pos)
            == 1 {
            let ghost before = dest@;
            dest[file_size] = read_byte(source, &mut pos);
            file_size = file_size + 1;
            proof {
                assert(dest@.subrange(0, file_size as int) =~= before.subrange(
                    0,
                    file_size - 1,
                ).push(dest@[file_size - 1]));
                tokens = tokens.push(step->Token_1);
            }
            continue ;
        }
        if retrieve_control_bit(&mut control_byte, &mut current_bit_position, source, &mut pos)
            == 1 {
            // A long copy, or the terminator.
            let ghost behind = reader_view(pos, control_byte, current_bit_position);
            if decode_long_copy(source, &mut pos, dest, &mut file_size, Ghost(behind)) {
                break ;
            }
            proof {
                tokens = tokens.push(step->Token_1);
            }
        } else {
            // A short copy.
            decode_short_copy(
                &mut control_byte,
                &mut current_bit_position,
                source,
                &mut pos,
                dest,
                &mut file_size,
            );
            proof {
                tokens = tokens.push(step->Token_1);
            }
        }
    }

    file_size
}

} // verus!
