//! The size estimator: walks a compressed stream and adds up what its
//! tokens produce, without producing it.

use crate::codec::{lemma_parse_well_formed, lemma_take_token_sound, lemma_walk_end, lemma_walk_step};
use crate::impls::decomp::common::{
    advance_byte, read_byte, read_two_le, reader_view, retrieve_control_bit,
};
use crate::stream::{parse, parse_from, prs_decoded, prs_decoded_size, Reader, Step};
use crate::token::{all_well_formed, lemma_expand_len, total_produced, Token};
use vstd::prelude::*;

verus! {

/// Returns the number of bytes that the stream in `source` decompresses
/// to.
///
/// The source has to have a terminator. Whether its copies reach back
/// past the start of the output is not looked at. Bytes behind the
/// terminator are not read.
pub fn prs_calculate_decompressed_size_impl(source: &[u8]) -> (size: usize)
    requires
        parse(source@) is Some,
        prs_decoded_size(source@) <= usize::MAX,
    ensures
        size == prs_decoded_size(source@),
        size == prs_decoded(source@).len(),
{
    let ghost stream = source@;
    let ghost all = parse(stream).unwrap();
    let ghost tokens: Seq<Token> = Seq::empty();
    let mut pos: usize = 0;
    let mut control_byte = read_byte(source, &mut pos);
    let mut current_bit_position: usize = 0;
    let mut file_size: usize = 0;
    proof {
        lemma_parse_well_formed(stream);
        lemma_expand_len(all);
    }

    loop
        invariant_except_break
            parse_from(
                stream,
                reader_view(pos, control_byte, current_bit_position),
                tokens,
            ) == Some(all),
        invariant
            stream == source@,
            all_well_formed(tokens),
            total_produced(all) <= usize::MAX,
            file_size == total_produced(tokens),
        ensures
            tokens == all,
            file_size == total_produced(tokens),
        decreases source.len() - pos,
    {
        let ghost reader = reader_view(pos, control_byte, current_bit_position);
        let ghost step = reader.take_token(stream);
        proof {
            lemma_take_token_sound(stream, reader);
            match step {
                Step::Token(next, token) => {
                    lemma_walk_step(stream, reader, next, token, tokens, all);
                },
                Step::End(next) => {
                    lemma_walk_end(stream, reader, next, tokens, all);
                },
                Step::Truncated => {},
            }
        }
        // A literal.
        if retrieve_control_bit(&mut control_byte, &mut current_bit_position, source, &mut pos)
            == 1 {
            advance_byte(source, &mut pos);
            file_size = file_size + 1;
            proof {
                tokens = tokens.push(step->Token_1);
            }
            continue ;
        }
        if retrieve_control_bit(&mut control_byte, &mut current_bit_position, source, &mut pos)
            == 1 {
            // A long copy, or the terminator.
            let ghost behind = reader_view(pos, control_byte, current_bit_position);
            if decode_long_copy(source, &mut pos, &mut file_size, Ghost(behind)) {
                break ;
            }
            proof {
                tokens = tokens.push(step->Token_1);
            }
        } else {
            // A short copy.
            decode_short_copy(
                &mut control_byte,
                &mut current_bit_position,
                source,
                &mut pos,
                &mut file_size,
            );
            proof {
                tokens = tokens.push(step->Token_1);
            }
        }
    }

    file_size
}

/// Walks over what stands behind the opcode of a long copy: the
/// terminator, for which it returns `true`, or a copy whose length it adds
/// to the size.
fn decode_long_copy(
    source: &[u8],
    pos: &mut usize,
    file_size: &mut usize,
    Ghost(reader): Ghost<Reader>,
) -> (end: bool)
    requires
        reader.pos == *old(pos),
        match reader.take_long_copy(source@) {
            Step::Token(_, token) => *old(file_size) + token.produced() <= usize::MAX,
            Step::End(_) => true,
            Step::Truncated => false,
        },
    ensures
        match reader.take_long_copy(source@) {
            Step::Token(next, token) => {
                &&& !end
                &&& next.pos == *final(pos)
                &&& *final(file_size) == *old(file_size) + token.produced()
            },
            Step::End(next) => {
                &&& end
                &&& next.pos == *final(pos)
                &&& *final(file_size) == *old(file_size)
            },
            Step::Truncated => false,
        },
{
    let offset = read_two_le(source, pos);
    if offset == 0 {
        return true;
    }
    assert(offset & 0b111 == offset % 8) by (bit_vector);
    let length = offset & 0b111;
    let length = if length == 0 {
        read_byte(source, pos) as usize + 1
    } else {
        length + 2
    };

    *file_size = *file_size + length;
    false
}

/// Walks over what stands behind the opcode of a short copy and adds the
/// length of the copy to the size.
fn decode_short_copy(
    control_byte: &mut u8,
    current_bit_position: &mut usize,
    source: &[u8],
    pos: &mut usize,
    file_size: &mut usize,
)
    requires
        match reader_view(
            *old(pos),
            *old(control_byte),
            *old(current_bit_position),
        ).take_short_copy(source@) {
            Step::Token(_, token) => *old(file_size) + token.produced() <= usize::MAX,
            _ => false,
        },
    ensures
        match reader_view(
            *old(pos),
            *old(control_byte),
            *old(current_bit_position),
        ).take_short_copy(source@) {
            Step::Token(next, token) => {
                &&& next == reader_view(
                    *final(pos),
                    *final(control_byte),
                    *final(current_bit_position),
                )
                &&& *final(file_size) == *old(file_size) + token.produced()
            },
            _ => false,
        },
{
    let high = retrieve_control_bit(control_byte, current_bit_position, source, pos);
    let low = retrieve_control_bit(control_byte, current_bit_position, source, pos);
    proof {
        assert(high <= 1 && low <= 1 ==> ((high << 1) | low) == 2 * high + low) by (bit_vector);
        assert((high << 1) as usize | (low as usize) == ((high << 1) | low) as usize) by (bit_vector)
            requires
                high <= 1,
                low <= 1,
        ;
    }
    let mut length = (high << 1) as usize;
    length = length | (low as usize);
    length = length + 2;

    // The offset is not needed.
    advance_byte(source, pos);

    *file_size = *file_size + length;
}

} // verus!
