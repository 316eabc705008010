//! The validator: walks a stream as the size estimator does, and checks on
//! the way what the decoder takes for granted.

use crate::codec::{lemma_take_token_sound, lemma_walk_end, lemma_walk_step};
use crate::impls::decomp::common::{
    advance_byte, read_byte, read_two_le, reader_view, retrieve_control_bit,
};
use crate::stream::{parse, parse_from, prs_decoded, prs_decoded_size, prs_valid, Step};
use crate::token::{
    all_well_formed, lemma_expand_len, lemma_push_well_formed, resolvable, total_produced, Token,
};
use vstd::prelude::*;

verus! {

/// Tells whether `source` holds a valid stream, and if so how many bytes it
/// decompresses to.
///
/// The result is `None` where the source ends before a terminator is
/// found, where a copy reaches back past the start of the output, and
/// where the size does not fit in `usize`. Bytes behind the terminator are
/// not read.
pub fn prs_validate(source: &[u8]) -> (size: Option<usize>)
    ensures
        match size {
            Some(n) => prs_valid(source@) && n == prs_decoded_size(source@) && n == prs_decoded(
                source@,
            ).len(),
            None => !prs_valid(source@) || prs_decoded_size(source@) > usize::MAX,
        },
{
    let len = source.len();
    if len == 0 {
        return None;
    }
    let ghost stream = source@;
    let ghost tokens: Seq<Token> = Seq::empty();
    let mut pos: usize = 0;
    let mut control_byte = read_byte(source, &mut pos);
    let mut current_bit_position: usize = 0;
    let mut file_size: usize = 0;

    loop
        invariant
            stream == source@,
            len == source.len(),
            pos <= len,
            parse_from(
                stream,
                reader_view(pos, control_byte, current_bit_position),
                tokens,
            ) == parse(stream),
            all_well_formed(tokens),
            resolvable(tokens),
            file_size == total_produced(tokens),
        decreases len - pos,
    {
        let ghost reader = reader_view(pos, control_byte, current_bit_position);
        let ghost step = reader.take_token(stream);
        proof {
            lemma_take_token_sound(stream, reader);
            lemma_expand_len(tokens);
            match step {
                Step::Token(next, token) => {
                    lemma_push_well_formed(tokens, token);
                    if parse(stream) is Some {
                        lemma_walk_step(stream, reader, next, token, tokens, parse(stream).unwrap());
                    }
                },
                Step::End(next) => {
                    if parse(stream) is Some {
                        lemma_walk_end(stream, reader, next, tokens, parse(stream).unwrap());
                    }
                },
                Step::Truncated => {},
            }
        }
        if current_bit_position >= 8 && pos >= len {
            return None;
        }
        if retrieve_control_bit(&mut control_byte, &mut current_bit_position, source, &mut pos)
            == 1 {
            // A literal.
            if pos >= len {
                return None;
            }
            if file_size == usize::MAX {
                return None;
            }
            advance_byte(source, &mut pos);
            file_size = file_size + 1;
            proof {
                tokens = tokens.push(step->Token_1);
            }
            continue ;
        }
        if current_bit_position >= 8 && pos >= len {
            return None;
        }
        let length: usize;
        let distance: usize;
        if retrieve_control_bit(&mut control_byte, &mut current_bit_position, source, &mut pos)
            == 1 {
            // A long copy, or the terminator.
            if len - pos < 2 {
                return None;
            }
            let word = read_two_le(source, &mut pos);
            if word == 0 {
                return Some(file_size);
            }
            assert(word & 0b111 == word % 8 && word >> 3 == word / 8) by (bit_vector);
            let code = word & 0b111;
            distance = 8192 - (word >> 3);
            if code == 0 {
                if pos >= len {
                    return None;
                }
                length = read_byte(source, &mut pos) as usize + 1;
            } else {
                length = code + 2;
            }
        } else {
            // A short copy.
            if current_bit_position >= 8 && pos >= len {
                return None;
            }
            let high = retrieve_control_bit(
                &mut control_byte,
                &mut current_bit_position,
                source,
                &mut pos,
            );
            if current_bit_position >= 8 && pos >= len {
                return None;
            }
            let low = retrieve_control_bit(
                &mut control_byte,
                &mut current_bit_position,
                source,
                &mut pos,
            );
            if pos >= len {
                return None;
            }
            length = 2 * (high as usize) + (low as usize) + 2;
            distance = 256 - read_byte(source, &mut pos) as usize;
        }
        if distance > file_size {
            return None;
        }
        if length > usize::MAX - file_size {
            return None;
        }
        file_size = file_size + length;
        proof {
            tokens = tokens.push(step->Token_1);
        }
    }
}

} // verus!
