//! What holds of compression and decompression together.

use crate::codec::{
    lemma_parse_serialize, lemma_parse_well_formed, lemma_put_end_well_formed,
    lemma_put_token_well_formed, lemma_written_well_formed,
};
use crate::impls::comp::choice::{
    chosen_tokens, encode_span, encode_windows, fast_end, lemma_match_at, prs_compressed,
    match_at, token_at, window_limit,
};
use crate::impls::comp::lz77_matcher::{
    agrees_at, lemma_agreed_length_bounds, lemma_best_match_sound, search_last, search_start,
};
use crate::stream::{parse, prs_decoded, prs_decoded_size, prs_valid, serialize, written};
use crate::token::{
    all_well_formed, copy_back, expand, lemma_expand_len, lemma_push_well_formed, resolvable,
    total_produced, Token, COPY_MAX_LENGTH, MAX_OFFSET,
};
use crate::util::max_compressed_size;
use vstd::prelude::*;

verus! {

/// The tokens are well formed and thrifty, no copy reaches back past the
/// start, and together they decode to the first `i` bytes of `src`.
pub open spec fn decodes_to(tokens: Seq<Token>, src: Seq<u8>, i: int) -> bool {
    &&& 0 <= i <= src.len()
    &&& all_well_formed(tokens)
    &&& resolvable(tokens)
    &&& all_thrifty(tokens)
    &&& expand(tokens) == src.subrange(0, i)
}

/// The token does not take more room than the literals for its bytes
/// would: an extended long copy produces at least four bytes.
pub open spec fn thrifty(token: Token) -> bool {
    match token {
        Token::LongCopyLarge { length, .. } => length >= 4,
        _ => true,
    }
}

/// Every token is thrifty.
pub open spec fn all_thrifty(tokens: Seq<Token>) -> bool {
    forall|i: int| 0 <= i < tokens.len() ==> thrifty(#[trigger] tokens[i])
}

/// Every token is a literal.
pub open spec fn all_literals(tokens: Seq<Token>) -> bool {
    forall|i: int| 0 <= i < tokens.len() ==> (#[trigger] tokens[i]) is Literal
}

/// The room that tokens take in a stream, in eighths of a byte: eight for
/// each payload byte and one for each control bit.
pub open spec fn weight(tokens: Seq<Token>) -> int
    decreases tokens.len(),
{
    if tokens.len() == 0 {
        0
    } else {
        weight(tokens.drop_last()) + 8 * tokens.last().payload_bytes()
            + tokens.last().control_bits()
    }
}

/// A copy of bytes that stand in the source reproduces the source.
proof fn lemma_copy_reproduces(src: Seq<u8>, i: int, distance: int, done: int, length: int)
    requires
        1 <= distance <= i,
        0 <= done <= length,
        i + length <= src.len(),
        forall|j: int| done <= j < length ==> #[trigger] agrees_at(src, i - distance, i, j),
    ensures
        copy_back(src.subrange(0, i + done), -distance, length - done) == src.subrange(
            0,
            i + length,
        ),
    decreases length - done,
{
    if done < length {
        let out = src.subrange(0, i + done);
        assert(agrees_at(src, i - distance, i, done));
        assert(out.push(out[out.len() - distance]) =~= src.subrange(0, i + done + 1));
        lemma_copy_reproduces(src, i, distance, done + 1, length);
    }
}

/// The token that the encoder writes at `i` decodes to the bytes of the
/// source from `i` on.
proof fn lemma_token_at(src: Seq<u8>, i: int, limit: int, acc: Seq<Token>)
    requires
        1 <= i < limit,
        limit < src.len(),
        decodes_to(acc, src, i),
    ensures
        decodes_to(acc.push(token_at(src, i, limit)), src, i + token_at(src, i, limit).produced()),
        token_at(src, i, limit).produced() >= 1,
{
    let token = token_at(src, i, limit);
    let found = match_at(src, i);
    let cap = if COPY_MAX_LENGTH <= src.len() - i {
        COPY_MAX_LENGTH as int
    } else {
        src.len() - i
    };
    lemma_match_at(src, i);
    lemma_best_match_sound(src, i, search_start(i, MAX_OFFSET as int), search_last(i), cap);
    lemma_expand_len(acc);
    lemma_push_well_formed(acc, token);
    let longer = acc.push(token);
    assert forall|k: int| 0 <= k < longer.len() implies thrifty(#[trigger] longer[k]) by {
        if k < acc.len() {
            assert(longer[k] == acc[k]);
        }
    }
    match token {
        Token::Literal { byte } => {
            assert(expand(acc).push(byte) =~= src.subrange(0, i + 1));
        },
        _ => {
            let p = i + found.offset;
            lemma_agreed_length_bounds(src, p, i, 2, cap);
            assert forall|j: int| 0 <= j < found.length implies #[trigger] agrees_at(
                src,
                i - (-found.offset),
                i,
                j,
            ) by {
                if j >= 2 {
                    assert(agrees_at(src, p, i, j));
                }
            }
            lemma_copy_reproduces(src, i, -found.offset, 0, found.length);
        },
    }
}

/// The tokens of a span decode to the bytes of the source that the span
/// covers.
proof fn lemma_span_decodes(src: Seq<u8>, i: int, limit: int, acc: Seq<Token>)
    requires
        1 <= i,
        limit < src.len(),
        decodes_to(acc, src, i),
    ensures
        decodes_to(encode_span(src, i, limit, acc).0, src, encode_span(src, i, limit, acc).1),
        encode_span(src, i, limit, acc).1 >= i,
        encode_span(src, i, limit, acc).1 >= limit,
    decreases
            (if i < limit {
                limit - i
            } else {
                0
            }),
{
    if i < limit {
        let token = token_at(src, i, limit);
        lemma_token_at(src, i, limit, acc);
        lemma_span_decodes(src, i + token.produced(), limit, acc.push(token));
    }
}

/// The tokens of the windows decode to the bytes of the source that the
/// windows cover.
proof fn lemma_windows_decode(src: Seq<u8>, i: int, acc: Seq<Token>)
    requires
        1 <= i,
        decodes_to(acc, src, i),
    ensures
        decodes_to(encode_windows(src, i, acc).0, src, encode_windows(src, i, acc).1),
        encode_windows(src, i, acc).1 >= i,
    decreases
            (if i < src.len() {
                src.len() - i
            } else {
                0
            }),
{
    if i < fast_end(src.len() as int) {
        let limit = window_limit(src.len() as int, i);
        let span = encode_span(src, i, limit, acc);
        lemma_span_decodes(src, i, limit, acc);
        if span.1 > i {
            lemma_windows_decode(src, span.1, span.0);
        }
    }
}

/// The tokens that the encoder chooses for a source are well formed and
/// thrifty, reach back no further than the start, and decode to the
/// source.
pub proof fn lemma_chosen_tokens(src: Seq<u8>)
    ensures
        decodes_to(chosen_tokens(src), src, src.len() as int),
        expand(chosen_tokens(src)) == src,
{
    let n = src.len() as int;
    let none = Seq::<Token>::empty();
    assert(src.subrange(0, n) =~= src);
    if n == 0 {
        assert(encode_windows(src, 0, none) == (none, 0int));
        assert(encode_span(src, 0, -1, none) == (none, 0int));
        assert(expand(none) =~= src.subrange(0, 0));
    } else {
        let first = Token::Literal { byte: src[0] };
        assert(seq![first] =~= none.push(first));
        lemma_push_well_formed(none, first);
        assert(expand(none).push(src[0]) =~= src.subrange(0, 1));
        assert(decodes_to(seq![first], src, 1));
        lemma_windows_decode(src, 1, seq![first]);
        let bulk = encode_windows(src, 1, seq![first]);
        lemma_span_decodes(src, bulk.1, n - 1, bulk.0);
        let tail = encode_span(src, bulk.1, n - 1, bulk.0);
        if tail.1 == n - 1 {
            let last = Token::Literal { byte: src[n - 1] };
            lemma_push_well_formed(tail.0, last);
            lemma_expand_len(tail.0);
            assert(expand(tail.0).push(src[n - 1]) =~= src.subrange(0, n));
            let longer = tail.0.push(last);
            assert forall|k: int| 0 <= k < longer.len() implies thrifty(#[trigger] longer[k]) by {
                if k < tail.0.len() {
                    assert(longer[k] == tail.0[k]);
                }
            }
        }
    }
}

/// Decompressing what was compressed gives the source back: the compressed
/// form of every source is a valid stream that decodes to the source.
pub proof fn lemma_round_trip(src: Seq<u8>)
    ensures
        prs_valid(prs_compressed(src)),
        prs_decoded(prs_compressed(src)) == src,
{
    lemma_chosen_tokens(src);
    lemma_parse_serialize(chosen_tokens(src));
}

/// The size that is found for what was compressed is the length of the
/// source.
pub proof fn lemma_decoded_size(src: Seq<u8>)
    ensures
        parse(prs_compressed(src)) is Some,
        prs_decoded_size(prs_compressed(src)) == src.len(),
{
    lemma_chosen_tokens(src);
    lemma_parse_serialize(chosen_tokens(src));
    lemma_expand_len(chosen_tokens(src));
}

/// A stream with a terminator decodes to as many bytes as its size is
/// found to be.
pub proof fn lemma_decoded_len(stream: Seq<u8>)
    requires
        parse(stream) is Some,
    ensures
        prs_decoded(stream).len() == prs_decoded_size(stream),
        0 <= prs_decoded_size(stream),
{
    lemma_parse_well_formed(stream);
    lemma_expand_len(parse(stream).unwrap());
}

/// Compressing what a valid stream decodes to gives a valid stream that
/// decodes to the same bytes. The two streams need not be equal.
pub proof fn lemma_recompress(stream: Seq<u8>)
    requires
        prs_valid(stream),
    ensures
        prs_valid(prs_compressed(prs_decoded(stream))),
        prs_decoded(prs_compressed(prs_decoded(stream))) == prs_decoded(stream),
{
    lemma_round_trip(prs_decoded(stream));
}

/// What the writer holds after a token sequence is as much as the tokens
/// weigh.
proof fn lemma_written_weight(tokens: Seq<Token>)
    ensures
        8 * written(tokens).bytes.len() + written(tokens).filled == 8 + weight(tokens),
    decreases tokens.len(),
{
    if tokens.len() > 0 {
        lemma_written_weight(tokens.drop_last());
        lemma_written_well_formed(tokens.drop_last());
        lemma_put_token_well_formed(written(tokens.drop_last()), tokens.last());
    }
}

/// Thrifty tokens weigh nine eighths of a byte for each byte they produce
/// where all of them are literals, and at least six eighths less where one
/// of them is a copy.
proof fn lemma_weight_bound(tokens: Seq<Token>)
    requires
        all_well_formed(tokens),
        all_thrifty(tokens),
    ensures
        all_literals(tokens) ==> weight(tokens) == 9 * total_produced(tokens),
        !all_literals(tokens) ==> weight(tokens) + 6 <= 9 * total_produced(tokens),
    decreases tokens.len(),
{
    if tokens.len() > 0 {
        let front = tokens.drop_last();
        let last = tokens.last();
        assert(last.well_formed() && thrifty(last));
        assert forall|i: int| 0 <= i < front.len() implies (#[trigger] front[i]).well_formed()
            && thrifty(front[i]) by {
            assert(front[i] == tokens[i]);
        }
        lemma_weight_bound(front);
        if all_literals(tokens) {
            assert forall|i: int| 0 <= i < front.len() implies (#[trigger] front[i]) is Literal by {
                assert(front[i] == tokens[i]);
            }
        } else if all_literals(front) {
            assert(!(last is Literal)) by {
                if last is Literal {
                    assert forall|i: int| 0 <= i < tokens.len() implies (#[trigger] tokens[i]) is Literal by {
                        if i < front.len() {
                            assert(front[i] == tokens[i]);
                        }
                    }
                }
            }
        }
    }
}

/// The size of the stream for thrifty tokens that produce `n` bytes: at
/// most the advertised bound and one byte; at most the bound unless `n`
/// leaves seven when divided by eight and all tokens are literals; and then
/// exactly one byte more than the bound.
pub proof fn lemma_serialized_size(tokens: Seq<Token>)
    requires
        all_well_formed(tokens),
        all_thrifty(tokens),
    ensures
        serialize(tokens).len() <= max_compressed_size(total_produced(tokens)) + 1,
        total_produced(tokens) % 8 != 7 || !all_literals(tokens) ==> serialize(tokens).len()
            <= max_compressed_size(total_produced(tokens)),
        total_produced(tokens) % 8 == 7 && all_literals(tokens) ==> serialize(tokens).len()
            == max_compressed_size(total_produced(tokens)) + 1,
{
    lemma_written_weight(tokens);
    lemma_written_well_formed(tokens);
    lemma_put_end_well_formed(written(tokens));
    lemma_weight_bound(tokens);
    lemma_expand_len(tokens);
}

/// What is compressed is no longer than the advertised bound, but for the
/// sources whose length leaves seven when divided by eight and in which the
/// encoder finds nothing to copy.
pub proof fn lemma_compressed_size(src: Seq<u8>)
    requires
        !(src.len() % 8 == 7 && all_literals(chosen_tokens(src))),
    ensures
        prs_compressed(src).len() <= max_compressed_size(src.len() as int),
{
    lemma_chosen_tokens(src);
    lemma_expand_len(chosen_tokens(src));
    lemma_serialized_size(chosen_tokens(src));
}

/// What is compressed from such a source is one byte longer than the
/// advertised bound.
pub proof fn lemma_compressed_size_exceeded(src: Seq<u8>)
    requires
        src.len() % 8 == 7,
        all_literals(chosen_tokens(src)),
    ensures
        prs_compressed(src).len() == max_compressed_size(src.len() as int) + 1,
{
    lemma_chosen_tokens(src);
    lemma_expand_len(chosen_tokens(src));
    lemma_serialized_size(chosen_tokens(src));
}

/// What is compressed always fits a destination of one byte more than the
/// advertised bound.
pub proof fn lemma_compressed_size_fits(src: Seq<u8>)
    ensures
        prs_compressed(src).len() <= max_compressed_size(src.len() as int) + 1,
{
    lemma_chosen_tokens(src);
    lemma_expand_len(chosen_tokens(src));
    lemma_serialized_size(chosen_tokens(src));
}

} // verus!
