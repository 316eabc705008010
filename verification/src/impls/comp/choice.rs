//! Which tokens the encoder writes for a source.
//!
//! The encoder goes through the source from front to back. At each place
//! it takes the best match that the match finder has, unless the match at
//! the next place is longer: then it writes the byte as a literal and goes
//! on from the next place. Matches that no copy can carry with profit are
//! written as literals too.

use crate::codec::lemma_written_push;
use crate::impls::comp::compress::WINDOW_SIZE;
use crate::impls::comp::lz77_matcher::{
    best_match, lemma_best_match_sound, search_last, search_start, Found,
};
use crate::stream::{serialize, written};
use crate::token::{Token, COPY_MAX_LENGTH, MAX_OFFSET};
use vstd::prelude::*;

verus! {

/// Which token stands for a match at a position whose byte is `byte`: a
/// short copy where the match fits one, else a literal for a match of at
/// most two bytes, else a long copy with the shortest length field.
pub open spec fn select_token(length: int, offset: int, byte: u8) -> Token {
    if offset >= -256 && 2 <= length <= 5 {
        Token::ShortCopy { length, offset }
    } else if length <= 2 {
        Token::Literal { byte }
    } else if length <= 9 {
        Token::LongCopySmall { length, offset }
    } else {
        Token::LongCopyLarge { length, offset }
    }
}

/// The match that the encoder finds at `i`.
pub open spec fn match_at(src: Seq<u8>, i: int) -> Found {
    best_match(src, src.len() as int, i, MAX_OFFSET as int, COPY_MAX_LENGTH as int)
}

/// The encoder puts the match at `i` off: there is one, the next place is
/// still in front of `limit`, and the match there is longer.
pub open spec fn defers(src: Seq<u8>, i: int, limit: int) -> bool {
    &&& match_at(src, i).length >= 2
    &&& i + 1 < limit
    &&& match_at(src, i + 1).length > match_at(src, i).length
}

/// The token that the encoder writes at `i`: a literal where it puts the
/// match off, else the token for the match.
pub open spec fn token_at(src: Seq<u8>, i: int, limit: int) -> Token {
    if defers(src, i, limit) {
        Token::Literal { byte: src[i] }
    } else {
        select_token(match_at(src, i).length, match_at(src, i).offset, src[i])
    }
}

/// The tokens in `acc` and behind them those that the encoder writes from
/// `i` until it has reached `limit`, with the place where it then stands.
pub open spec fn encode_span(src: Seq<u8>, i: int, limit: int, acc: Seq<Token>) -> (Seq<Token>, int)
    decreases
            (if i < limit {
                limit - i
            } else {
                0
            }),
{
    if i >= limit {
        (acc, i)
    } else {
        let token = token_at(src, i, limit);
        encode_span(src, i + token.produced(), limit, acc.push(token))
    }
}

/// Where the part of a source of `n` bytes ends in which a match of full
/// length cannot reach the end of the source.
pub open spec fn fast_end(n: int) -> int {
    if n >= COPY_MAX_LENGTH {
        n - COPY_MAX_LENGTH
    } else {
        0
    }
}

/// Where the window starts that is indexed when the encoder stands at `i`.
pub open spec fn window_start(i: int) -> int {
    if i >= MAX_OFFSET {
        i - MAX_OFFSET
    } else {
        0
    }
}

/// Where the window ends that is indexed when the encoder stands at `i`.
pub open spec fn window_end(n: int, i: int) -> int {
    if window_start(i) + WINDOW_SIZE >= n {
        n
    } else {
        window_start(i) + WINDOW_SIZE
    }
}

/// Up to where the encoder goes with the window that is indexed at `i`.
pub open spec fn window_limit(n: int, i: int) -> int {
    if window_end(n, i) <= fast_end(n) {
        window_end(n, i)
    } else {
        fast_end(n)
    }
}

/// A window is no longer than the index can take. It reaches from as far
/// back as a match may start to at least as far ahead as a match may end,
/// unless it ends with the source.
pub proof fn lemma_window_size(n: int, i: int)
    requires
        0 <= i < n,
    ensures
        window_start(i) <= i < window_end(n, i) <= n,
        window_end(n, i) - window_start(i) <= WINDOW_SIZE,
        window_end(n, i) == n || window_end(n, i) - window_start(i) >= MAX_OFFSET
            + COPY_MAX_LENGTH,
{
}

/// The tokens in `acc` and behind them those that the encoder writes from
/// `i`, window by window, until it has reached `fast_end`.
pub open spec fn encode_windows(src: Seq<u8>, i: int, acc: Seq<Token>) -> (Seq<Token>, int)
    decreases
            (if i < src.len() {
                src.len() - i
            } else {
                0
            }),
{
    if i >= fast_end(src.len() as int) {
        (acc, i)
    } else {
        let span = encode_span(src, i, window_limit(src.len() as int, i), acc);
        if span.1 > i {
            encode_windows(src, span.1, span.0)
        } else {
            span
        }
    }
}

/// The tokens that the encoder writes for a source: a literal for the first
/// byte; then the tokens of the part where matches cannot reach the end,
/// window by window; then those of the rest but for the last byte; and a
/// literal for the last byte where no copy has covered it.
pub open spec fn chosen_tokens(src: Seq<u8>) -> Seq<Token> {
    let n = src.len() as int;
    let first = if n > 0 {
        (seq![Token::Literal { byte: src[0] }], 1int)
    } else {
        (Seq::<Token>::empty(), 0int)
    };
    let bulk = encode_windows(src, first.1, first.0);
    let tail = encode_span(src, bulk.1, n - 1, bulk.0);
    if tail.1 == n - 1 {
        tail.0.push(Token::Literal { byte: src[n - 1] })
    } else {
        tail.0
    }
}

/// The compressed form of a source.
pub open spec fn prs_compressed(src: Seq<u8>) -> Seq<u8> {
    serialize(chosen_tokens(src))
}

/// What the encoder has written never gets shorter while it goes through a
/// span.
pub proof fn lemma_span_grows(src: Seq<u8>, i: int, limit: int, acc: Seq<Token>)
    ensures
        written(acc).bytes.len() <= written(encode_span(src, i, limit, acc).0).bytes.len(),
    decreases
            (if i < limit {
                limit - i
            } else {
                0
            }),
{
    if i < limit {
        let token = token_at(src, i, limit);
        lemma_written_push(acc, token);
        lemma_span_grows(src, i + token.produced(), limit, acc.push(token));
    }
}

/// What the encoder has written never gets shorter while it goes through
/// the windows.
pub proof fn lemma_windows_grow(src: Seq<u8>, i: int, acc: Seq<Token>)
    ensures
        written(acc).bytes.len() <= written(encode_windows(src, i, acc).0).bytes.len(),
    decreases
            (if i < src.len() {
                src.len() - i
            } else {
                0
            }),
{
    if i < fast_end(src.len() as int) {
        let span = encode_span(src, i, window_limit(src.len() as int, i), acc);
        lemma_span_grows(src, i, window_limit(src.len() as int, i), acc);
        if span.1 > i {
            lemma_windows_grow(src, span.1, span.0);
        }
    }
}

/// The match that the encoder finds at a place behind the first byte and
/// in front of the last stands for a well-formed token that stays within
/// the source.
pub proof fn lemma_match_at(src: Seq<u8>, i: int)
    requires
        1 <= i,
        i + 1 < src.len(),
    ensures
        ({
            let found = match_at(src, i);
            let token = select_token(found.length, found.offset, src[i]);
            &&& token.well_formed()
            &&& 1 <= token.produced() <= src.len() - i
            &&& 0 <= found.length <= COPY_MAX_LENGTH
            &&& -MAX_OFFSET <= found.offset <= 0
        }),
{
    let cap = if COPY_MAX_LENGTH <= src.len() - i {
        COPY_MAX_LENGTH as int
    } else {
        src.len() - i
    };
    lemma_best_match_sound(src, i, search_start(i, MAX_OFFSET as int), search_last(i), cap);
}

/// Going through a span means writing the token at the place and going
/// through the rest of the span; what is written on the way fits into what
/// is written in the end.
pub proof fn lemma_span_step(src: Seq<u8>, i: int, limit: int, acc: Seq<Token>)
    requires
        i < limit,
    ensures
        encode_span(src, i, limit, acc) == encode_span(
            src,
            i + token_at(src, i, limit).produced(),
            limit,
            acc.push(token_at(src, i, limit)),
        ),
        written(acc.push(token_at(src, i, limit))) == written(acc).put_token(
            token_at(src, i, limit),
        ),
        written(acc.push(token_at(src, i, limit))).bytes.len() <= written(
            encode_span(src, i, limit, acc).0,
        ).bytes.len(),
{
    let token = token_at(src, i, limit);
    lemma_written_push(acc, token);
    lemma_span_grows(src, i + token.produced(), limit, acc.push(token));
}

/// A span ends at or behind its limit, and not in front of where it began.
pub proof fn lemma_span_reaches(src: Seq<u8>, i: int, limit: int, acc: Seq<Token>)
    requires
        1 <= i,
        limit < src.len(),
    ensures
        encode_span(src, i, limit, acc).1 >= limit,
        encode_span(src, i, limit, acc).1 >= i,
        encode_span(src, i, limit, acc).1 <= if i <= src.len() { src.len() as int } else { i },
    decreases
            (if i < limit {
                limit - i
            } else {
                0
            }),
{
    if i < limit {
        let token = token_at(src, i, limit);
        lemma_match_at(src, i);
        lemma_span_reaches(src, i + token.produced(), limit, acc.push(token));
    }
}

} // verus!
