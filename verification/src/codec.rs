//! The reader undoes the writer: parsing the stream that was written for a
//! token sequence gives the sequence back.

use crate::stream::{
    low_bits, packed_word, parse, parse_from, serialize, with_bit, written, Reader, Step, Writer,
};
use crate::token::{
    all_well_formed, expand, lemma_expand_len, lemma_push_well_formed, lemma_resolvable_prefix,
    resolvable, total_produced, Token,
};
use vstd::prelude::*;

verus! {

/// `stream` is what the writer's bytes may still become: it agrees with them
/// everywhere but in the free bits of the current control byte.
#[verifier::opaque]
spec fn refines(w: Writer, stream: Seq<u8>) -> bool {
    &&& w.bytes.len() <= stream.len()
    &&& forall|i: int| 0 <= i < w.bytes.len() && i != w.control ==> stream[i] == w.bytes[i]
    &&& low_bits(stream[w.control], w.filled as u8) == w.bytes[w.control]
}

/// The reader that has taken from `stream` what the writer has put.
spec fn reader_of(w: Writer, stream: Seq<u8>) -> Reader {
    Reader {
        pos: w.bytes.len() as int,
        control: if w.filled >= 8 {
            0u8
        } else {
            stream[w.control] >> (w.filled as u8)
        },
        used: w.filled,
    }
}

/// A byte whose bits from `k` on are free has, with bit `k` set or not, its
/// bits from `k + 1` on free.
proof fn lemma_with_bit(w: u8, k: u8, bit: bool)
    requires
        k < 8,
        low_bits(w, k) == w,
    ensures
        low_bits(with_bit(w, k, bit), (k + 1) as u8) == with_bit(w, k, bit),
{
    assert(k < 8 && (w & (((1u8 << k) - 1) as u8)) == w ==> {
        &&& (k + 1 < 8 ==> (w | (1u8 << k)) & (((1u8 << ((k + 1) as u8)) - 1) as u8) == (w | (1u8
            << k)))
        &&& (k + 1 < 8 ==> w & (((1u8 << ((k + 1) as u8)) - 1) as u8) == w)
    }) by (bit_vector);
}

/// A byte that agrees in its lowest `k + 1` bits with a byte that was given
/// bit `k` agrees in its lowest `k` bits with the byte before, and holds
/// the given bit at `k`.
proof fn lemma_agree(f: u8, w: u8, k: u8, bit: bool)
    requires
        k < 8,
        low_bits(w, k) == w,
        low_bits(f, (k + 1) as u8) == with_bit(w, k, bit),
    ensures
        low_bits(f, k) == w,
        ((f >> k) & 1 == 1) == bit,
        (f >> k) >> 1u8 == if k + 1 >= 8 { 0u8 } else { f >> ((k + 1) as u8) },
{
    assert(k < 8 && (w & (((1u8 << k) - 1) as u8)) == w && (if k + 1 < 8 {
        f & (((1u8 << ((k + 1) as u8)) - 1) as u8)
    } else {
        f
    }) == (if bit {
        w | (1u8 << k)
    } else {
        w
    }) ==> {
        &&& f & (((1u8 << k) - 1) as u8) == w
        &&& (((f >> k) & 1 == 1) <==> bit)
        &&& (f >> k) >> 1u8 == (if k + 1 >= 8 { 0u8 } else { f >> ((k + 1) as u8) })
    }) by (bit_vector);
}

/// Putting a bit keeps the writer well formed and makes the stream longer by
/// at most one byte.
pub proof fn lemma_put_bit_well_formed(w: Writer, bit: bool)
    requires
        w.well_formed(),
    ensures
        w.put_bit(bit).well_formed(),
        w.bytes.len() <= w.put_bit(bit).bytes.len() <= w.bytes.len() + 1,
        w.put_bit(bit).bytes.len() == w.bytes.len() + if w.filled >= 8 { 1int } else { 0 },
        w.put_bit(bit).filled == if w.filled >= 8 { 1int } else { w.filled + 1 },
{
    if w.filled >= 8 {
        assert(low_bits(0u8, 0u8) == 0u8) by (bit_vector);
        lemma_with_bit(0, 0, bit);
    } else {
        lemma_with_bit(w.bytes[w.control], w.filled as u8, bit);
    }
}

/// Putting a token keeps the writer well formed and never shortens the
/// stream.
pub proof fn lemma_put_token_well_formed(w: Writer, token: Token)
    requires
        w.well_formed(),
    ensures
        w.put_token(token).well_formed(),
        w.bytes.len() + token.payload_bytes() <= w.put_token(token).bytes.len(),
        w.put_token(token).bytes.len() <= w.bytes.len() + token.payload_bytes() + 1,
        8 * w.put_token(token).bytes.len() + w.put_token(token).filled == 8 * w.bytes.len()
            + w.filled + 8 * token.payload_bytes() + token.control_bits(),
{
    match token {
        Token::Literal { byte } => {
            lemma_put_bit_well_formed(w, true);
        },
        Token::ShortCopy { length, offset } => {
            let w1 = w.put_bit(false);
            let w2 = w1.put_bit(false);
            let w3 = w2.put_bit((length - 2) / 2 == 1);
            lemma_put_bit_well_formed(w, false);
            lemma_put_bit_well_formed(w1, false);
            lemma_put_bit_well_formed(w2, (length - 2) / 2 == 1);
            lemma_put_bit_well_formed(w3, (length - 2) % 2 == 1);
        },
        Token::LongCopySmall { length, offset } => {
            lemma_put_bit_well_formed(w, false);
            lemma_put_bit_well_formed(w.put_bit(false), true);
        },
        Token::LongCopyLarge { length, offset } => {
            lemma_put_bit_well_formed(w, false);
            lemma_put_bit_well_formed(w.put_bit(false), true);
        },
    }
}

/// Putting the terminator keeps the writer well formed and adds two payload
/// bytes and two control bits.
pub proof fn lemma_put_end_well_formed(w: Writer)
    requires
        w.well_formed(),
    ensures
        w.put_end().well_formed(),
        w.bytes.len() + 2 <= w.put_end().bytes.len() <= w.bytes.len() + 3,
        8 * w.put_end().bytes.len() + w.put_end().filled == 8 * w.bytes.len() + w.filled + 18,
        1 <= w.put_end().filled,
{
    lemma_put_bit_well_formed(w, false);
    lemma_put_bit_well_formed(w.put_bit(false), true);
}

/// The writer is well formed after any token sequence.
pub proof fn lemma_written_well_formed(tokens: Seq<Token>)
    ensures
        written(tokens).well_formed(),
        written(tokens).bytes.len() >= 1,
    decreases tokens.len(),
{
    if tokens.len() == 0 {
        assert(low_bits(0u8, 0u8) == 0u8) by (bit_vector);
    } else {
        lemma_written_well_formed(tokens.drop_last());
        lemma_put_token_well_formed(written(tokens.drop_last()), tokens.last());
    }
}

/// The sequence with one more token is written by putting that token.
pub proof fn lemma_written_push(tokens: Seq<Token>, token: Token)
    ensures
        written(tokens.push(token)) == written(tokens).put_token(token),
        written(tokens).bytes.len() <= written(tokens.push(token)).bytes.len(),
{
    assert(tokens.push(token).drop_last() =~= tokens);
    lemma_written_well_formed(tokens);
    lemma_put_token_well_formed(written(tokens), token);
}

/// Where the stream holds what the writer put for a bit, the reader takes
/// that bit.
proof fn lemma_read_bit(w: Writer, bit: bool, stream: Seq<u8>)
    requires
        w.well_formed(),
        refines(w.put_bit(bit), stream),
    ensures
        refines(w, stream),
        w.put_bit(bit).bytes.len() <= stream.len(),
        reader_of(w, stream).take_bit(stream) == Some((reader_of(w.put_bit(bit), stream), bit)),
{
    reveal(refines);
    let next = w.put_bit(bit);
    if w.filled >= 8 {
        let at = w.bytes.len() as int;
        assert(low_bits(0u8, 0u8) == 0u8) by (bit_vector);
        lemma_agree(stream[at], 0, 0, bit);
        let loaded = stream[at];
        assert(loaded >> 0u8 == loaded) by (bit_vector);
        assert forall|i: int| 0 <= i < w.bytes.len() && i != w.control implies stream[i]
            == w.bytes[i] by {
            assert(next.bytes[i] == w.bytes[i]);
        }
        assert(stream[w.control] == next.bytes[w.control]);
    } else {
        lemma_agree(stream[w.control], w.bytes[w.control], w.filled as u8, bit);
        assert forall|i: int| 0 <= i < w.bytes.len() && i != w.control implies stream[i]
            == w.bytes[i] by {
            assert(next.bytes[i] == w.bytes[i]);
        }
    }
}

/// Where the stream holds what the writer put for a byte, the reader takes
/// that byte.
proof fn lemma_read_byte(w: Writer, byte: u8, stream: Seq<u8>)
    requires
        w.well_formed(),
        refines(w.put_byte(byte), stream),
    ensures
        refines(w, stream),
        w.put_byte(byte).well_formed(),
        w.put_byte(byte).bytes.len() <= stream.len(),
        reader_of(w, stream).take_byte(stream) == Some((reader_of(w.put_byte(byte), stream), byte)),
{
    reveal(refines);
    let next = w.put_byte(byte);
    assert(next.bytes[w.bytes.len() as int] == byte);
    assert forall|i: int| 0 <= i < w.bytes.len() && i != w.control implies stream[i]
        == w.bytes[i] by {
        assert(next.bytes[i] == w.bytes[i]);
    }
    assert(next.bytes[w.control] == w.bytes[w.control]);
}

/// Where the stream holds what the writer put for a word, the reader takes
/// that word.
proof fn lemma_read_word(w: Writer, word: int, stream: Seq<u8>)
    requires
        w.well_formed(),
        0 <= word < 65536,
        refines(w.put_word(word), stream),
    ensures
        refines(w, stream),
        w.put_word(word).well_formed(),
        reader_of(w, stream).take_word(stream) == Some((reader_of(w.put_word(word), stream), word)),
{
    let w1 = w.put_byte((word % 256) as u8);
    lemma_read_byte(w1, (word / 256) as u8, stream);
    lemma_read_byte(w, (word % 256) as u8, stream);
}

/// Where the stream holds what the writer put for a literal, the reader
/// takes that literal.
proof fn lemma_read_literal(w: Writer, byte: u8, stream: Seq<u8>)
    requires
        w.well_formed(),
        refines(w.put_literal(byte), stream),
    ensures
        refines(w, stream),
        w.put_literal(byte).bytes.len() <= stream.len(),
        reader_of(w, stream).take_token(stream) == Step::Token(
            reader_of(w.put_literal(byte), stream),
            Token::Literal { byte },
        ),
{
    let w1 = w.put_bit(true);
    lemma_put_bit_well_formed(w, true);
    lemma_read_byte(w1, byte, stream);
    lemma_read_bit(w, true, stream);
}

/// Where the stream holds what the writer put for a short copy, the reader
/// takes that copy.
proof fn lemma_read_short_copy(w: Writer, length: int, offset: int, stream: Seq<u8>)
    requires
        w.well_formed(),
        2 <= length <= 5,
        -256 <= offset <= -1,
        refines(w.put_short_copy(length, offset), stream),
    ensures
        refines(w, stream),
        w.put_short_copy(length, offset).bytes.len() <= stream.len(),
        reader_of(w, stream).take_token(stream) == Step::Token(
            reader_of(w.put_short_copy(length, offset), stream),
            Token::ShortCopy { length, offset },
        ),
{
    let high = (length - 2) / 2 == 1;
    let low = (length - 2) % 2 == 1;
    let w1 = w.put_bit(false);
    let w2 = w1.put_bit(false);
    let w3 = w2.put_bit(high);
    let w4 = w3.put_bit(low);
    lemma_put_bit_well_formed(w, false);
    lemma_put_bit_well_formed(w1, false);
    lemma_put_bit_well_formed(w2, high);
    lemma_put_bit_well_formed(w3, low);
    lemma_read_byte(w4, (offset + 256) as u8, stream);
    lemma_read_bit(w3, low, stream);
    lemma_read_bit(w2, high, stream);
    lemma_read_bit(w1, false, stream);
    lemma_read_bit(w, false, stream);
    assert(reader_of(w2, stream).take_short_copy(stream) == Step::Token(
        reader_of(w.put_short_copy(length, offset), stream),
        Token::ShortCopy { length, offset },
    ));
}

/// Where the stream holds what the writer put for a long copy with its
/// length in the packed word, the reader takes that copy.
proof fn lemma_read_long_copy_small(w: Writer, length: int, offset: int, stream: Seq<u8>)
    requires
        w.well_formed(),
        3 <= length <= 9,
        -8192 <= offset <= -1,
        refines(w.put_long_copy_small(length, offset), stream),
    ensures
        refines(w, stream),
        w.put_long_copy_small(length, offset).bytes.len() <= stream.len(),
        reader_of(w, stream).take_token(stream) == Step::Token(
            reader_of(w.put_long_copy_small(length, offset), stream),
            Token::LongCopySmall { length, offset },
        ),
{
    let w1 = w.put_bit(false);
    let w2 = w1.put_bit(true);
    let word = packed_word(offset, length - 2);
    lemma_put_bit_well_formed(w, false);
    lemma_put_bit_well_formed(w1, true);
    lemma_read_word(w2, word, stream);
    lemma_read_bit(w1, true, stream);
    lemma_read_bit(w, false, stream);
    assert(reader_of(w2, stream).take_long_copy(stream) == Step::Token(
        reader_of(w.put_long_copy_small(length, offset), stream),
        Token::LongCopySmall { length, offset },
    ));
}

/// Where the stream holds what the writer put for a long copy with an
/// extension byte, the reader takes that copy.
proof fn lemma_read_long_copy_large(w: Writer, length: int, offset: int, stream: Seq<u8>)
    requires
        w.well_formed(),
        1 <= length <= 256,
        -8191 <= offset <= -1,
        refines(w.put_long_copy_large(length, offset), stream),
    ensures
        refines(w, stream),
        w.put_long_copy_large(length, offset).bytes.len() <= stream.len(),
        reader_of(w, stream).take_token(stream) == Step::Token(
            reader_of(w.put_long_copy_large(length, offset), stream),
            Token::LongCopyLarge { length, offset },
        ),
{
    let w1 = w.put_bit(false);
    let w2 = w1.put_bit(true);
    let word = packed_word(offset, 0);
    let w3 = w2.put_word(word);
    lemma_put_bit_well_formed(w, false);
    lemma_put_bit_well_formed(w1, true);
    lemma_read_byte(w3, (length - 1) as u8, stream);
    lemma_read_word(w2, word, stream);
    lemma_read_bit(w1, true, stream);
    lemma_read_bit(w, false, stream);
    assert(reader_of(w2, stream).take_long_copy(stream) == Step::Token(
        reader_of(w.put_long_copy_large(length, offset), stream),
        Token::LongCopyLarge { length, offset },
    ));
}

/// Where the stream holds what the writer put for a token, the reader takes
/// that token.
proof fn lemma_read_token(w: Writer, token: Token, stream: Seq<u8>)
    requires
        w.well_formed(),
        token.well_formed(),
        refines(w.put_token(token), stream),
    ensures
        refines(w, stream),
        w.put_token(token).bytes.len() <= stream.len(),
        reader_of(w, stream).take_token(stream) == Step::Token(
            reader_of(w.put_token(token), stream),
            token,
        ),
{
    match token {
        Token::Literal { byte } => lemma_read_literal(w, byte, stream),
        Token::ShortCopy { length, offset } => lemma_read_short_copy(w, length, offset, stream),
        Token::LongCopySmall { length, offset } => lemma_read_long_copy_small(
            w,
            length,
            offset,
            stream,
        ),
        Token::LongCopyLarge { length, offset } => lemma_read_long_copy_large(
            w,
            length,
            offset,
            stream,
        ),
    }
}

/// Where the stream holds what the writer put for the terminator, the reader
/// finds the terminator.
proof fn lemma_read_end(w: Writer, stream: Seq<u8>)
    requires
        w.well_formed(),
        refines(w.put_end(), stream),
    ensures
        refines(w, stream),
        reader_of(w, stream).take_token(stream) == Step::End(reader_of(w.put_end(), stream)),
{
    let w1 = w.put_bit(false);
    let w2 = w1.put_bit(true);
    lemma_put_bit_well_formed(w, false);
    lemma_put_bit_well_formed(w1, true);
    lemma_read_word(w2, 0, stream);
    lemma_read_bit(w1, true, stream);
    lemma_read_bit(w, false, stream);
}

/// From behind the first `count` tokens of its stream, the reader takes
/// the rest of the tokens.
proof fn lemma_parse_behind(tokens: Seq<Token>, count: int)
    requires
        all_well_formed(tokens),
        0 <= count <= tokens.len(),
    ensures
        refines(written(tokens.take(count)), serialize(tokens)),
        parse_from(
            serialize(tokens),
            reader_of(written(tokens.take(count)), serialize(tokens)),
            tokens.take(count),
        ) == Some(tokens),
    decreases tokens.len() - count,
{
    let stream = serialize(tokens);
    let w = written(tokens.take(count));
    lemma_written_well_formed(tokens.take(count));
    if count == tokens.len() {
        assert(tokens.take(count) =~= tokens);
        lemma_put_end_well_formed(w);
        assert(refines(w.put_end(), stream)) by {
            reveal(refines);
        }
        lemma_read_end(w, stream);
    } else {
        let longer = tokens.take(count + 1);
        assert(longer.drop_last() =~= tokens.take(count));
        assert(longer.last() == tokens[count]);
        assert(tokens.take(count).push(tokens[count]) =~= longer);
        lemma_parse_behind(tokens, count + 1);
        lemma_read_token(w, tokens[count], stream);
        lemma_put_token_well_formed(w, tokens[count]);
    }
}

/// Parsing the stream that was written for a token sequence gives the
/// sequence back.
pub proof fn lemma_parse_serialize(tokens: Seq<Token>)
    requires
        all_well_formed(tokens),
    ensures
        parse(serialize(tokens)) == Some(tokens),
{
    lemma_parse_behind(tokens, 0);
    assert(tokens.take(0) =~= Seq::<Token>::empty());
    let stream = serialize(tokens);
    lemma_written_well_formed(tokens);
    lemma_put_end_well_formed(written(tokens));
    let first = stream[0];
    assert(first >> 0u8 == first) by (bit_vector);
}

/// A token that the reader takes is well formed, and the reader has moved
/// on by at least one byte and not past the end of the stream.
pub proof fn lemma_take_token_sound(stream: Seq<u8>, reader: Reader)
    requires
        0 <= reader.pos,
    ensures
        match reader.take_token(stream) {
            Step::Token(next, token) => token.well_formed() && reader.pos < next.pos
                <= stream.len(),
            Step::End(next) => reader.pos < next.pos <= stream.len(),
            Step::Truncated => true,
        },
{
}

/// What is parsed begins with what had been parsed before, and is well
/// formed where that was.
pub proof fn lemma_parse_from_extends(stream: Seq<u8>, reader: Reader, acc: Seq<Token>)
    requires
        0 <= reader.pos,
        parse_from(stream, reader, acc) is Some,
        all_well_formed(acc),
    ensures
        acc.len() <= parse_from(stream, reader, acc).unwrap().len(),
        parse_from(stream, reader, acc).unwrap().take(acc.len() as int) == acc,
        all_well_formed(parse_from(stream, reader, acc).unwrap()),
    decreases stream.len() - reader.pos,
{
    lemma_take_token_sound(stream, reader);
    match reader.take_token(stream) {
        Step::Token(next, token) => {
            lemma_push_well_formed(acc, token);
            lemma_parse_from_extends(stream, next, acc.push(token));
            let all = parse_from(stream, reader, acc).unwrap();
            assert(all.take(acc.len() as int) =~= all.take(acc.len() as int + 1).take(acc.len() as int));
            assert(acc.push(token).take(acc.len() as int) =~= acc);
        },
        Step::End(_) => {
            assert(acc.take(acc.len() as int) =~= acc);
        },
        Step::Truncated => {},
    }
}

/// The tokens of a stream are well formed.
pub proof fn lemma_parse_well_formed(stream: Seq<u8>)
    requires
        parse(stream) is Some,
    ensures
        all_well_formed(parse(stream).unwrap()),
{
    lemma_parse_from_extends(stream, Reader::start(stream), Seq::empty());
}

/// The first tokens of a well-formed sequence produce no more than all of
/// them.
pub proof fn lemma_total_produced_prefix(tokens: Seq<Token>, count: int)
    requires
        all_well_formed(tokens),
        0 <= count <= tokens.len(),
    ensures
        0 <= total_produced(tokens.take(count)) <= total_produced(tokens),
    decreases tokens.len() - count,
{
    if count == tokens.len() {
        assert(tokens.take(count) =~= tokens);
        lemma_expand_len(tokens);
    } else {
        lemma_total_produced_prefix(tokens, count + 1);
        let longer = tokens.take(count + 1);
        assert(longer.drop_last() =~= tokens.take(count));
        assert(longer.last() == tokens[count]);
        assert(tokens[count].well_formed());
        assert forall|i: int| 0 <= i < count implies (#[trigger] tokens.take(count)[i]).well_formed() by {
            assert(tokens.take(count)[i] == tokens[i]);
        }
        lemma_expand_len(tokens.take(count));
    }
}

/// One step of walking a stream whose tokens are `all`: the token that the
/// reader takes is the next of them, it is well formed, and the output has
/// room for it.
pub proof fn lemma_walk_step(
    stream: Seq<u8>,
    reader: Reader,
    next: Reader,
    token: Token,
    acc: Seq<Token>,
    all: Seq<Token>,
)
    requires
        0 <= reader.pos,
        parse_from(stream, reader, acc) == Some(all),
        reader.take_token(stream) == Step::Token(next, token),
        all_well_formed(acc),
    ensures
        parse_from(stream, next, acc.push(token)) == Some(all),
        reader.pos < next.pos <= stream.len(),
        token.well_formed(),
        all_well_formed(acc.push(token)),
        all_well_formed(all),
        expand(acc.push(token)) == token.apply(expand(acc)),
        total_produced(acc.push(token)) == total_produced(acc) + token.produced(),
        0 <= total_produced(acc),
        total_produced(acc) + token.produced() <= total_produced(all),
        resolvable(all) ==> token.distance() <= total_produced(acc),
{
    lemma_take_token_sound(stream, reader);
    lemma_push_well_formed(acc, token);
    let longer = acc.push(token);
    lemma_parse_from_extends(stream, next, longer);
    lemma_total_produced_prefix(all, longer.len() as int);
    lemma_expand_len(acc);
    if resolvable(all) {
        lemma_resolvable_prefix(all, longer.len() as int);
    }
}

/// The end of walking a stream whose tokens are `all`: when the reader
/// finds the terminator, all tokens have been taken.
pub proof fn lemma_walk_end(
    stream: Seq<u8>,
    reader: Reader,
    next: Reader,
    acc: Seq<Token>,
    all: Seq<Token>,
)
    requires
        parse_from(stream, reader, acc) == Some(all),
        reader.take_token(stream) == Step::End(next),
    ensures
        acc == all,
{
}

} // verus!
