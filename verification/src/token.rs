//! Tokens: the units a compressed stream is made of, and what they decode to.

use vstd::prelude::*;

verus! {

/// Largest distance a long copy can reach back when it is encoded.
pub const MAX_OFFSET: usize = 0x1FFF;

/// Largest number of bytes a single copy can produce.
pub const COPY_MAX_LENGTH: usize = 0x100;

/// Largest distance a short copy can reach back.
pub const SHORT_COPY_MAX_OFFSET: usize = 0x100;

/// Largest number of bytes a short copy can produce.
pub const SHORT_COPY_MAX_LEN: usize = 5;

/// Smallest number of bytes a short copy can produce.
pub const SHORT_COPY_MIN_LEN: usize = 2;

/// One unit of a compressed stream.
///
/// Offsets are negative: a copy with offset `-d` starts `d` bytes before the
/// end of what has been produced so far.
pub enum Token {
    /// One raw byte.
    Literal { byte: u8 },
    /// A copy of two to five bytes from at most 256 bytes back.
    ShortCopy { length: int, offset: int },
    /// A copy of three to nine bytes whose length travels in the packed word.
    LongCopySmall { length: int, offset: int },
    /// A copy of one to 256 bytes whose length travels in an extension byte.
    LongCopyLarge { length: int, offset: int },
}

impl Token {
    /// The token's fields are within the ranges that the stream format can
    /// carry.
    pub open spec fn well_formed(self) -> bool {
        match self {
            Token::Literal { .. } => true,
            Token::ShortCopy { length, offset } => 2 <= length <= 5 && -256 <= offset <= -1,
            Token::LongCopySmall { length, offset } => 3 <= length <= 9 && -8192 <= offset <= -1,
            Token::LongCopyLarge { length, offset } => 1 <= length <= 256 && -8191 <= offset <= -1,
        }
    }

    /// Number of bytes the token adds to the output.
    pub open spec fn produced(self) -> int {
        match self {
            Token::Literal { .. } => 1,
            Token::ShortCopy { length, .. } => length,
            Token::LongCopySmall { length, .. } => length,
            Token::LongCopyLarge { length, .. } => length,
        }
    }

    /// How far back the token reads; zero for a literal.
    pub open spec fn distance(self) -> int {
        match self {
            Token::Literal { .. } => 0,
            Token::ShortCopy { offset, .. } => -offset,
            Token::LongCopySmall { offset, .. } => -offset,
            Token::LongCopyLarge { offset, .. } => -offset,
        }
    }

    /// Number of control bits the token occupies.
    pub open spec fn control_bits(self) -> int {
        match self {
            Token::Literal { .. } => 1,
            Token::ShortCopy { .. } => 4,
            Token::LongCopySmall { .. } => 2,
            Token::LongCopyLarge { .. } => 2,
        }
    }

    /// Number of payload bytes the token occupies.
    pub open spec fn payload_bytes(self) -> int {
        match self {
            Token::Literal { .. } => 1,
            Token::ShortCopy { .. } => 1,
            Token::LongCopySmall { .. } => 2,
            Token::LongCopyLarge { .. } => 3,
        }
    }

    /// The output after the token has been decoded onto `out`.
    pub open spec fn apply(self, out: Seq<u8>) -> Seq<u8> {
        match self {
            Token::Literal { byte } => out.push(byte),
            Token::ShortCopy { length, offset } => copy_back(out, offset, length),
            Token::LongCopySmall { length, offset } => copy_back(out, offset, length),
            Token::LongCopyLarge { length, offset } => copy_back(out, offset, length),
        }
    }
}

/// Appends `length` bytes to `out`, each one read `-offset` bytes before the
/// end of what has been produced at that moment. A copy longer than its
/// distance therefore repeats the bytes it has just written.
pub open spec fn copy_back(out: Seq<u8>, offset: int, length: int) -> Seq<u8>
    decreases length,
{
    if length <= 0 {
        out
    } else {
        copy_back(out.push(out[out.len() + offset]), offset, length - 1)
    }
}

/// The bytes that a token sequence decodes to.
pub open spec fn expand(tokens: Seq<Token>) -> Seq<u8>
    decreases tokens.len(),
{
    if tokens.len() == 0 {
        Seq::empty()
    } else {
        tokens.last().apply(expand(tokens.drop_last()))
    }
}

/// Total number of bytes that a token sequence decodes to.
pub open spec fn total_produced(tokens: Seq<Token>) -> int
    decreases tokens.len(),
{
    if tokens.len() == 0 {
        0
    } else {
        total_produced(tokens.drop_last()) + tokens.last().produced()
    }
}

/// Every token is within the ranges of the format.
pub open spec fn all_well_formed(tokens: Seq<Token>) -> bool {
    forall|i: int| 0 <= i < tokens.len() ==> (#[trigger] tokens[i]).well_formed()
}

/// No copy reaches back past the first byte of the output.
pub open spec fn resolvable(tokens: Seq<Token>) -> bool
    decreases tokens.len(),
{
    tokens.len() == 0 || (resolvable(tokens.drop_last()) && tokens.last().distance()
        <= total_produced(tokens.drop_last()))
}

/// A copy makes the output longer by its length.
pub proof fn lemma_copy_back_len(out: Seq<u8>, offset: int, length: int)
    ensures
        copy_back(out, offset, length).len() == out.len() + if length > 0 { length } else { 0 },
    decreases length,
{
    if length > 0 {
        lemma_copy_back_len(out.push(out[out.len() + offset]), offset, length - 1);
    }
}

/// A well-formed token makes the output longer by what it produces.
pub proof fn lemma_apply_len(token: Token, out: Seq<u8>)
    requires
        token.well_formed(),
    ensures
        token.apply(out).len() == out.len() + token.produced(),
{
    match token {
        Token::Literal { .. } => {},
        Token::ShortCopy { length, offset } => lemma_copy_back_len(out, offset, length),
        Token::LongCopySmall { length, offset } => lemma_copy_back_len(out, offset, length),
        Token::LongCopyLarge { length, offset } => lemma_copy_back_len(out, offset, length),
    }
}

/// The decoded bytes are as many as the tokens say they produce.
pub proof fn lemma_expand_len(tokens: Seq<Token>)
    requires
        all_well_formed(tokens),
    ensures
        expand(tokens).len() == total_produced(tokens),
    decreases tokens.len(),
{
    if tokens.len() > 0 {
        let front = tokens.drop_last();
        assert forall|i: int| 0 <= i < front.len() implies (#[trigger] front[i]).well_formed() by {
            assert(front[i] == tokens[i]);
        }
        lemma_expand_len(front);
        lemma_apply_len(tokens.last(), expand(front));
    }
}

/// What holds of a sequence holds of the sequence with one more token, once
/// it holds of that token.
pub proof fn lemma_push_well_formed(tokens: Seq<Token>, token: Token)
    requires
        all_well_formed(tokens),
        token.well_formed(),
    ensures
        all_well_formed(tokens.push(token)),
        expand(tokens.push(token)) == token.apply(expand(tokens)),
        total_produced(tokens.push(token)) == total_produced(tokens) + token.produced(),
        resolvable(tokens.push(token)) == (resolvable(tokens) && token.distance()
            <= total_produced(tokens)),
{
    let longer = tokens.push(token);
    assert(longer.drop_last() =~= tokens);
    assert(longer.last() == token);
    assert forall|i: int| 0 <= i < longer.len() implies (#[trigger] longer[i]).well_formed() by {
        if i < tokens.len() {
            assert(longer[i] == tokens[i]);
        }
    }
}

/// Every beginning of a resolvable sequence is resolvable.
pub proof fn lemma_resolvable_prefix(tokens: Seq<Token>, count: int)
    requires
        resolvable(tokens),
        0 <= count <= tokens.len(),
    ensures
        resolvable(tokens.take(count)),
    decreases tokens.len(),
{
    if count == tokens.len() {
        assert(tokens.take(count) =~= tokens);
    } else {
        lemma_resolvable_prefix(tokens.drop_last(), count);
        assert(tokens.drop_last().take(count) =~= tokens.take(count));
    }
}

} // verus!
