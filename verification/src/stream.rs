//! The layout of a compressed stream.
//!
//! A stream interleaves control bytes with payload bytes. A control byte
//! holds up to eight control bits, used from the lowest to the highest. The
//! place of a control byte is fixed when its first bit is needed: it sits at
//! the head of the stream at that moment, and payload goes on behind it.
//!
//! The layout is stated twice, once as a writer that appends tokens and once
//! as a reader that takes them off again. `lemma_parse_serialize` shows that
//! the two agree.

use crate::token::{expand, resolvable, total_produced, Token};
use vstd::prelude::*;

verus! {

/// `byte` with bit `k` set when `bit` holds.
pub open spec fn with_bit(byte: u8, k: u8, bit: bool) -> u8 {
    if bit {
        byte | (1u8 << k)
    } else {
        byte
    }
}

/// The bits of `byte` below bit `k`.
pub open spec fn low_bits(byte: u8, k: u8) -> u8 {
    if k >= 8 {
        byte
    } else {
        byte & (((1u8 << k) - 1) as u8)
    }
}

/// The packed word of a long copy: the thirteen bits of the offset above the
/// three bits of the length code.
pub open spec fn packed_word(offset: int, code: int) -> int {
    (offset + 8192) * 8 + code
}

/// State of the writer: what has been written, where the current control
/// byte sits, and how many of its bits are taken.
pub struct Writer {
    pub bytes: Seq<u8>,
    pub control: int,
    pub filled: int,
}

impl Writer {
    /// A fresh stream: one reserved control byte, none of its bits taken.
    pub open spec fn start() -> Writer {
        Writer { bytes: seq![0u8], control: 0, filled: 0 }
    }

    /// The control byte lies inside the stream and its free bits are zero.
    pub open spec fn well_formed(self) -> bool {
        &&& 0 <= self.control < self.bytes.len()
        &&& 0 <= self.filled <= 8
        &&& low_bits(self.bytes[self.control], self.filled as u8) == self.bytes[self.control]
    }

    /// Appends one control bit, reserving a new control byte at the head
    /// when the current one is full.
    pub open spec fn put_bit(self, bit: bool) -> Writer {
        if self.filled >= 8 {
            Writer {
                bytes: self.bytes.push(with_bit(0, 0, bit)),
                control: self.bytes.len() as int,
                filled: 1,
            }
        } else {
            Writer {
                bytes: self.bytes.update(
                    self.control,
                    with_bit(self.bytes[self.control], self.filled as u8, bit),
                ),
                control: self.control,
                filled: self.filled + 1,
            }
        }
    }

    /// Appends one payload byte.
    pub open spec fn put_byte(self, byte: u8) -> Writer {
        Writer { bytes: self.bytes.push(byte), control: self.control, filled: self.filled }
    }

    /// Appends a sixteen-bit word, low byte first.
    pub open spec fn put_word(self, word: int) -> Writer {
        self.put_byte((word % 256) as u8).put_byte((word / 256) as u8)
    }

    /// Appends a literal: the control bit 1 and the byte.
    pub open spec fn put_literal(self, byte: u8) -> Writer {
        self.put_bit(true).put_byte(byte)
    }

    /// Appends a short copy: the control bits 0 0, the two bits of the
    /// length less two with the higher first, and the low byte of the
    /// offset.
    pub open spec fn put_short_copy(self, length: int, offset: int) -> Writer {
        self.put_bit(false).put_bit(false).put_bit((length - 2) / 2 == 1).put_bit(
            (length - 2) % 2 == 1,
        ).put_byte((offset + 256) as u8)
    }

    /// Appends a long copy of three to nine bytes: the control bits 0 1 and
    /// the packed word with the length less two as its code.
    pub open spec fn put_long_copy_small(self, length: int, offset: int) -> Writer {
        self.put_bit(false).put_bit(true).put_word(packed_word(offset, length - 2))
    }

    /// Appends a long copy with an extension byte: the control bits 0 1,
    /// the packed word with the code zero, and the length less one.
    pub open spec fn put_long_copy_large(self, length: int, offset: int) -> Writer {
        self.put_bit(false).put_bit(true).put_word(packed_word(offset, 0)).put_byte(
            (length - 1) as u8,
        )
    }

    /// Appends one token.
    pub open spec fn put_token(self, token: Token) -> Writer {
        match token {
            Token::Literal { byte } => self.put_literal(byte),
            Token::ShortCopy { length, offset } => self.put_short_copy(length, offset),
            Token::LongCopySmall { length, offset } => self.put_long_copy_small(length, offset),
            Token::LongCopyLarge { length, offset } => self.put_long_copy_large(length, offset),
        }
    }

    /// Appends the terminator: the opcode of a long copy with a packed word
    /// of zero.
    pub open spec fn put_end(self) -> Writer {
        self.put_bit(false).put_bit(true).put_word(0)
    }
}

/// The writer after it has appended `tokens` to a fresh stream.
pub open spec fn written(tokens: Seq<Token>) -> Writer
    decreases tokens.len(),
{
    if tokens.len() == 0 {
        Writer::start()
    } else {
        written(tokens.drop_last()).put_token(tokens.last())
    }
}

/// The complete stream for `tokens`: the tokens, then the terminator.
pub open spec fn serialize(tokens: Seq<Token>) -> Seq<u8> {
    written(tokens).put_end().bytes
}

/// State of the reader: the next byte to read, the control byte shifted
/// right by the bits already used, and the number of bits used.
pub struct Reader {
    pub pos: int,
    pub control: u8,
    pub used: int,
}

/// What the reader finds at a token boundary.
pub enum Step {
    /// A token, and the reader behind it.
    Token(Reader, Token),
    /// The terminator, and the reader behind it.
    End(Reader),
    /// The stream ends inside the token.
    Truncated,
}

impl Reader {
    /// The reader at the start of a stream: the first byte is loaded as the
    /// control byte.
    pub open spec fn start(stream: Seq<u8>) -> Reader {
        Reader { pos: 1, control: stream[0], used: 0 }
    }

    /// Takes one control bit, loading the next control byte from the stream
    /// when the current one is used up.
    pub open spec fn take_bit(self, stream: Seq<u8>) -> Option<(Reader, bool)> {
        if self.used >= 8 {
            if 0 <= self.pos < stream.len() {
                Some(
                    (
                        Reader { pos: self.pos + 1, control: stream[self.pos] >> 1u8, used: 1 },
                        stream[self.pos] & 1 == 1,
                    ),
                )
            } else {
                None
            }
        } else {
            Some(
                (
                    Reader { pos: self.pos, control: self.control >> 1u8, used: self.used + 1 },
                    self.control & 1 == 1,
                ),
            )
        }
    }

    /// Takes one payload byte.
    pub open spec fn take_byte(self, stream: Seq<u8>) -> Option<(Reader, u8)> {
        if 0 <= self.pos < stream.len() {
            Some(
                (
                    Reader { pos: self.pos + 1, control: self.control, used: self.used },
                    stream[self.pos],
                ),
            )
        } else {
            None
        }
    }

    /// Takes a sixteen-bit word, low byte first.
    pub open spec fn take_word(self, stream: Seq<u8>) -> Option<(Reader, int)> {
        if 0 <= self.pos && self.pos + 1 < stream.len() {
            Some(
                (
                    Reader { pos: self.pos + 2, control: self.control, used: self.used },
                    stream[self.pos] as int + 256 * stream[self.pos + 1] as int,
                ),
            )
        } else {
            None
        }
    }

    /// Takes the rest of a short copy, behind its two opcode bits: two
    /// length bits, the higher first, and the low byte of the offset.
    pub open spec fn take_short_copy(self, stream: Seq<u8>) -> Step {
        match self.take_bit(stream) {
            None => Step::Truncated,
            Some((r1, high)) => match r1.take_bit(stream) {
                None => Step::Truncated,
                Some((r2, low)) => match r2.take_byte(stream) {
                    None => Step::Truncated,
                    Some((r3, byte)) => Step::Token(
                        r3,
                        Token::ShortCopy {
                            length: (if high { 2int } else { 0 }) + (if low { 1int } else { 0 }) + 2,
                            offset: byte as int - 256,
                        },
                    ),
                },
            },
        }
    }

    /// Takes the rest of a long copy or of the terminator, behind the two
    /// opcode bits: the packed word and, when its length code is zero, the
    /// extension byte.
    pub open spec fn take_long_copy(self, stream: Seq<u8>) -> Step {
        match self.take_word(stream) {
            None => Step::Truncated,
            Some((r1, word)) => if word == 0 {
                Step::End(r1)
            } else if word % 8 == 0 {
                match r1.take_byte(stream) {
                    None => Step::Truncated,
                    Some((r2, extension)) => Step::Token(
                        r2,
                        Token::LongCopyLarge {
                            length: extension as int + 1,
                            offset: word / 8 - 8192,
                        },
                    ),
                }
            } else {
                Step::Token(
                    r1,
                    Token::LongCopySmall { length: word % 8 + 2, offset: word / 8 - 8192 },
                )
            },
        }
    }

    /// Takes one token, or the terminator.
    pub open spec fn take_token(self, stream: Seq<u8>) -> Step {
        match self.take_bit(stream) {
            None => Step::Truncated,
            Some((r1, first)) => if first {
                match r1.take_byte(stream) {
                    None => Step::Truncated,
                    Some((r2, byte)) => Step::Token(r2, Token::Literal { byte }),
                }
            } else {
                match r1.take_bit(stream) {
                    None => Step::Truncated,
                    Some((r2, second)) => if second {
                        r2.take_long_copy(stream)
                    } else {
                        r2.take_short_copy(stream)
                    },
                }
            },
        }
    }
}

/// The tokens from the reader's place up to the terminator, behind those
/// in `acc`; `None` when the stream ends before a terminator.
pub open spec fn parse_from(stream: Seq<u8>, reader: Reader, acc: Seq<Token>) -> Option<
    Seq<Token>,
>
    decreases stream.len() - reader.pos,
{
    match reader.take_token(stream) {
        Step::Truncated => None,
        Step::End(_) => Some(acc),
        Step::Token(next, token) => if reader.pos < next.pos <= stream.len() {
            parse_from(stream, next, acc.push(token))
        } else {
            None
        },
    }
}

/// The tokens of a stream, up to its terminator. Bytes behind the
/// terminator are not looked at.
pub open spec fn parse(stream: Seq<u8>) -> Option<Seq<Token>> {
    if stream.len() == 0 {
        None
    } else {
        parse_from(stream, Reader::start(stream), Seq::empty())
    }
}

/// The stream has a terminator, and no copy in front of it reaches back past
/// the first byte of the output.
pub open spec fn prs_valid(stream: Seq<u8>) -> bool {
    parse(stream) is Some && resolvable(parse(stream).unwrap())
}

/// What a valid stream decompresses to.
pub open spec fn prs_decoded(stream: Seq<u8>) -> Seq<u8> {
    expand(parse(stream).unwrap())
}

/// How many bytes a stream with a terminator decompresses to.
pub open spec fn prs_decoded_size(stream: Seq<u8>) -> int {
    total_produced(parse(stream).unwrap())
}

} // verus!
