//! Reading a compressed stream: bytes, words and control bits.

use crate::stream::Reader;
use vstd::prelude::*;

verus! {

/// The reader that the state of a walk stands for.
pub open spec fn reader_view(pos: usize, control: u8, used: usize) -> Reader {
    Reader { pos: pos as int, control, used: used as int }
}

/// Reads one byte and moves behind it.
pub(crate) fn read_byte(source: &[u8], pos: &mut usize) -> (byte: u8)
    requires
        *old(pos) < source.len(),
    ensures
        *final(pos) == *old(pos) + 1,
        byte == source[*old(pos) as int],
{
    let byte = source[*pos];
    *pos = *pos + 1;
    byte
}

/// Reads a sixteen-bit word, low byte first, and moves behind it.
pub(crate) fn read_two_le(source: &[u8], pos: &mut usize) -> (word: usize)
    requires
        *old(pos) + 1 < source.len(),
    ensures
        *final(pos) == *old(pos) + 2,
        word == source[*old(pos) as int] as int + 256 * source[*old(pos) + 1] as int,
{
    let low = source[*pos] as usize;
    let high = source[*pos + 1] as usize;
    *pos = *pos + 2;
    low + 256 * high
}

/// Moves behind one byte without reading it.
pub(crate) fn advance_byte(source: &[u8], pos: &mut usize)
    requires
        *old(pos) < source.len(),
    ensures
        *final(pos) == *old(pos) + 1,
{
    *pos = *pos + 1;
}

/// Takes the next control bit. When the bits of the control byte are used
/// up, the next byte of the source is loaded as the control byte first.
pub(crate) fn retrieve_control_bit(
    control_byte: &mut u8,
    current_bit_position: &mut usize,
    source: &[u8],
    pos: &mut usize,
) -> (bit: u8)
    requires
        reader_view(*old(pos), *old(control_byte), *old(current_bit_position)).take_bit(
            source@,
        ) is Some,
    ensures
        bit <= 1,
        reader_view(*old(pos), *old(control_byte), *old(current_bit_position)).take_bit(source@)
            == Some(
            (reader_view(*final(pos), *final(control_byte), *final(current_bit_position)), bit == 1),
        ),
{
    if *current_bit_position >= 8 {
        *control_byte = read_byte(source, pos);
        *current_bit_position = 0;
    }
    let loaded = *control_byte;
    assert(loaded & 0x01 <= 1) by (bit_vector);
    let return_value = loaded & 0x01;
    *control_byte = loaded >> 1;
    *current_bit_position = *current_bit_position + 1;

    return_value
}

} // verus!
