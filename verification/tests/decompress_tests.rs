use prs_rs::decomp::{prs_calculate_decompressed_size, prs_decompress_unsafe, prs_validate};
use prs_rs::impls::decomp::decompress::prs_decompress;
use prs_rs::impls::decomp::estimate::prs_calculate_decompressed_size_impl;

fn decode(stream: &[u8]) -> Vec<u8> {
    let size = prs_validate(stream).unwrap();
    assert_eq!(prs_calculate_decompressed_size(stream), size);
    assert_eq!(prs_calculate_decompressed_size_impl(stream), size);
    let mut out = vec![0xEE_u8; size];
    assert_eq!(prs_decompress_unsafe(stream, &mut out), size);
    let mut direct = vec![0xEE_u8; size];
    assert_eq!(prs_decompress(stream, &mut direct), size);
    assert_eq!(out, direct);
    out
}

#[test]
fn terminator_alone_decodes_to_nothing() {
    assert_eq!(decode(&[0x02, 0x00, 0x00]), Vec::<u8>::new());
}

#[test]
fn literal_decodes_to_its_byte() {
    assert_eq!(decode(&[0x05, 0x41, 0x00, 0x00]), vec![0x41]);
}

#[test]
fn copy_longer_than_its_distance_repeats_what_it_writes() {
    // Literal 0x5A, then a long copy of ten bytes from one back.
    let stream = [0x15, 0x5A, 0xF8, 0xFF, 0x09, 0x00, 0x00];
    assert_eq!(decode(&stream), vec![0x5A; 11]);
    // Literals 1, 2, then a short copy of five bytes from two back.
    let stream = [0xB3, 0x01, 0x02, 0xFE, 0x00, 0x00];
    assert_eq!(decode(&stream), vec![1, 2, 1, 2, 1, 2, 1]);
}

#[test]
fn short_copy_lengths_and_offsets() {
    // Four literals, then a short copy with the length bits 00, 01, 10, 11 in turn.
    for (bits, length) in [(0u8, 2usize), (2, 3), (1, 4), (3, 5)] {
        // Bits 0..4 literals, 4..6 the opcode 00, bit 6 the high length bit and bit 7 the low.
        let high = bits & 1;
        let low = bits >> 1;
        let control = 0x0F | high << 6 | low << 7;
        let stream = [control, 10, 20, 30, 40, 0xFC, 0x02, 0x00, 0x00];
        let out = decode(&stream);
        let expected: Vec<u8> = [10u8, 20, 30, 40, 10, 20, 30, 40, 10][..4 + length].to_vec();
        assert_eq!(out, expected);
    }
}

#[test]
fn long_copy_with_length_in_the_word() {
    // Three literals, then a long copy of three bytes from three back: word (8192 - 3) * 8 + 1.
    let word: u16 = (8192 - 3) * 8 + 1;
    let stream = [0x57, 7, 8, 9, word as u8, (word >> 8) as u8, 0x00, 0x00];
    assert_eq!(decode(&stream), vec![7, 8, 9, 7, 8, 9]);
    // The same with the longest length of that form, nine.
    let word: u16 = (8192 - 3) * 8 + 7;
    let stream = [0x57, 7, 8, 9, word as u8, (word >> 8) as u8, 0x00, 0x00];
    assert_eq!(decode(&stream), vec![7, 8, 9, 7, 8, 9, 7, 8, 9, 7, 8, 9]);
}

#[test]
fn long_copy_with_extension_byte_may_have_length_one() {
    let word: u16 = (8192 - 1) * 8;
    let stream = [0x15, 7, word as u8, (word >> 8) as u8, 0x00, 0x00, 0x00];
    assert_eq!(decode(&stream), vec![7, 7]);
    let stream = [0x15, 7, word as u8, (word >> 8) as u8, 0xFF, 0x00, 0x00];
    assert_eq!(decode(&stream), vec![7; 257]);
}

#[test]
fn ninth_control_bit_comes_from_the_next_control_byte() {
    // Eight literals fill the first control byte; the second one sits behind the eighth literal.
    let stream = [0xFF, 1, 2, 3, 4, 5, 6, 7, 8, 0x05, 9, 0x00, 0x00];
    assert_eq!(decode(&stream), vec![1, 2, 3, 4, 5, 6, 7, 8, 9]);
}

#[test]
fn bytes_behind_the_terminator_are_ignored() {
    assert_eq!(decode(&[0x05, 0x41, 0x00, 0x00, 0xDE, 0xAD]), vec![0x41]);
}

#[test]
fn destination_behind_the_output_is_untouched() {
    let mut out = vec![0xEE_u8; 8];
    assert_eq!(prs_decompress_unsafe(&[0x05, 0x41, 0x00, 0x00], &mut out), 1);
    assert_eq!(out, vec![0x41, 0xEE, 0xEE, 0xEE, 0xEE, 0xEE, 0xEE, 0xEE]);
}

#[test]
fn validate_refuses_an_empty_source() {
    assert_eq!(prs_validate(&[]), None);
}

#[test]
fn validate_refuses_a_stream_without_terminator() {
    assert_eq!(prs_validate(&[0x05]), None);
    assert_eq!(prs_validate(&[0x05, 0x41]), None);
    assert_eq!(prs_validate(&[0x05, 0x41, 0x00]), None);
    assert_eq!(prs_validate(&[0x05, 0x41, 0x00, 0x00]), Some(1));
    // Eight literals and no second control byte.
    assert_eq!(prs_validate(&[0xFF, 1, 2, 3, 4, 5, 6, 7, 8]), None);
    // A short copy without its offset byte.
    assert_eq!(prs_validate(&[0x01, 9]), None);
    // A long copy without its extension byte.
    assert_eq!(prs_validate(&[0x05, 9, 0xF8, 0xFF]), None);
}

#[test]
fn validate_refuses_a_copy_from_before_the_start() {
    // A short copy from one back as the first token.
    assert_eq!(prs_validate(&[0x20, 0xFF, 0x00, 0x00]), None);
    // One literal, then a long copy from two back.
    let word: u16 = (8192 - 2) * 8 + 1;
    assert_eq!(prs_validate(&[0x15, 7, word as u8, (word >> 8) as u8, 0x00, 0x00]), None);
    // The same from one back is fine.
    let word: u16 = (8192 - 1) * 8 + 1;
    assert_eq!(prs_validate(&[0x15, 7, word as u8, (word >> 8) as u8, 0x00, 0x00]), Some(4));
}

#[test]
fn size_is_found_without_looking_at_offsets() {
    // A copy from before the start still has a length.
    assert_eq!(prs_calculate_decompressed_size(&[0x20, 0xFF, 0x00, 0x00]), 2);
}
