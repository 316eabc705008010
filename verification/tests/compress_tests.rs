use prs_rs::comp::prs_compress_unsafe;
use prs_rs::decomp::{prs_calculate_decompressed_size, prs_decompress_unsafe, prs_validate};
use prs_rs::impls::comp::compress::prs_compress;
use prs_rs::util::prs_calculate_max_compressed_size;

/// A token as it stands in a stream, read back for the tests.
#[derive(Debug, PartialEq, Clone, Copy)]
enum Seen {
    Literal(u8),
    ShortCopy(usize, isize),
    LongCopySmall(usize, isize),
    LongCopyLarge(usize, isize),
}

/// Reads the tokens of a stream up to its terminator, and says how many
/// bytes the stream has up to and with the terminator.
fn tokens_of(stream: &[u8]) -> (Vec<Seen>, usize) {
    let mut tokens = Vec::new();
    let mut pos = 1;
    let mut control = stream[0];
    let mut used = 0;
    let mut bit = |pos: &mut usize| -> bool {
        if used == 8 {
            control = stream[*pos];
            *pos += 1;
            used = 0;
        }
        let value = control & 1 == 1;
        control >>= 1;
        used += 1;
        value
    };
    loop {
        if bit(&mut pos) {
            tokens.push(Seen::Literal(stream[pos]));
            pos += 1;
        } else if bit(&mut pos) {
            let word = stream[pos] as usize | (stream[pos + 1] as usize) << 8;
            pos += 2;
            if word == 0 {
                return (tokens, pos);
            }
            let offset = (word >> 3) as isize - 0x2000;
            if word & 7 == 0 {
                tokens.push(Seen::LongCopyLarge(stream[pos] as usize + 1, offset));
                pos += 1;
            } else {
                tokens.push(Seen::LongCopySmall((word & 7) + 2, offset));
            }
        } else {
            let high = bit(&mut pos) as usize;
            let low = bit(&mut pos) as usize;
            tokens.push(Seen::ShortCopy(high * 2 + low + 2, stream[pos] as isize - 0x100));
            pos += 1;
        }
    }
}

fn compress(data: &[u8]) -> Vec<u8> {
    let mut buf = vec![0xAA_u8; prs_calculate_max_compressed_size(data.len()) + 1];
    let written = prs_compress_unsafe(data, data.len(), &mut buf);
    for byte in &buf[written..] {
        assert_eq!(*byte, 0xAA);
    }
    buf.truncate(written);
    buf
}

fn decompress(stream: &[u8]) -> Vec<u8> {
    let size = prs_calculate_decompressed_size(stream);
    let mut out = vec![0x55_u8; size + 3];
    let written = prs_decompress_unsafe(stream, &mut out);
    assert_eq!(written, size);
    assert_eq!(&out[size..], &[0x55, 0x55, 0x55]);
    out.truncate(size);
    out
}

fn round_trips(data: &[u8]) -> Vec<u8> {
    let compressed = compress(data);
    assert_eq!(prs_validate(&compressed), Some(data.len()));
    assert_eq!(prs_calculate_decompressed_size(&compressed), data.len());
    assert_eq!(decompress(&compressed), data);
    let (_, length) = tokens_of(&compressed);
    assert_eq!(length, compressed.len());
    compressed
}

fn noise(len: usize, letters: u32, seed: u32) -> Vec<u8> {
    let mut state = seed;
    let mut data = Vec::with_capacity(len);
    for _ in 0..len {
        state = state.wrapping_mul(1664525).wrapping_add(1013904223);
        data.push(((state >> 24) % letters) as u8);
    }
    data
}

#[test]
fn empty_input_is_terminator_only() {
    let compressed = round_trips(&[]);
    assert_eq!(compressed, vec![0x02, 0x00, 0x00]);
    assert_eq!(compressed.len(), prs_calculate_max_compressed_size(0));
}

#[test]
fn single_byte_is_literal_then_terminator() {
    let compressed = round_trips(&[0x41]);
    assert_eq!(compressed, vec![0x05, 0x41, 0x00, 0x00]);
    assert_eq!(compressed[0] & 1, 1);
    assert_eq!(tokens_of(&compressed).0, vec![Seen::Literal(0x41)]);
    assert_eq!(decompress(&compressed).len(), 1);
}

#[test]
fn two_bytes_are_two_literals() {
    let compressed = round_trips(&[0x41, 0x41]);
    assert_eq!(compressed, vec![0x0B, 0x41, 0x41, 0x00, 0x00]);
}

#[test]
fn four_equal_bytes_use_a_short_copy() {
    let compressed = round_trips(&[0x41, 0x41, 0x41, 0x41]);
    assert_eq!(tokens_of(&compressed).0, vec![Seen::Literal(0x41), Seen::ShortCopy(3, -1)]);
    assert_eq!(compressed, vec![0x51, 0x41, 0xFF, 0x00, 0x00]);
    assert_eq!(decompress(&compressed), vec![0x41; 4]);
}

#[test]
fn abcabc_copies_three_from_three_back() {
    let compressed = round_trips(b"abcabc");
    assert_eq!(
        tokens_of(&compressed).0,
        vec![
            Seen::Literal(b'a'),
            Seen::Literal(b'b'),
            Seen::Literal(b'c'),
            Seen::ShortCopy(3, -3)
        ]
    );
    assert_eq!(compressed, vec![0x47, b'a', b'b', b'c', 0xFD, 0x01, 0x00, 0x00]);
}

#[test]
fn ten_repeated_bytes_need_the_extension_byte() {
    let compressed = round_trips(b"abcdefghijabcdefghij");
    let mut expected = Vec::new();
    for byte in b"abcdefghij" {
        expected.push(Seen::Literal(*byte));
    }
    expected.push(Seen::LongCopyLarge(10, -10));
    assert_eq!(tokens_of(&compressed).0, expected);
    assert_eq!(
        compressed,
        vec![
            0xFF, b'a', b'b', b'c', b'd', b'e', b'f', b'g', b'h', 0x2B, b'i', b'j', 0xB0, 0xFF,
            0x09, 0x00, 0x00
        ]
    );
}

#[test]
fn nine_repeated_bytes_fit_the_packed_word() {
    let compressed = round_trips(b"abcdefghiabcdefghi");
    let tokens = tokens_of(&compressed).0;
    assert_eq!(tokens.len(), 10);
    assert_eq!(tokens[9], Seen::LongCopySmall(9, -9));
}

#[test]
fn three_hundred_equal_bytes() {
    let data = vec![0x77_u8; 300];
    let compressed = round_trips(&data);
    assert_eq!(
        tokens_of(&compressed).0,
        vec![
            Seen::Literal(0x77),
            Seen::LongCopyLarge(256, -1),
            Seen::LongCopyLarge(43, -1)
        ]
    );
    assert_eq!(
        compressed,
        vec![0x55, 0x77, 0xF8, 0xFF, 0xFF, 0xF8, 0xFF, 0x2A, 0x00, 0x00]
    );
}

#[test]
fn seven_zeros() {
    let compressed = round_trips(&[0x00; 7]);
    assert_eq!(
        tokens_of(&compressed).0,
        vec![Seen::Literal(0), Seen::LongCopySmall(6, -1)]
    );
    assert_eq!(compressed, vec![0x15, 0x00, 0xFC, 0xFF, 0x00, 0x00]);
}

#[test]
fn six_zeros_use_a_short_copy_of_five() {
    let compressed = round_trips(&[0x00; 6]);
    assert_eq!(tokens_of(&compressed).0, vec![Seen::Literal(0), Seen::ShortCopy(5, -1)]);
}

#[test]
fn short_copy_reaches_256_back_and_no_further() {
    // Four bytes that stand 256 back: a short copy.
    let mut data = b"WXYZ".to_vec();
    data.extend(noise(252, 200, 1).iter().map(|b| b.wrapping_add(1) | 0x80));
    data.extend_from_slice(b"WXYZ");
    let compressed = round_trips(&data);
    assert_eq!(*tokens_of(&compressed).0.last().unwrap(), Seen::ShortCopy(4, -256));

    // The same 257 back: a long copy.
    let mut data = b"WXYZ".to_vec();
    data.extend(noise(253, 200, 1).iter().map(|b| b.wrapping_add(1) | 0x80));
    data.extend_from_slice(b"WXYZ");
    let compressed = round_trips(&data);
    assert_eq!(*tokens_of(&compressed).0.last().unwrap(), Seen::LongCopySmall(4, -257));
}

#[test]
fn match_of_two_far_back_is_written_as_literals() {
    // "WX" stands 300 back: too far for a short copy, too short for a long one.
    let mut data = b"WX".to_vec();
    data.extend(noise(298, 200, 2).iter().map(|b| b.wrapping_add(1) | 0x80));
    data.extend_from_slice(b"WX");
    let compressed = round_trips(&data);
    let tokens = tokens_of(&compressed).0;
    assert_eq!(tokens[tokens.len() - 2], Seen::Literal(b'W'));
    assert_eq!(tokens[tokens.len() - 1], Seen::Literal(b'X'));
}

#[test]
fn longer_match_at_the_next_place_is_preferred() {
    // At 'a' of "abcde" the match "ab" is two long; one place on, "bcde" is four long.
    let data = b"bcdeXabYabcde";
    let compressed = round_trips(data);
    let tokens = tokens_of(&compressed).0;
    assert_eq!(tokens.len(), 10);
    assert_eq!(tokens[8], Seen::Literal(b'a'));
    assert_eq!(tokens[9], Seen::ShortCopy(4, -9));

    // Without the longer match behind it, the match of two is taken.
    let data = b"bcdeXabYabQRS";
    let compressed = round_trips(data);
    let tokens = tokens_of(&compressed).0;
    assert_eq!(tokens[8], Seen::ShortCopy(2, -3));
}

#[test]
fn one_mebibyte_of_equal_bytes_is_a_chain_of_full_copies() {
    let data = vec![0xE7_u8; 1 << 20];
    let compressed = compress(&data);
    assert_eq!(compressed.len(), 13316);
    let (tokens, length) = tokens_of(&compressed);
    assert_eq!(length, compressed.len());
    assert_eq!(tokens.len(), 4097);
    assert_eq!(tokens[0], Seen::Literal(0xE7));
    for token in &tokens[1..4096] {
        assert_eq!(*token, Seen::LongCopyLarge(256, -1));
    }
    assert_eq!(tokens[4096], Seen::LongCopyLarge(255, -1));
    assert_eq!(prs_calculate_decompressed_size(&compressed), data.len());
    assert_eq!(decompress(&compressed), data);
}

#[test]
fn run_at_the_tail_decodes_to_itself() {
    for pairs in 1..300 {
        let mut data = Vec::new();
        for _ in 0..pairs {
            data.extend_from_slice(b"AB");
        }
        round_trips(&data);
        // The same with one byte more and one byte less.
        data.push(b'A');
        round_trips(&data);
        data.truncate(data.len() - 2);
        round_trips(&data);
    }
}

#[test]
fn every_short_length_round_trips() {
    for len in 0..64 {
        round_trips(&noise(len, 256, 7 + len as u32));
        round_trips(&noise(len, 2, 7 + len as u32));
        round_trips(&vec![0x11; len]);
    }
}

#[test]
fn lengths_around_the_fast_end_round_trip() {
    for len in 250..270 {
        round_trips(&noise(len, 3, len as u32));
        round_trips(&vec![0x22; len]);
    }
    for len in [511, 512, 513, 8190, 8191, 8192, 8193, 8447, 8448, 8449] {
        round_trips(&noise(len, 4, len as u32));
    }
}

#[test]
fn several_windows_round_trip() {
    // Longer than two windows, with matches across the places where the index is built again.
    let mut data = noise(150_000, 5, 99);
    let early = data[100..5000].to_vec();
    data[60_000..64_900].copy_from_slice(&early);
    let again = data[65_000..65_600].to_vec();
    data[65_600..66_200].copy_from_slice(&again);
    round_trips(&data);
    round_trips(&noise(70_000, 256, 3));
    round_trips(&vec![0u8; 131_070]);
}

#[test]
fn matches_reach_8191_back_and_no_further() {
    let mut data = b"0123456789ABCDEF".to_vec();
    data.extend(noise(8191 - 16, 100, 5).iter().map(|b| b | 0x80));
    data.extend_from_slice(b"0123456789ABCDEF");
    data.extend(noise(300, 100, 6).iter().map(|b| b | 0x80));
    let compressed = round_trips(&data);
    assert!(tokens_of(&compressed).0.contains(&Seen::LongCopyLarge(16, -8191)));

    let mut data = b"0123456789ABCDEF".to_vec();
    data.extend(noise(8192 - 16, 100, 5).iter().map(|b| b | 0x80));
    data.extend_from_slice(b"0123456789ABCDEF");
    data.extend(noise(300, 100, 6).iter().map(|b| b | 0x80));
    let compressed = round_trips(&data);
    for token in tokens_of(&compressed).0 {
        match token {
            Seen::Literal(_) => {}
            Seen::ShortCopy(_, offset)
            | Seen::LongCopySmall(_, offset)
            | Seen::LongCopyLarge(_, offset) => assert!(offset >= -8191),
        }
    }
}

#[test]
fn compressed_size_stays_within_the_bound() {
    for len in 0..200 {
        let data = noise(len, 256, 1000 + len as u32);
        let compressed = compress(&data);
        if len % 8 != 7 {
            assert!(compressed.len() <= prs_calculate_max_compressed_size(len));
        }
        assert!(compressed.len() <= prs_calculate_max_compressed_size(len) + 1);
        let data = noise(len, 2, 1000 + len as u32);
        let compressed = compress(&data);
        assert!(compressed.len() <= prs_calculate_max_compressed_size(len));
    }
}

#[test]
fn seven_distinct_bytes_take_one_byte_more_than_the_bound() {
    let compressed = round_trips(b"abcdefg");
    assert_eq!(
        compressed,
        vec![0x7F, b'a', b'b', b'c', b'd', b'e', b'f', b'g', 0x01, 0x00, 0x00]
    );
    assert_eq!(compressed.len(), prs_calculate_max_compressed_size(7) + 1);
    let compressed = round_trips(b"abcdefghijklmno");
    assert_eq!(compressed.len(), prs_calculate_max_compressed_size(15) + 1);
}

#[test]
fn only_the_first_source_len_bytes_are_compressed() {
    let data = b"abcabcabcabc";
    let mut whole = vec![0u8; 32];
    let mut part = vec![0u8; 32];
    let mut direct = vec![0u8; 32];
    let whole_len = prs_compress_unsafe(&data[..6], 6, &mut whole);
    let part_len = prs_compress_unsafe(data, 6, &mut part);
    let direct_len = prs_compress(data, &mut direct, 6);
    assert_eq!(whole[..whole_len], part[..part_len]);
    assert_eq!(whole[..whole_len], direct[..direct_len]);
    assert_eq!(decompress(&part[..part_len]), b"abcabc");
}

#[test]
fn destination_may_be_exactly_as_long_as_the_stream() {
    let mut dest = vec![0xFF_u8; 5];
    let written = prs_compress_unsafe(&[0x41; 4], 4, &mut dest);
    assert_eq!(written, 5);
    assert_eq!(dest, vec![0x51, 0x41, 0xFF, 0x00, 0x00]);
}

#[test]
fn recompressing_a_foreign_stream_keeps_its_content() {
    // Four literals 'a': valid, though the encoder would write a copy.
    let foreign = vec![0x2F, b'a', b'a', b'a', b'a', 0x00, 0x00];
    assert_eq!(prs_validate(&foreign), Some(4));
    let content = decompress(&foreign);
    assert_eq!(content, b"aaaa");
    let again = compress(&content);
    assert_ne!(again, foreign);
    assert_eq!(prs_validate(&again), Some(4));
    assert_eq!(decompress(&again), content);
}
