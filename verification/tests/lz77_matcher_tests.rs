use prs_rs::impls::comp::comp_dict::CompDict;
use prs_rs::impls::comp::lz77_matcher::{
    lz77_get_longest_match_fast, lz77_get_longest_match_slow, Lz77Parameters,
};

struct CompressParameters;

impl Lz77Parameters for CompressParameters {
    const MAX_OFFSET: usize = 0x1FFF;
    const MAX_LENGTH: usize = 256;
}

struct Narrow;

impl Lz77Parameters for Narrow {
    const MAX_OFFSET: usize = 4;
    const MAX_LENGTH: usize = 3;
}

#[test]
fn test_longest_match_with_repetition() {
    let data = b"abcabcabcabcabc";
    let mut dict = CompDict::new(data.len());
    dict.init(data, 0);

    // Longest match for "abc" starting from index 3 should be of length 12
    let match_result =
        lz77_get_longest_match_slow::<CompressParameters>(&mut dict, data, data.len(), 3);
    assert_eq!(match_result.length, 12);
    assert_eq!(match_result.offset, -3);
}

#[test]
fn test_no_match() {
    let data = b"abcdefgh";
    let mut dict = CompDict::new(data.len());
    dict.init(data, 0);

    // No repetition, so no match
    let match_result =
        lz77_get_longest_match_slow::<CompressParameters>(&mut dict, data, data.len(), 2);
    assert_eq!(match_result.length, 0);
}

#[test]
fn test_multiple_matches() {
    let data = b"ababababab";
    let mut dict = CompDict::new(data.len());
    dict.init(data, 0);

    // Multiple "ab" patterns, longest match from index 2 should be length 8
    let match_result =
        lz77_get_longest_match_slow::<CompressParameters>(&mut dict, data, data.len(), 2);
    assert_eq!(match_result.length, 8);
    assert_eq!(match_result.offset, -2);
}

#[test]
fn test_boundary_conditions() {
    let data = b"ababababab";
    let mut dict = CompDict::new(data.len());
    dict.init(data, 0);

    // Testing boundary condition: match at the very end
    let match_result = lz77_get_longest_match_slow::<CompressParameters>(
        &mut dict,
        data,
        data.len(),
        data.len() - 3,
    );
    assert_eq!(match_result.length, 3);
    assert_eq!(match_result.offset, -2);
}

#[test]
fn test_last_match_on_boundary() {
    let data = b"acacacabab";
    let mut dict = CompDict::new(data.len());
    dict.init(data, 0);

    // Testing boundary condition: match at the very end, when very end is only pattern
    let match_result = lz77_get_longest_match_slow::<CompressParameters>(
        &mut dict,
        data,
        data.len(),
        data.len() - 2,
    );
    assert_eq!(match_result.length, 2);
    assert_eq!(match_result.offset, -2);
}

#[test]
fn no_match_has_offset_zero() {
    let data = b"abcdefgh";
    let mut dict = CompDict::new(data.len());
    dict.init(data, 0);
    let match_result =
        lz77_get_longest_match_slow::<CompressParameters>(&mut dict, data, data.len(), 2);
    assert_eq!(match_result.length, 0);
    assert_eq!(match_result.offset, 0);
}

#[test]
fn nearest_of_equal_matches_wins() {
    // "abX" stands at 0 and at 3; from 6 both agree for two bytes only.
    let data = b"abXabYabZ";
    let mut dict = CompDict::new(data.len());
    dict.init(data, 0);
    let match_result =
        lz77_get_longest_match_slow::<CompressParameters>(&mut dict, data, data.len(), 6);
    assert_eq!(match_result.length, 2);
    assert_eq!(match_result.offset, -3);
}

#[test]
fn longer_match_further_back_wins() {
    // From 8, "abc" at 0 agrees for three bytes, "abX" at 4 for two.
    let data = b"abcZabXZabcQ";
    let mut dict = CompDict::new(data.len());
    dict.init(data, 0);
    let match_result =
        lz77_get_longest_match_slow::<CompressParameters>(&mut dict, data, data.len(), 8);
    assert_eq!(match_result.length, 3);
    assert_eq!(match_result.offset, -8);
}

#[test]
fn match_is_cut_at_max_length() {
    let data = vec![9u8; 600];
    let mut dict = CompDict::new(data.len());
    dict.init(&data, 0);
    let match_result =
        lz77_get_longest_match_slow::<CompressParameters>(&mut dict, &data, data.len(), 10);
    assert_eq!(match_result.length, 256);
    assert_eq!(match_result.offset, -1);
}

#[test]
fn match_is_cut_at_source_len() {
    let data = vec![9u8; 600];
    let mut dict = CompDict::new(data.len());
    dict.init(&data, 0);
    // Only the first 20 bytes count as the source.
    let match_result = lz77_get_longest_match_slow::<CompressParameters>(&mut dict, &data, 20, 10);
    assert_eq!(match_result.length, 10);
    assert_eq!(match_result.offset, -1);
}

#[test]
fn search_respects_max_offset_and_max_length() {
    // "abcd" at 0 and at 6: six back, out of reach of a search four back.
    let data = b"abcdXYabcdZZ";
    let mut dict = CompDict::new(data.len());
    dict.init(data, 0);
    let match_result = lz77_get_longest_match_slow::<Narrow>(&mut dict, data, data.len(), 6);
    assert_eq!(match_result.length, 0);
    assert_eq!(match_result.offset, 0);

    let data = b"abcdabcdZZ";
    let mut dict = CompDict::new(data.len());
    dict.init(data, 0);
    let match_result = lz77_get_longest_match_slow::<Narrow>(&mut dict, data, data.len(), 4);
    assert_eq!(match_result.length, 3);
    assert_eq!(match_result.offset, -4);
}

#[test]
fn fast_and_slow_find_the_same() {
    let mut data = Vec::new();
    let mut state: u32 = 12345;
    for _ in 0..2000 {
        state = state.wrapping_mul(1103515245).wrapping_add(12345);
        data.push(b'a' + ((state >> 16) % 3) as u8);
    }
    let mut fast_dict = CompDict::new(data.len());
    fast_dict.init(&data, 0);
    let mut slow_dict = CompDict::new(data.len());
    slow_dict.init(&data, 0);
    for index in 1..(data.len() - 256) {
        let fast = lz77_get_longest_match_fast::<CompressParameters>(&mut fast_dict, &data, index);
        let slow = lz77_get_longest_match_slow::<CompressParameters>(
            &mut slow_dict,
            &data,
            data.len(),
            index,
        );
        assert_eq!(fast.length, slow.length);
        assert_eq!(fast.offset, slow.offset);
        if fast.length > 0 {
            assert!(fast.length >= 2);
            assert!(fast.offset < 0);
            let from = (index as isize + fast.offset) as usize;
            assert_eq!(data[from..from + fast.length], data[index..index + fast.length]);
        }
    }
}

#[test]
fn index_with_base_serves_a_later_window() {
    // The index covers the source from place 4 on.
    let data = b"abababababab";
    let mut dict = CompDict::new(data.len());
    dict.init(&data[4..], 4);
    let match_result =
        lz77_get_longest_match_slow::<Narrow>(&mut dict, data, data.len(), 8);
    assert_eq!(match_result.length, 3);
    assert_eq!(match_result.offset, -2);
}

#[test]
fn fast_match_ends_at_the_first_byte_that_differs() {
    for differs_at in 2..80 {
        // A block of 300 distinct-looking bytes, then the same block with one byte changed.
        let mut data = Vec::new();
        for i in 0..300u32 {
            data.push((i * 7 + i / 13) as u8);
        }
        let block = data.clone();
        data.extend_from_slice(&block);
        data[300 + differs_at] ^= 0x80;
        data.extend_from_slice(&[0xEE; 300]);

        let mut dict = CompDict::new(data.len());
        dict.init(&data, 0);
        let fast = lz77_get_longest_match_fast::<CompressParameters>(&mut dict, &data, 300);
        assert_eq!(fast.length, differs_at);
        assert_eq!(fast.offset, -300);

        let mut dict = CompDict::new(data.len());
        dict.init(&data, 0);
        let slow =
            lz77_get_longest_match_slow::<CompressParameters>(&mut dict, &data, data.len(), 300);
        assert_eq!(slow.length, differs_at);
        assert_eq!(slow.offset, -300);
    }
}

#[test]
fn fast_match_is_cut_at_max_length() {
    let data = vec![3u8; 1000];
    let mut dict = CompDict::new(data.len());
    dict.init(&data, 0);
    let fast = lz77_get_longest_match_fast::<CompressParameters>(&mut dict, &data, 500);
    assert_eq!(fast.length, 256);
    assert_eq!(fast.offset, -1);
    let fast = lz77_get_longest_match_fast::<Narrow>(&mut dict, &data, 600);
    assert_eq!(fast.length, 3);
    assert_eq!(fast.offset, -1);
}
