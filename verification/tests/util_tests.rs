use prs_rs::util::prs_calculate_max_compressed_size;

#[test]
fn max_compressed_size_values() {
    assert_eq!(prs_calculate_max_compressed_size(0), 3);
    assert_eq!(prs_calculate_max_compressed_size(1), 4);
    assert_eq!(prs_calculate_max_compressed_size(7), 10);
    assert_eq!(prs_calculate_max_compressed_size(8), 12);
    assert_eq!(prs_calculate_max_compressed_size(9), 13);
    assert_eq!(prs_calculate_max_compressed_size(100), 115);
    assert_eq!(prs_calculate_max_compressed_size(1 << 20), 1179651);
    assert_eq!(prs_calculate_max_compressed_size(0x7FFF_FFFF), 2415919105);
}

#[test]
fn max_compressed_size_never_shrinks() {
    let mut last = prs_calculate_max_compressed_size(0);
    for len in 1..5000 {
        let size = prs_calculate_max_compressed_size(len);
        assert!(size >= last);
        assert_eq!(size, len * 9 / 8 + 3);
        last = size;
    }
}
