use prs_rs::comp::create_comp_dict;
use prs_rs::impls::comp::comp_dict::{read_key, CompDict};

#[test]
fn can_create_dict() {
    let data = &[0x41, 0x42, 0x43, 0x41, 0x41, 0x41, 0x41, 0x41, 0x41];
    let mut comp_dict = CompDict::new(data.len());
    comp_dict.init(data, 0);

    // Assert that the items were correctly inserted.
    let entry = comp_dict.get_dict_mut()[0x4241_u16.to_le() as usize];
    assert_eq!(entry.get_items(&comp_dict), &[0]);
    let entry = comp_dict.get_dict_mut()[0x4342_u16.to_le() as usize];
    assert_eq!(entry.get_items(&comp_dict), &[1]);

    // Ensure we can get a slice.
    let result = comp_dict.get_item(0x4141, 3, 4);
    assert_eq!(&[3, 4], result);

    // Access the next in sequence, and ensure it was correctly advanced.
    let result = comp_dict.get_item(0x4141, 4, 5);
    assert_eq!(&[4, 5], result);
    let entry = comp_dict.get_dict_mut()[0x4141];
    assert_eq!(entry.get_items(&comp_dict)[0], 4);

    // Access beyond end of sequence
    let result = comp_dict.get_item(0x4141, 5, 99);
    assert_eq!(&[5, 6, 7], result);
}

#[test]
fn can_create_dict_with_offset() {
    let data = &[0x41, 0x42, 0x43, 0x41, 0x41, 0x41, 0x41, 0x41, 0x41];
    let offset = 1000;
    let mut comp_dict = CompDict::new(data.len());
    comp_dict.init(data, offset);

    // Assert that the items were correctly inserted with the offset.
    let entry = comp_dict.get_dict_mut()[0x4241_u16.to_le() as usize];
    assert_eq!(entry.get_items(&comp_dict), &[1000]);
    let entry = comp_dict.get_dict_mut()[0x4342_u16.to_le() as usize];
    assert_eq!(entry.get_items(&comp_dict), &[1001]);

    // Ensure we can get a slice with offsets.
    let result = comp_dict.get_item(0x4141, 1003, 1004);
    assert_eq!(&[1003, 1004], result);

    // Access the next in sequence, and ensure it was correctly advanced.
    let result = comp_dict.get_item(0x4141, 1004, 1005);
    assert_eq!(&[1004, 1005], result);
    let entry = comp_dict.get_dict_mut()[0x4141];
    assert_eq!(entry.get_items(&comp_dict)[0], 1004);

    // Access beyond end of sequence
    let result = comp_dict.get_item(0x4141, 1005, 1099);
    assert_eq!(&[1005, 1006, 1007], result);
}

#[test]
fn key_is_low_byte_first() {
    assert_eq!(read_key(&[0x41, 0x42, 0x43], 0), 0x4241);
    assert_eq!(read_key(&[0x41, 0x42, 0x43], 1), 0x4342);
    assert_eq!(read_key(&[0xFF, 0xFF], 0), 0xFFFF);
    assert_eq!(read_key(&[0x00, 0x01], 0), 0x0100);
}

#[test]
fn new_dict_indexes_nothing() {
    let mut comp_dict = CompDict::new(16);
    let none: &[u32] = &[];
    assert_eq!(comp_dict.get_item(0, 0, 99), none);
    assert_eq!(comp_dict.get_item(0x4141, 0, 99), none);
    assert_eq!(comp_dict.get_dict_mut().len(), 65536);
}

#[test]
fn single_byte_window_has_no_keys() {
    let mut comp_dict = CompDict::new(4);
    comp_dict.init(&[0x41], 0);
    let none: &[u32] = &[];
    assert_eq!(comp_dict.get_item(0x0041, 0, 99), none);
    assert_eq!(comp_dict.get_item(0x4100, 0, 99), none);
}

#[test]
fn init_starts_the_cursors_over() {
    let data = &[7u8, 7, 7, 7, 7, 7];
    let mut comp_dict = CompDict::new(8);
    comp_dict.init(data, 0);
    assert_eq!(comp_dict.get_item(0x0707, 3, 4), &[3, 4]);
    comp_dict.init(data, 0);
    assert_eq!(comp_dict.get_item(0x0707, 0, 4), &[0, 1, 2, 3, 4]);
    comp_dict.init(&data[..3], 10);
    assert_eq!(comp_dict.get_item(0x0707, 0, 99), &[10, 11]);
}

#[test]
fn query_bounds_are_inclusive() {
    let data = &[1u8, 2, 1, 2, 1, 2, 1, 2];
    let mut comp_dict = CompDict::new(data.len());
    comp_dict.init(data, 0);
    assert_eq!(comp_dict.get_item(0x0201, 0, 0), &[0]);
    assert_eq!(comp_dict.get_item(0x0201, 1, 1), &[] as &[u32]);
    assert_eq!(comp_dict.get_item(0x0201, 2, 6), &[2, 4, 6]);
    assert_eq!(comp_dict.get_item(0x0102, 1, 5), &[1, 3, 5]);
}

#[test]
fn create_comp_dict_finds_first_zero_pair() {
    assert_eq!(create_comp_dict(&[0, 0]), 0);
    assert_eq!(create_comp_dict(&[5, 0, 1, 0, 0, 0]), 3);
}
