use amphis::amphis_error::StoreError;
use amphis::util::data_util::{
    calc_crc, check_crc, check_header_crc, check_slot_crc, format_data_with_crc,
    get_bound_offset, get_data_size, get_key_offset, get_value_offset, round_up_size,
};
use amphis::util::entry_sort::sort_entries;
use amphis::util::key_order::{key_equal, key_less};

#[test]
fn crc_is_crc32_ieee() {
    assert_eq!(calc_crc(&b"123456789".to_vec()), 0xcbf43926);
    assert_eq!(calc_crc(&Vec::new()), 0);
}

#[test]
fn format_is_two_slots() {
    let key = b"key".to_vec();
    let value = b"value".to_vec();
    let data = format_data_with_crc(&key, &value);
    assert_eq!(data.len(), get_data_size(key.len(), value.len()));
    assert_eq!(data.len(), 3 + 5 + 16);
    assert_eq!(&data[0..4], &[3, 0, 0, 0]);
    assert_eq!(&data[4..7], b"key");
    assert_eq!(&data[7..11], &calc_crc(&key).to_le_bytes());
    assert_eq!(&data[11..15], &[5, 0, 0, 0]);
    assert_eq!(&data[15..20], b"value");
    assert_eq!(&data[20..24], &calc_crc(&value).to_le_bytes());
}

#[test]
fn offsets_locate_the_payloads() {
    assert_eq!(get_key_offset(3), (4, 7));
    assert_eq!(get_value_offset(3, 5), (15, 20));
    assert_eq!(get_bound_offset(3), 11);
    assert_eq!(get_data_size(0, 0), 16);
    let key = b"key".to_vec();
    let value = b"value".to_vec();
    let data = format_data_with_crc(&key, &value);
    let (ks, ke) = get_key_offset(key.len());
    let (vs, ve) = get_value_offset(key.len(), value.len());
    assert_eq!(&data[ks..ke], &key[..]);
    assert_eq!(&data[vs..ve], &value[..]);
}

#[test]
fn round_up_to_alignment() {
    assert_eq!(round_up_size(0), 0);
    assert_eq!(round_up_size(1), 4096);
    assert_eq!(round_up_size(4096), 4096);
    assert_eq!(round_up_size(4097), 8192);
    assert_eq!(round_up_size(24), 4096);
    // the greatest size whose rounded size still fits
    assert_eq!(round_up_size(usize::MAX - 4095), usize::MAX - 4095);
    assert_eq!(round_up_size(usize::MAX - 4096), usize::MAX - 4095);
}

#[test]
fn every_encoded_slot_verifies() {
    let key = b"some key".to_vec();
    let value = Vec::new();
    let data = format_data_with_crc(&key, &value);
    let bound = get_bound_offset(key.len());
    assert_eq!(check_slot_crc(&data[..bound]), Ok(()));
    assert_eq!(check_slot_crc(&data[bound..]), Ok(()));
}

#[test]
fn corrupt_slot_is_a_crc_mismatch() {
    let key = b"some key".to_vec();
    let data = format_data_with_crc(&key, &b"v".to_vec());
    let bound = get_bound_offset(key.len());
    let mut slot = data[..bound].to_vec();
    slot[5] ^= 0x01;
    assert_eq!(check_slot_crc(&slot), Err(StoreError::CrcMismatch));
    // a length that points beyond the slot
    let mut slot = data[..bound].to_vec();
    slot[0] = 0xFF;
    assert_eq!(check_slot_crc(&slot), Err(StoreError::CrcMismatch));
    // fewer bytes than a length
    assert_eq!(check_slot_crc(&[1, 2]), Err(StoreError::CrcMismatch));
}

#[test]
fn header_crc_is_over_all_but_the_last_four_bytes() {
    let body = b"header body".to_vec();
    let mut bytes = body.clone();
    bytes.extend_from_slice(&calc_crc(&body).to_le_bytes());
    assert_eq!(check_header_crc(&bytes), Ok(()));
    bytes[0] ^= 0x80;
    assert_eq!(check_header_crc(&bytes), Err(StoreError::CrcMismatch));
    assert_eq!(check_header_crc(&[0, 0, 0]), Err(StoreError::CrcMismatch));
    assert_eq!(check_crc(b"123456789", 0xcbf43926), Ok(()));
    assert_eq!(check_crc(b"123456789", 1), Err(StoreError::CrcMismatch));
}

#[test]
fn keys_order_as_byte_strings() {
    assert!(key_less(b"", b"a"));
    assert!(!key_less(b"", b""));
    assert!(key_less(b"a", b"ab"));
    assert!(key_less(b"ab", b"b"));
    assert!(!key_less(b"b", b"ab"));
    assert!(key_less(&[1, 255], &[2]));
    assert!(!key_less(b"k10", b"k1"));
    assert!(key_equal(b"abc", b"abc"));
    assert!(!key_equal(b"abc", b"abd"));
    assert!(!key_equal(b"abc", b"ab"));
}

#[test]
fn entries_sort_by_key_then_value_then_slot() {
    let entries = vec![
        (b"b".to_vec(), b"1".to_vec(), 0usize),
        (b"a".to_vec(), b"2".to_vec(), 1usize),
        (b"c".to_vec(), b"0".to_vec(), 2usize),
        (b"a".to_vec(), b"1".to_vec(), 3usize),
        (b"a".to_vec(), b"1".to_vec(), 2usize),
    ];
    let mut expected = entries.clone();
    expected.sort();
    assert_eq!(sort_entries(entries), expected);
    assert_eq!(sort_entries(Vec::new()), Vec::new());
}
