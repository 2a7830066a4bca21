use amphis::fptree::leaf_manager::types::{
    KVInfo, LeafHeader, HEADER_MAGIC, INITIAL_TAIL_OFFSET, LEAF_HEADER_SIZE, NUM_SLOT,
};

#[test]
fn types_test_need_split() {
    let mut header = LeafHeader::new();
    assert!(!header.need_split());
    for i in 0..NUM_SLOT {
        header.set_slot(i);
    }
    assert!(header.need_split());
}

#[test]
fn types_test_slot() {
    let mut header = LeafHeader::new();
    assert!(!header.is_slot_set(3));

    for i in 0..4 {
        header.set_slot(i);
    }
    assert_eq!(header.get_empty_slot().unwrap(), 4);
    assert!(header.is_slot_set(3));

    header.unset_slot(2);
    assert_eq!(header.get_empty_slot().unwrap(), 2);
}

#[test]
fn fresh_header_fields() {
    let header = LeafHeader::new();
    assert_eq!(header.magic, HEADER_MAGIC);
    assert_eq!(header.get_next(), None);
    assert_eq!(header.get_ext(), None);
    assert_eq!(header.get_tail_offset(), INITIAL_TAIL_OFFSET);
    assert_eq!(header.get_fingerprints(), &[0u8; 32][..]);
    assert_eq!(header.get_kv_info(7), (0, 0, 0, 0));
    assert_eq!(header.get_empty_slot(), Some(0));
}

#[test]
fn header_setters_and_getters() {
    let mut header = LeafHeader::new();
    header.set_next(7);
    header.set_ext(9);
    header.set_tail_offset(8192);
    header.set_fingerprint(5, 0xAB);
    header.set_kv_info(5, 3, 4096, 10, 20);
    assert_eq!(header.get_next(), Some(7));
    assert_eq!(header.get_ext(), Some(9));
    assert_eq!(header.get_tail_offset(), 8192);
    assert_eq!(header.get_fingerprints()[5], 0xAB);
    assert_eq!(header.get_kv_info(5), (3, 4096, 10, 20));
    assert_eq!(header.get_kv_info(4), (0, 0, 0, 0));
    // the sentinel reads as "none"
    header.set_next(0xFFFF_FFFF);
    assert_eq!(header.get_next(), None);
}

#[test]
fn full_header_has_no_empty_slot() {
    let mut header = LeafHeader::new();
    for i in 0..NUM_SLOT {
        header.set_slot(i);
    }
    assert_eq!(header.get_empty_slot(), None);
    header.unset_slot(31);
    assert_eq!(header.get_empty_slot(), Some(31));
    assert!(!header.need_split());
}

#[test]
fn kv_info_round_trip() {
    let mut info = KVInfo::new();
    assert_eq!(info.get(), (0, 0, 0, 0));
    info.set(1, 2, 3, 4);
    assert_eq!(info.get(), (1, 2, 3, 4));
    let mut bytes = Vec::new();
    info.append_to(&mut bytes);
    assert_eq!(
        bytes,
        vec![1, 0, 0, 0, 2, 0, 0, 0, 3, 0, 0, 0, 4, 0, 0, 0]
    );
    assert_eq!(KVInfo::from_bytes(&bytes), info);
}

#[test]
fn header_encoding_layout() {
    let mut header = LeafHeader::new();
    header.set_slot(0);
    header.set_slot(9);
    header.set_next(2);
    header.set_fingerprint(1, 0xCD);
    header.set_kv_info(0, 1, 4096, 3, 5);
    let bytes = header.to_bytes();
    assert_eq!(bytes.len(), LEAF_HEADER_SIZE - 4);
    assert_eq!(&bytes[0..4], &[0x34, 0x12, 0, 0]);
    assert_eq!(&bytes[4..8], &[0x01, 0x02, 0, 0]);
    assert_eq!(&bytes[8..12], &[2, 0, 0, 0]);
    assert_eq!(&bytes[12..16], &[0xFF, 0xFF, 0xFF, 0xFF]);
    assert_eq!(&bytes[16..20], &[0, 0x10, 0, 0]);
    assert_eq!(bytes[21], 0xCD);
    assert_eq!(&bytes[52..68], &[1, 0, 0, 0, 0, 0x10, 0, 0, 3, 0, 0, 0, 5, 0, 0, 0]);
    assert_eq!(LeafHeader::from_bytes(&bytes), header);
    let page = header.to_page_bytes();
    assert_eq!(page.len(), LEAF_HEADER_SIZE);
    assert_eq!(&page[..564], &bytes[..]);
    assert!(amphis::util::data_util::check_header_crc(&page).is_ok());
}
