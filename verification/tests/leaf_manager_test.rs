use amphis::fptree::leaf_manager::types::{LeafHeader, NUM_ALLOCATION, NUM_SLOT};
use amphis::fptree::leaf_manager::LeafManager;

#[test]
fn test_allocate_page() {
    let mut manager = LeafManager::new(Vec::new(), true);
    let (id, header) = manager.allocate_leaf().expect("page allocation failed");
    assert_eq!(id, 0);
    assert_eq!(header.get_next(), None);
    assert_eq!(header.get_ext(), None);
    assert_eq!(manager.free_count(), NUM_ALLOCATION - 1);

    // commit the header for the next allocation
    manager.commit_header(id, &header);

    // allocate an extension page
    let ext_id = manager
        .allocate_ext_page(id)
        .expect("extension page allocation failed");
    // load the root header
    let mut header = manager.get_header(id).expect("no header");
    assert_eq!(header.get_next(), None);
    assert_eq!(header.get_ext(), Some(ext_id));
    assert_eq!(manager.free_count(), NUM_ALLOCATION - 2);

    // allocate new pages
    let (next_id, next_header) = manager.allocate_leaf().expect("page allocation failed");
    header.set_next(next_id);
    manager.commit_header(id, &header);
    manager.commit_header(next_id, &next_header);

    let leaf_id_chain = manager.get_leaf_id_chain().expect("broken chain");
    assert_eq!(leaf_id_chain, vec![id, next_id]);
}

#[test]
fn test_read_write_data() {
    let mut manager = LeafManager::new(Vec::new(), true);
    let (id, _) = manager.allocate_leaf().expect("page allocation failed");

    let key = vec![0u8];
    let value = vec![0u8, 0u8];
    manager
        .write_data(id, 4096, &key, &value)
        .expect("write failed");
    let (ret_key, ret_value) = manager
        .read_data(id, 4096, key.len(), value.len())
        .expect("read failed");
    assert_eq!(ret_key, key);
    assert_eq!(ret_value, value);

    // read/write a tombstone
    let key = vec![0u8];
    let value = vec![];
    manager
        .write_data(id, 4096, &key, &value)
        .expect("write failed");
    let (ret_key, ret_value) = manager
        .read_data(id, 8192, key.len(), value.len())
        .expect("read failed");
    assert_eq!(ret_key, key);
    assert!(ret_value.is_empty());
}

#[test]
fn leaf_manager_test_need_split() {
    let mut header = LeafHeader::new();
    assert!(!header.need_split());
    for i in 0..NUM_SLOT {
        header.set_slot(i);
    }
    assert!(header.need_split());
}

#[test]
fn leaf_manager_test_slot() {
    let mut header = LeafHeader::new();
    assert!(!header.is_slot_set(3));

    for i in 0..4 {
        header.set_slot(i);
    }
    assert_eq!(header.get_empty_slot().unwrap(), 4);
    assert!(header.is_slot_set(3));

    header.unset_slot(2);
    assert_eq!(header.get_empty_slot().unwrap(), 2);
}
