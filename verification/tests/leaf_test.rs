use amphis::amphis_error::StoreError;
use amphis::fptree::leaf::Leaf;
use amphis::fptree::leaf_manager::types::NUM_SLOT;
use amphis::fptree::leaf_manager::LeafManager;

const DATA_UNIT: usize = 4 * 1024;

fn make_new_leaf() -> (LeafManager, Leaf) {
    let mut manager = LeafManager::new(Vec::new(), true);
    let leaf = Leaf::new(&mut manager).unwrap();
    (manager, leaf)
}

#[test]
fn leaf_test_get_next() {
    let (mut manager, mut leaf) = make_new_leaf();
    assert!(leaf.get_next().is_none());

    for i in 0..NUM_SLOT {
        leaf.insert(&mut manager, &vec![i as u8], &vec![i as u8]).unwrap();
    }
    let (_, new_leaf) = leaf.split(&mut manager).unwrap();
    assert_eq!(leaf.get_next(), Some(new_leaf.get_id()));
    assert!(new_leaf.get_next().is_none());
}

#[test]
fn test_insert_first() {
    let (mut manager, mut leaf) = make_new_leaf();

    let k = "key".as_bytes().to_vec();
    let v = "value".as_bytes().to_vec();

    leaf.insert(&mut manager, &k, &v).unwrap();

    let expected_tail_offset = DATA_UNIT * 2;
    assert!(leaf.get_header().is_slot_set(0));
    assert_eq!(leaf.get_header().get_fingerprints()[0], 192);
    assert_eq!(leaf.get_header().get_tail_offset(), expected_tail_offset);
    assert_eq!(
        leaf.get_header().get_kv_info(0),
        (
            leaf.get_id(),
            expected_tail_offset - DATA_UNIT,
            k.len(),
            v.len()
        )
    );
}

#[test]
fn test_extended_page() {
    let (mut manager, mut leaf) = make_new_leaf();

    let k0 = vec![0; 256 * 1024];
    let v0 = vec![0; 256 * 1024];
    leaf.insert(&mut manager, &k0, &v0).unwrap();

    let k1 = vec![1; 256 * 1024];
    let v1 = vec![1; 256 * 1024];
    leaf.insert(&mut manager, &k1, &v1).unwrap();

    let expected_tail_offset = DATA_UNIT;
    assert_eq!(
        leaf.get_header().get_kv_info(1),
        (leaf.get_id() + 1, expected_tail_offset, k1.len(), v1.len())
    );
    assert_eq!(
        leaf.get_header().get_ext().expect("no ext page"),
        leaf.get_id() + 1
    );
    // both pairs read back from their pages
    assert_eq!(leaf.get(&manager, &k0).unwrap(), Some(v0));
    assert_eq!(leaf.get(&manager, &k1).unwrap(), Some(v1));
}

#[test]
fn several_extension_pages() {
    let (mut manager, mut leaf) = make_new_leaf();
    for i in 0..5u8 {
        let k = vec![i; 300 * 1024];
        let v = vec![i; 300 * 1024];
        leaf.insert(&mut manager, &k, &v).unwrap();
    }
    for i in 0..5u8 {
        let k = vec![i; 300 * 1024];
        assert_eq!(leaf.get(&manager, &k).unwrap(), Some(vec![i; 300 * 1024]));
    }
    assert_eq!(leaf.get_header().get_ext(), Some(4));
    assert_eq!(manager.get_header(3).unwrap().get_ext(), Some(4));
    assert_eq!(manager.get_header(4).unwrap().get_ext(), None);
}

#[test]
fn test_insert_any_slot() {
    let (mut manager, mut leaf) = make_new_leaf();

    let any_slot = NUM_SLOT / 2;
    for i in 0..any_slot {
        let k = vec![i as u8];
        let v = vec![i as u8];
        leaf.insert(&mut manager, &k, &v).unwrap();
    }

    assert!((0..any_slot).all(|i| { leaf.get_header().is_slot_set(i) }));
    assert!(!leaf.get_header().is_slot_set(any_slot));

    let k = "key".as_bytes().to_vec();
    let v = "value".as_bytes().to_vec();

    leaf.insert(&mut manager, &k, &v).unwrap();

    let expected_tail_offset = DATA_UNIT + (any_slot + 1) * DATA_UNIT;
    assert!(leaf.get_header().is_slot_set(any_slot));
    assert_eq!(leaf.get_header().get_fingerprints()[any_slot], 192);
    assert_eq!(leaf.get_header().get_tail_offset(), expected_tail_offset);
    assert_eq!(
        leaf.get_header().get_kv_info(any_slot),
        (leaf.get_id(), (any_slot + 1) * DATA_UNIT, k.len(), v.len())
    );
}

#[test]
fn leaf_test_get() {
    let (mut manager, mut leaf) = make_new_leaf();

    for i in 0..5 {
        let k = vec![i as u8];
        let v = vec![i as u8];
        leaf.insert(&mut manager, &k, &v).unwrap();
    }

    let k = vec![3u8];
    let v = vec![3u8];
    assert_eq!(leaf.get(&manager, &k).unwrap().unwrap(), v);

    let k = vec![8 as u8];
    assert_eq!(leaf.get(&manager, &k).unwrap(), None);
}

#[test]
fn test_update() {
    let (mut manager, mut leaf) = make_new_leaf();

    for i in 0..5 {
        let k = vec![i as u8];
        let v = vec![i as u8];
        leaf.insert(&mut manager, &k, &v).unwrap();
    }

    let k = vec![3u8];
    let v2 = vec![5u8];
    leaf.insert(&mut manager, &k, &v2).unwrap();

    let expected_tail_offset = DATA_UNIT + DATA_UNIT * 6;
    assert!(leaf.get_header().is_slot_set(3));
    assert_eq!(leaf.get_header().get_tail_offset(), expected_tail_offset);
    assert_eq!(
        leaf.get_header().get_kv_info(3),
        (
            leaf.get_id(),
            expected_tail_offset - DATA_UNIT,
            k.len(),
            v2.len()
        )
    );
    assert_eq!(leaf.get(&manager, &k).unwrap(), Some(v2));
}

#[test]
fn leaf_test_split() {
    let (mut manager, mut leaf) = make_new_leaf();

    for i in 0..NUM_SLOT {
        let k = vec![i as u8];
        let v = vec![i as u8];
        leaf.insert(&mut manager, &k, &v).unwrap();
    }

    let (split_key, new_leaf) = leaf.split(&mut manager).unwrap();

    assert_eq!(split_key, vec!((NUM_SLOT / 2) as u8));
    assert!((0..(NUM_SLOT / 2)).all(|i| { leaf.get_header().is_slot_set(i) }));
    assert!(((NUM_SLOT / 2)..NUM_SLOT).all(|i| { !leaf.get_header().is_slot_set(i) }));
    assert!(leaf.get_next().is_some());
    for i in 0..NUM_SLOT {
        let k = vec![i as u8];
        if i < NUM_SLOT / 2 {
            assert_eq!(leaf.get(&manager, &k).unwrap(), Some(k.clone()));
            assert_eq!(new_leaf.get(&manager, &k).unwrap(), None);
        } else {
            assert_eq!(leaf.get(&manager, &k).unwrap(), None);
            assert_eq!(new_leaf.get(&manager, &k).unwrap(), Some(k.clone()));
        }
    }
    // both headers are committed, and the chain leads to the new leaf
    assert_eq!(
        manager.get_leaf_id_chain().unwrap(),
        vec![leaf.get_id(), new_leaf.get_id()]
    );
}

#[test]
fn insert_into_full_leaf_splits() {
    let (mut manager, mut leaf) = make_new_leaf();
    for i in 0..NUM_SLOT {
        let k = vec![(2 * i) as u8];
        assert!(leaf.insert(&mut manager, &k, &k).unwrap().is_none());
    }
    assert!(leaf.may_need_split());
    // a key below the split key stays, the split key is the middle key
    let (split_key, sibling) = leaf.insert(&mut manager, &vec![1u8], &vec![9u8]).unwrap().unwrap();
    assert_eq!(split_key, vec![32u8]);
    assert_eq!(leaf.get(&manager, &vec![1u8]).unwrap(), Some(vec![9u8]));
    assert_eq!(sibling.get(&manager, &vec![1u8]).unwrap(), None);
    assert_eq!(sibling.get(&manager, &vec![32u8]).unwrap(), Some(vec![32u8]));
    assert_eq!(leaf.get(&manager, &vec![30u8]).unwrap(), Some(vec![30u8]));
}

#[test]
fn insert_at_split_key_goes_to_sibling() {
    let (mut manager, mut leaf) = make_new_leaf();
    for i in 0..NUM_SLOT {
        let k = vec![(2 * i) as u8];
        leaf.insert(&mut manager, &k, &k).unwrap();
    }
    let (split_key, sibling) = leaf.insert(&mut manager, &vec![33u8], &vec![7u8]).unwrap().unwrap();
    assert_eq!(split_key, vec![32u8]);
    assert_eq!(sibling.get(&manager, &vec![33u8]).unwrap(), Some(vec![7u8]));
    assert_eq!(leaf.get(&manager, &vec![33u8]).unwrap(), None);
}

#[test]
fn update_of_full_leaf_does_not_split() {
    let (mut manager, mut leaf) = make_new_leaf();
    for i in 0..NUM_SLOT {
        leaf.insert(&mut manager, &vec![i as u8], &vec![1u8]).unwrap();
    }
    assert!(leaf.insert(&mut manager, &vec![5u8], &vec![2u8]).unwrap().is_none());
    assert_eq!(leaf.get(&manager, &vec![5u8]).unwrap(), Some(vec![2u8]));
}

#[test]
fn delete_leaves_a_tombstone() {
    let (mut manager, mut leaf) = make_new_leaf();
    leaf.insert(&mut manager, &b"x".to_vec(), &b"1".to_vec()).unwrap();
    leaf.delete(&mut manager, &b"x".to_vec()).unwrap();
    assert_eq!(leaf.get(&manager, &b"x".to_vec()).unwrap(), Some(Vec::new()));
}

#[test]
fn pair_larger_than_a_page_is_refused() {
    let (mut manager, mut leaf) = make_new_leaf();
    let k = vec![0u8; 600 * 1024];
    let v = vec![0u8; 600 * 1024];
    let before = manager.image().len();
    assert_eq!(leaf.insert(&mut manager, &k, &v).err(), Some(StoreError::TooLarge));
    assert_eq!(manager.image().len(), before);
    assert_eq!(leaf.get(&manager, &k).unwrap(), None);
}

#[test]
fn kv_pairs_in_slot_order() {
    let (mut manager, mut leaf) = make_new_leaf();
    leaf.insert(&mut manager, &b"b".to_vec(), &b"2".to_vec()).unwrap();
    leaf.insert(&mut manager, &b"a".to_vec(), &b"1".to_vec()).unwrap();
    assert_eq!(
        leaf.get_kv_pairs(&manager).unwrap(),
        vec![
            (b"b".to_vec(), b"2".to_vec(), 0),
            (b"a".to_vec(), b"1".to_vec(), 1)
        ]
    );
    assert_eq!(leaf.get_existing_slots(&b"a".to_vec()), vec![1]);
    assert_eq!(Leaf::calc_key_hash(&b"key".to_vec()), 192);
}

#[test]
fn split_cuts_an_odd_count_below_the_middle() {
    let (mut manager, mut leaf) = make_new_leaf();
    // the keys come in descending order, so the slots do not follow the keys
    for k in [50u8, 40, 30, 20, 10] {
        leaf.insert(&mut manager, &vec![k], &vec![k]).unwrap();
    }
    let (split_key, sibling) = leaf.split(&mut manager).unwrap();
    // of five pairs two stay, and the third key in order is the split key
    assert_eq!(split_key, vec![30u8]);
    for slot in 0..NUM_SLOT {
        assert_eq!(leaf.get_header().is_slot_set(slot), slot == 3 || slot == 4);
        assert_eq!(sibling.get_header().is_slot_set(slot), slot < 3);
    }
    let moved = sibling.get_kv_pairs(&manager).unwrap();
    assert_eq!(
        moved,
        vec![(vec![30u8], vec![30u8], 0), (vec![40u8], vec![40u8], 1), (vec![50u8], vec![50u8], 2)]
    );
    assert_eq!(leaf.get_next(), Some(sibling.get_id()));
    assert_eq!(sibling.get_next(), None);
}

#[test]
fn insert_takes_the_lowest_free_slot_at_the_frontier() {
    let (mut manager, mut leaf) = make_new_leaf();
    for i in 0..5u8 {
        leaf.insert(&mut manager, &vec![i], &vec![i]).unwrap();
    }
    leaf.delete(&mut manager, &vec![1u8]).unwrap();
    // the tombstone took the slot of the key again, behind the other pairs
    assert_eq!(leaf.get_header().get_kv_info(1), (0, 24576, 1, 0));
    assert_eq!(leaf.get_header().get_tail_offset(), 28672);
    leaf.insert(&mut manager, &vec![9u8], &vec![9u8, 9u8]).unwrap();
    assert!(leaf.get_header().is_slot_set(5));
    assert!(!leaf.get_header().is_slot_set(6));
    assert_eq!(leaf.get_header().get_kv_info(5), (0, 28672, 1, 2));
    assert_eq!(leaf.get_header().get_fingerprints()[5], Leaf::calc_key_hash(&vec![9u8]));
    assert_eq!(leaf.get_header().get_tail_offset(), 32768);
}
