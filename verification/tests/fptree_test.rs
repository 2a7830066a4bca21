use amphis::amphis_error::StoreError;
use amphis::fptree::FPTree;

#[test]
fn fptree_test_test_mutations() {
    const NUM_INSERTION: usize = 1025;
    let mut tree = FPTree::new();

    // INSERT
    for i in 0..NUM_INSERTION {
        let key = ("k".to_string() + &i.to_string()).as_bytes().to_vec();
        let value = ("v".to_string() + &i.to_string()).as_bytes().to_vec();
        tree.put(&key, &value).unwrap();
    }

    // UPDATE or DELETE
    for i in 0..NUM_INSERTION {
        if i % 2 != 0 && i % 3 != 0 {
            continue;
        }

        let key = ("k".to_string() + &i.to_string()).as_bytes().to_vec();
        if i % 3 == 0 {
            tree.delete(&key).unwrap();
        } else {
            let value = ("new-v".to_string() + &i.to_string()).as_bytes().to_vec();
            tree.put(&key, &value).unwrap();
        }
    }

    // CHECK
    for i in 0..NUM_INSERTION {
        let key = ("k".to_string() + &i.to_string()).as_bytes().to_vec();
        let expected = if i % 2 == 0 {
            ("new-v".to_string() + &i.to_string()).as_bytes().to_vec()
        } else {
            ("v".to_string() + &i.to_string()).as_bytes().to_vec()
        };

        let actual = tree.get(&key).unwrap();

        if i % 3 == 0 {
            assert_eq!(actual, Some(Vec::new()));
        } else {
            assert_eq!(actual.unwrap(), expected);
        }
    }
    assert!(tree.get_root_split_count() >= 1);
}

#[test]
fn new_tree_is_empty() {
    let tree = FPTree::new();
    assert_eq!(tree.get(b"k").unwrap(), None);
    assert_eq!(tree.get_root_split_count(), 0);
    assert!(tree.get_root().is_leaf());
    assert!(tree.get_root().is_root());
    assert_eq!(tree.get_leaf_manager().get_leaf_id_chain().unwrap(), vec![0]);
}

#[test]
fn root_split_is_counted() {
    let mut tree = FPTree::new();
    for i in 0..32u8 {
        tree.put(&[i], &[i]).unwrap();
    }
    assert_eq!(tree.get_root_split_count(), 0);
    tree.put(&[32u8], &[32u8]).unwrap();
    assert_eq!(tree.get_root_split_count(), 1);
    assert!(!tree.get_root().is_leaf());
    assert!(tree.get_root().is_root());
    for i in 0..33u8 {
        assert_eq!(tree.get(&[i]).unwrap(), Some(vec![i]));
    }
}

#[test]
fn too_large_pair_leaves_the_tree_alone() {
    let mut tree = FPTree::new();
    tree.put(b"a", b"1").unwrap();
    let big = vec![0u8; 1024 * 1024];
    assert_eq!(tree.put(b"b", &big), Err(StoreError::TooLarge));
    assert_eq!(tree.get(b"a").unwrap(), Some(b"1".to_vec()));
    assert_eq!(tree.get(b"b").unwrap(), None);
}

#[test]
fn leaf_chain_is_in_key_order() {
    let mut tree = FPTree::new();
    for i in (0..200u32).rev() {
        let key = format!("k{:04}", i).into_bytes();
        tree.put(&key, &key).unwrap();
    }
    let manager = tree.get_leaf_manager();
    let chain = manager.get_leaf_id_chain().unwrap();
    let mut keys: Vec<Vec<u8>> = Vec::new();
    for id in chain {
        let header = manager.get_header(id).unwrap();
        let mut in_leaf: Vec<Vec<u8>> = Vec::new();
        for slot in 0..32 {
            if header.is_slot_set(slot) {
                let (page, offset, ks, vs) = header.get_kv_info(slot);
                in_leaf.push(manager.read_data(page, offset, ks, vs).unwrap().0);
            }
        }
        in_leaf.sort();
        keys.extend(in_leaf);
    }
    let mut expected: Vec<Vec<u8>> = (0..200u32).map(|i| format!("k{:04}", i).into_bytes()).collect();
    expected.sort();
    assert_eq!(keys, expected);
}
