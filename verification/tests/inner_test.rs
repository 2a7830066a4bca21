use amphis::fptree::inner::{Inner, TreeNode, FANOUT};
use amphis::fptree::leaf::Leaf;
use amphis::fptree::leaf_manager::LeafManager;

fn leaf_with(manager: &mut LeafManager, key: &[u8], value: &[u8]) -> TreeNode {
    let mut leaf = Leaf::new(manager).unwrap();
    leaf.insert(manager, &key.to_vec(), &value.to_vec()).unwrap();
    TreeNode::Leaf(leaf)
}

fn leaf_id(node: &TreeNode) -> usize {
    match node {
        TreeNode::Leaf(leaf) => leaf.get_id(),
        TreeNode::Inner(_) => panic!("a leaf was expected"),
    }
}

fn first_key(node: &TreeNode) -> Vec<u8> {
    match node {
        TreeNode::Inner(inner) => inner.get_keys()[0].clone(),
        TreeNode::Leaf(_) => panic!("an inner node was expected"),
    }
}

#[test]
fn test_get_child() {
    let mut inner = Inner::new();
    inner.add_key(&vec![10 as u8]);

    let mut new_child1 = Inner::new();
    new_child1.add_key(&vec![1 as u8]);
    inner.add_child(TreeNode::Inner(new_child1));

    let mut new_child2 = Inner::new();
    new_child2.add_key(&vec![11 as u8]);
    inner.add_child(TreeNode::Inner(new_child2));

    let child1 = inner.get_child(&vec![0u8]).unwrap();
    assert_eq!(first_key(child1), vec![1u8]);
    let child2 = inner.get_child(&vec![11u8]).unwrap();
    assert_eq!(first_key(child2), vec![11u8]);
    // a key equal to the separator goes to the right
    assert_eq!(inner.get_child_index(&vec![10u8]), 1);
    assert_eq!(inner.get_child_index(&vec![9u8]), 0);
}

#[test]
fn inner_test_need_split() {
    let mut inner = Inner::new();
    assert_eq!(inner.need_split(), false);

    for i in 0..(FANOUT + 1) {
        inner.add_key(&vec![i as u8]);
    }
    assert_eq!(inner.need_split(), true);
}

#[test]
fn inner_may_need_split_at_fanout() {
    let mut inner = Inner::new();
    assert!(!inner.may_need_split());
    for i in 0..FANOUT {
        inner.add_key(&vec![i as u8]);
    }
    assert!(inner.may_need_split());
    assert!(!inner.need_split());
    assert!(!inner.is_leaf());
    assert!(!inner.is_root());
    inner.set_root(true);
    assert!(inner.is_root());
}

#[test]
fn test_insert() {
    let mut manager = LeafManager::new(Vec::new(), true);
    let mut inner = Inner::new();
    let key0 = "key0".as_bytes().to_vec();
    let key2 = "key2".as_bytes().to_vec();
    inner.add_key(&key0);
    inner.add_key(&key2);
    inner.add_child(leaf_with(&mut manager, b"key0", b"1"));
    inner.add_child(leaf_with(&mut manager, b"key2", b"2"));

    let inserted = "key1".as_bytes().to_vec();
    let new_child = leaf_with(&mut manager, b"key1", b"4");
    let new_id = leaf_id(&new_child);
    let split = inner.insert(&inserted, new_child);

    assert!(split.is_none());
    assert_eq!(inner.get_keys().len(), 3);
    assert_eq!(inner.get_keys()[0], key0);
    assert_eq!(inner.get_keys()[1], inserted);
    assert_eq!(inner.get_keys()[2], key2);
    // the new child stands behind its separator
    assert_eq!(leaf_id(inner.get_child(&inserted).unwrap()), new_id);
}

#[test]
fn inner_test_get() {
    let mut manager = LeafManager::new(Vec::new(), true);
    let mut inner = Inner::new();
    let k1 = "key1".as_bytes().to_vec();
    let k2 = "key2".as_bytes().to_vec();
    inner.add_key(&k1);
    inner.add_key(&k2);
    inner.add_child(leaf_with(&mut manager, b"key", b"value1"));
    inner.add_child(leaf_with(&mut manager, b"key1", b"value2"));
    inner.add_child(leaf_with(&mut manager, b"key2", b"value3"));

    let k = "key".as_bytes().to_vec();
    let result = inner.get(&manager, &k);

    assert_eq!(result.unwrap().unwrap(), "value1".as_bytes().to_vec());
    assert_eq!(inner.get(&manager, &k2).unwrap().unwrap(), b"value3".to_vec());
    assert_eq!(inner.get(&manager, &b"zzz".to_vec()).unwrap(), None);
}

#[test]
fn inner_test_split() {
    let mut manager = LeafManager::new(Vec::new(), true);
    let mut inner = Inner::new();
    let k1 = "key1".as_bytes().to_vec();
    let k2 = "key2".as_bytes().to_vec();
    let k3 = "key3".as_bytes().to_vec();
    let k4 = "key4".as_bytes().to_vec();
    for k in [&k1, &k2, &k3, &k4] {
        inner.add_key(k);
    }
    let mut ids = Vec::new();
    for k in [&b"key0"[..], &b"key1"[..], &b"key2"[..], &b"key3"[..], &b"key4"[..]] {
        let child = leaf_with(&mut manager, k, k);
        ids.push(leaf_id(&child));
        inner.add_child(child);
    }

    let (split_key, next) = inner.split();

    assert_eq!(split_key, k3);
    assert_eq!(inner.get_keys(), &vec!(k1.clone(), k2.clone()));
    assert_eq!(leaf_id(next.get_child(&split_key).unwrap()), ids[3]);
    assert_eq!(leaf_id(next.get_child(&k4).unwrap()), ids[4]);
    assert_eq!(next.get_keys(), &vec![k4.clone()]);
    assert_eq!(leaf_id(inner.get_child(&k2).unwrap()), ids[2]);
}

#[test]
fn insert_over_fanout_splits() {
    let mut manager = LeafManager::new(Vec::new(), true);
    let mut inner = Inner::new();
    for k in [b"b", b"d", b"f"] {
        inner.add_key(&k.to_vec());
    }
    for k in [b"a", b"b", b"d", b"f"] {
        inner.add_child(leaf_with(&mut manager, k, k));
    }
    let (up, right) = inner.insert(&b"c".to_vec(), leaf_with(&mut manager, b"c", b"c")).unwrap();
    assert_eq!(up, b"d".to_vec());
    assert_eq!(inner.get_keys(), &vec![b"b".to_vec(), b"c".to_vec()]);
    assert_eq!(right.get_keys(), &vec![b"f".to_vec()]);
    assert_eq!(inner.get(&manager, &b"c".to_vec()).unwrap(), Some(b"c".to_vec()));
    assert_eq!(right.get(&manager, &b"d".to_vec()).unwrap(), Some(b"d".to_vec()));
    assert_eq!(right.get(&manager, &b"f".to_vec()).unwrap(), Some(b"f".to_vec()));
}
