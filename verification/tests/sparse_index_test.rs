use amphis::sparse_index::{SparseIndex, LEAST_OFFSET};

#[test]
fn first_key_is_always_kept() {
    let mut index = SparseIndex::new();
    assert_eq!(index.get_prev_offset(), usize::MAX);
    index.insert(b"a", 0);
    assert_eq!(index.get_entries(), &vec![(b"a".to_vec(), 0)]);
    assert_eq!(index.get_prev_offset(), 0);
    assert_eq!(index.get(b"a"), 0);
    assert_eq!(index.get(b"zzz"), 0);
}

#[test]
fn entries_are_a_stride_apart() {
    let mut index = SparseIndex::new();
    index.insert(b"a", 0);
    index.insert(b"b", LEAST_OFFSET - 1);
    index.insert(b"c", LEAST_OFFSET);
    index.insert(b"d", LEAST_OFFSET + 10);
    index.insert(b"e", 2 * LEAST_OFFSET);
    assert_eq!(
        index.get_entries(),
        &vec![
            (b"a".to_vec(), 0),
            (b"c".to_vec(), LEAST_OFFSET),
            (b"e".to_vec(), 2 * LEAST_OFFSET)
        ]
    );
    let entries = index.get_entries();
    for pair in entries.windows(2) {
        assert!(pair[0].0 < pair[1].0);
        assert!(pair[0].1 < pair[1].1);
        assert!(pair[1].1 - pair[0].1 >= LEAST_OFFSET);
    }
}

#[test]
fn get_returns_the_greatest_key_not_above() {
    let mut index = SparseIndex::new();
    index.insert(b"b", 0);
    index.insert(b"d", LEAST_OFFSET);
    index.insert(b"f", 2 * LEAST_OFFSET);
    assert_eq!(index.get(b"b"), 0);
    assert_eq!(index.get(b"c"), 0);
    assert_eq!(index.get(b"d"), LEAST_OFFSET);
    assert_eq!(index.get(b"e"), LEAST_OFFSET);
    assert_eq!(index.get(b"f"), 2 * LEAST_OFFSET);
    assert_eq!(index.get(b"g"), 2 * LEAST_OFFSET);
    assert_eq!(index.find(b"a"), None);
    assert_eq!(index.find(b"c"), Some(0));
}

#[test]
fn same_key_replaces_the_offset() {
    let mut index = SparseIndex::new();
    index.insert(b"a", 0);
    index.insert(b"a", LEAST_OFFSET);
    assert_eq!(index.get_entries(), &vec![(b"a".to_vec(), LEAST_OFFSET)]);
}

#[test]
fn keys_out_of_order_are_put_in_order() {
    let mut index = SparseIndex::new();
    index.insert(b"m", 0);
    index.insert(b"a", LEAST_OFFSET);
    assert_eq!(
        index.get_entries(),
        &vec![(b"a".to_vec(), LEAST_OFFSET), (b"m".to_vec(), 0)]
    );
}

#[test]
fn from_parts_wants_ascending_keys() {
    assert!(SparseIndex::from_parts(5, vec![(b"a".to_vec(), 0), (b"b".to_vec(), 5)]).is_some());
    assert!(SparseIndex::from_parts(5, vec![(b"b".to_vec(), 0), (b"a".to_vec(), 5)]).is_none());
    assert!(SparseIndex::from_parts(5, vec![(b"a".to_vec(), 0), (b"a".to_vec(), 5)]).is_none());
    let index = SparseIndex::from_parts(usize::MAX, Vec::new()).unwrap();
    assert_eq!(index.find(b"a"), None);
}
