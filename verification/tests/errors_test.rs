use amphis::amphis_error::{CrudError, StoreError};
use amphis::flush_writer::FlushWriter;
use amphis::fptree::inner::{Inner, TreeNode};
use amphis::fptree::leaf::Leaf;
use amphis::fptree::leaf_manager::types::{LeafHeader, LEAF_SIZE, NUM_ALLOCATION};
use amphis::fptree::leaf_manager::LeafManager;
use amphis::fptree::node::Node;
use amphis::fptree::FPTree;
use amphis::fptree_manager::FPTreeManager;

/// The seed of the hash keys of the filters.
const SEED: [u8; 32] = [7u8; 32];

#[test]
fn crud_error_messages() {
    assert_eq!(CrudError::ReadError.message(), "read error");
    assert_eq!(CrudError::WriteError.message(), "write error");
    assert_eq!(CrudError::TimedOut.message(), "timed out");
    assert_eq!(CrudError::Unknown.message(), "unknown data store error");
}

#[test]
fn reads_and_writes_outside_the_file() {
    let mut manager = LeafManager::new(Vec::new(), true);
    assert_eq!(manager.read_data(0, 4096, 1, 1), Err(StoreError::OutOfRange));
    assert_eq!(
        manager.write_data(0, 4096, &vec![1u8], &vec![2u8]),
        Err(StoreError::OutOfRange)
    );
    let (id, _) = manager.allocate_leaf().unwrap();
    assert_eq!(manager.write_data(id, 4096, &vec![1u8], &vec![2u8]), Ok(Some(8192)));
    assert_eq!(manager.read_data(id, 4096, 1, 1), Ok((vec![1u8], vec![2u8])));
    assert_eq!(
        manager.read_data(NUM_ALLOCATION, 4096, 1, 1),
        Err(StoreError::OutOfRange)
    );
    assert_eq!(
        manager.read_data(usize::MAX, usize::MAX, 1, 1),
        Err(StoreError::OutOfRange)
    );
    // sizes that do not match what was written
    assert_eq!(manager.read_data(id, 4096, 2, 1), Err(StoreError::CrcMismatch));
}

#[test]
fn write_that_does_not_fit_writes_nothing() {
    let mut manager = LeafManager::new(Vec::new(), true);
    let (id, _) = manager.allocate_leaf().unwrap();
    let before = manager.image().clone();
    let last = LEAF_SIZE - 2 * 4096;
    assert_eq!(manager.write_data(id, last, &vec![1u8], &vec![2u8]), Ok(Some(last + 4096)));
    let written = manager.image().clone();
    assert_ne!(before, written);
    assert_eq!(manager.write_data(id, last + 4096, &vec![1u8], &vec![2u8]), Ok(None));
    assert_eq!(manager.image(), &written);
    assert_eq!(manager.write_data(id, 4096, &vec![0u8; LEAF_SIZE], &vec![]), Ok(None));
}

#[test]
fn chains_that_do_not_end_are_broken() {
    let mut manager = LeafManager::new(Vec::new(), true);
    let (id, mut header) = manager.allocate_leaf().unwrap();
    header.set_next(id);
    manager.commit_header(id, &header);
    assert_eq!(manager.get_leaf_id_chain(), Err(StoreError::BrokenChain));
    // an extension chain that leads back to its start
    header.set_next(0xFFFF_FFFF);
    header.set_ext(id);
    manager.commit_header(id, &header);
    let free = manager.free_count();
    assert_eq!(manager.allocate_ext_page(id), Err(StoreError::BrokenChain));
    assert_eq!(manager.free_count(), free);
    // an extension chain that starts at a page without a header
    assert_eq!(manager.allocate_ext_page(7), Err(StoreError::BrokenChain));
    assert_eq!(manager.get_leaf_id_chain().unwrap(), vec![id]);
}

#[test]
fn flush_of_a_page_without_header_fails() {
    let tree = FPTree::new();
    let mut writer = FlushWriter::new(0, 8192, 9816, SEED).unwrap();
    assert_eq!(
        writer.flush_kv(tree.get_leaf_manager(), &vec![5]).err(),
        Some(StoreError::BrokenChain)
    );
    // the id of the table is used up all the same
    assert_eq!(writer.get_table_id(), 2);
}

#[test]
fn no_table_id_left() {
    let tree = FPTree::new();
    let mut writer = FlushWriter::new(usize::MAX - 1, 8192, 9816, SEED).unwrap();
    assert_eq!(writer.create_new_table(), None);
    assert_eq!(writer.flush(&tree).err(), Some(StoreError::NoSpace));
    assert_eq!(writer.get_table_id(), usize::MAX - 1);
    assert!(FlushWriter::new(0, 0, 9816, SEED).is_none());
    assert!(FlushWriter::new(0, 8192, 0, SEED).is_none());
    assert!(FlushWriter::new(0, 8192, usize::MAX / 4, SEED).is_none());
}

#[test]
fn recovery_keeps_pages_with_sound_headers() {
    let mut manager = LeafManager::new(Vec::new(), true);
    let (first, header) = manager.allocate_leaf().unwrap();
    manager.commit_header(first, &header);
    let (second, _) = manager.allocate_leaf().unwrap();
    let (third, header) = manager.allocate_leaf().unwrap();
    manager.commit_header(third, &header);
    let image = manager.image().clone();
    assert_eq!(image.len(), NUM_ALLOCATION * LEAF_SIZE);

    let mut recovered = LeafManager::new(image.clone(), false);
    assert!(recovered.get_header(first).is_some());
    assert!(recovered.get_header(second).is_none());
    assert!(recovered.get_header(third).is_some());
    assert_eq!(recovered.get_header(third).unwrap(), LeafHeader::new());
    assert_eq!(recovered.free_count(), NUM_ALLOCATION - 2);
    // the pages that wait are handed out in ascending order
    assert_eq!(recovered.allocate_leaf().unwrap().0, second);
    assert_eq!(recovered.allocate_leaf().unwrap().0, 3);

    // a file that was just made is not looked through
    let created = LeafManager::new(image, true);
    assert!(created.get_header(first).is_none());
    assert_eq!(created.free_count(), 0);
}

#[test]
fn the_file_grows_by_groups_of_pages() {
    let mut manager = LeafManager::new(Vec::new(), true);
    for expected in 0..(NUM_ALLOCATION + 1) {
        let (id, _) = manager.allocate_leaf().unwrap();
        assert_eq!(id, expected);
    }
    assert_eq!(manager.image().len(), 2 * NUM_ALLOCATION * LEAF_SIZE);
    assert_eq!(manager.free_count(), NUM_ALLOCATION - 1);
}

#[test]
fn nodes_share_their_flags() {
    fn flags<N: Node>(node: &mut N) -> (bool, bool, bool) {
        node.set_root(true);
        (node.is_root(), node.is_leaf(), node.may_need_split())
    }
    let mut manager = LeafManager::new(Vec::new(), true);
    let mut leaf = Leaf::new(&mut manager).unwrap();
    assert!(!Node::is_root(&leaf));
    assert_eq!(flags(&mut leaf), (true, true, false));
    let mut inner = Inner::new();
    assert_eq!(flags(&mut inner), (true, false, false));
    for key in [b"a", b"b", b"c"] {
        inner.add_key(&key.to_vec());
    }
    assert_eq!(flags(&mut inner), (true, false, true));
    let mut node = TreeNode::Leaf(leaf);
    node.set_root(false);
    assert_eq!(flags(&mut node), (true, true, false));
}

#[test]
fn tree_manager_routes_to_the_new_tree() {
    let mut manager = FPTreeManager::new(1);
    assert_eq!(manager.get_fptree_id(), 0);
    assert!(!manager.need_flush());
    assert!(!manager.prepare_flush(false));
    for i in 0..33u8 {
        manager.put(&[i], &[i]).unwrap();
    }
    assert!(manager.need_flush());
    // writers are at work: the new tree is put in place, the flush is put off
    assert!(!manager.prepare_flush(true));
    assert!(manager.get_new_fptree().is_some());
    assert!(!manager.need_flush());
    // with the new tree in place there is nothing to prepare
    assert!(!manager.prepare_flush(true));
    assert!(!manager.prepare_flush(false));
    assert!(manager.get_new_fptree().is_some());
    // the flush that was put off can go on once the writers are done
    assert!(!manager.resume_flush(true));
    assert!(manager.resume_flush(false));
    manager.put(&[1u8], b"new").unwrap();
    manager.delete(&[2u8]).unwrap();
    // the frozen tree keeps what it had, the new tree is asked first
    assert_eq!(manager.get_fptree().get(&[1u8]).unwrap(), Some(vec![1u8]));
    assert_eq!(manager.get(&[1u8]).unwrap(), Some(b"new".to_vec()));
    assert_eq!(manager.get(&[2u8]).unwrap(), Some(Vec::new()));
    assert_eq!(manager.get(&[3u8]).unwrap(), Some(vec![3u8]));
    assert_eq!(manager.switch_fptree(), 0);
    assert_eq!(manager.get_fptree_id(), 1);
    assert!(manager.get_new_fptree().is_none());
    assert_eq!(manager.get(&[1u8]).unwrap(), Some(b"new".to_vec()));
    assert_eq!(manager.get(&[3u8]).unwrap(), None);
}
