use amphis::amphis_error::StoreError;
use amphis::flush_writer::{FlushSignal, FlushWriter};
use amphis::fptree::FPTree;
use amphis::kvs::{FlushOutcome, KVS};
use amphis::sstable_manager::{
    frame_record, get_from_table, next_table_id, parse_records, read_slot, SstableManager,
};
use amphis::util::data_util::format_data_with_crc;

/// The seed of the hash keys of the filters.
const SEED: [u8; 32] = [7u8; 32];

fn new_kvs(threshold: usize) -> KVS {
    let writer = FlushWriter::new(0, 8192, 9816, SEED).unwrap();
    KVS::new(threshold, SstableManager::new(), writer)
}

fn put(kvs: &mut KVS, key: &[u8], value: &[u8]) -> Option<FlushOutcome> {
    match kvs.put(key, value).unwrap() {
        Some(signal) => Some(kvs.handle_signal(signal, false).unwrap()),
        None => None,
    }
}

#[test]
fn kvs_test_test_mutations() {
    const NUM_INSERTION: usize = 1025;
    let mut kvs = new_kvs(6);

    // INSERT
    for i in 0..NUM_INSERTION {
        let key = ("k".to_string() + &i.to_string()).as_bytes().to_vec();
        let value = ("v".to_string() + &i.to_string()).as_bytes().to_vec();
        put(&mut kvs, &key, &value);
    }

    // UPDATE or DELETE
    for i in 0..NUM_INSERTION {
        if i % 2 != 0 && i % 3 != 0 {
            continue;
        }

        let key = ("k".to_string() + &i.to_string()).as_bytes().to_vec();
        if i % 3 == 0 {
            kvs.delete(&key).unwrap();
        } else {
            let value = ("new-v".to_string() + &i.to_string()).as_bytes().to_vec();
            put(&mut kvs, &key, &value);
        }
    }

    // CHECK
    for i in 0..NUM_INSERTION {
        let key = ("k".to_string() + &i.to_string()).as_bytes().to_vec();
        let expected = if i % 2 == 0 {
            ("new-v".to_string() + &i.to_string()).as_bytes().to_vec()
        } else {
            ("v".to_string() + &i.to_string()).as_bytes().to_vec()
        };

        let actual = kvs.get(&key).unwrap();

        if i % 3 == 0 {
            assert_eq!(actual, None);
        } else {
            assert_eq!(actual.unwrap(), expected);
        }
    }
}

#[test]
fn mutations_across_flushes() {
    const NUM_INSERTION: usize = 300;
    let mut kvs = new_kvs(2);
    let mut flushes = 0;
    for i in 0..NUM_INSERTION {
        let key = ("k".to_string() + &i.to_string()).as_bytes().to_vec();
        let value = ("v".to_string() + &i.to_string()).as_bytes().to_vec();
        if let Some(FlushOutcome::Flushed { .. }) = put(&mut kvs, &key, &value) {
            flushes += 1;
        }
    }
    for i in 0..NUM_INSERTION {
        if i % 2 != 0 && i % 3 != 0 {
            continue;
        }
        let key = ("k".to_string() + &i.to_string()).as_bytes().to_vec();
        if i % 3 == 0 {
            kvs.delete(&key).unwrap();
        } else {
            let value = ("new-v".to_string() + &i.to_string()).as_bytes().to_vec();
            if let Some(FlushOutcome::Flushed { .. }) = put(&mut kvs, &key, &value) {
                flushes += 1;
            }
        }
    }
    assert!(flushes >= 2);
    for i in 0..NUM_INSERTION {
        let key = ("k".to_string() + &i.to_string()).as_bytes().to_vec();
        let actual = kvs.get(&key).unwrap();
        if i % 3 == 0 {
            assert_eq!(actual, None);
        } else if i % 2 == 0 {
            assert_eq!(actual, Some(("new-v".to_string() + &i.to_string()).into_bytes()));
        } else {
            assert_eq!(actual, Some(("v".to_string() + &i.to_string()).into_bytes()));
        }
    }
}

#[test]
fn test_recovery() {
    const NUM_INSERTION: usize = 1025;
    let mut kvs = new_kvs(6);

    // INSERT
    for i in 0..NUM_INSERTION {
        let key = "k".to_string() + &i.to_string();
        let value = "v".to_string() + &i.to_string();
        put(&mut kvs, key.as_bytes(), value.as_bytes());
    }

    // RESTART: the tables are kept, the leaf file of the current tree is
    // written out as a table before the store serves again
    let image = kvs
        .get_fptree_manager()
        .get_fptree()
        .get_leaf_manager()
        .image()
        .clone();
    let recovered = kvs.recover_leaf_file(image).unwrap();
    assert!(kvs.get_sstable_manager().get_table(0, recovered).is_some());
    assert!(kvs.get_sstable_manager().table_ids(0).contains(&recovered));
    let (_, tables, writer) = kvs.into_parts();
    let kvs = KVS::new(6, tables, writer);

    // CHECK
    for i in 0..NUM_INSERTION {
        let key = format!("{}{}", "k", (&*i.to_string()));
        let expected = format!("{}{}", "v", (&*i.to_string())).as_bytes().to_vec();

        let actual = kvs
            .get(key.as_bytes())
            .expect("read failed")
            .expect("no value");

        assert_eq!(actual, expected);
    }
}

#[test]
fn tombstone_hides_the_value_in_a_table() {
    let mut kvs = new_kvs(1);
    put(&mut kvs, b"x", b"1");
    let mut flushed = false;
    for i in 0..200u32 {
        let key = format!("key{:04}", i).into_bytes();
        if let Some(FlushOutcome::Flushed { .. }) = put(&mut kvs, &key, b"v") {
            flushed = true;
        }
    }
    assert!(flushed);
    assert_eq!(kvs.get(b"x").unwrap(), Some(b"1".to_vec()));
    kvs.delete(b"x").unwrap();
    assert_eq!(kvs.get(b"x").unwrap(), None);
    put(&mut kvs, b"x", b"2");
    assert_eq!(kvs.get(b"x").unwrap(), Some(b"2".to_vec()));
}

#[test]
fn newer_table_wins() {
    let mut kvs = new_kvs(1);
    let mut tables = 0;
    for round in 0..3u8 {
        for i in 0..100u32 {
            let key = format!("key{:04}", i).into_bytes();
            if let Some(FlushOutcome::Flushed { table_id, .. }) = put(&mut kvs, &key, &[b'a' + round]) {
                assert_eq!(table_id, 2 * tables);
                tables += 1;
            }
        }
    }
    assert!(tables >= 2);
    for i in 0..100u32 {
        let key = format!("key{:04}", i).into_bytes();
        assert_eq!(kvs.get(&key).unwrap(), Some(vec![b'c']));
    }
}

#[test]
fn flush_cycle_loses_nothing() {
    let mut kvs = new_kvs(1);
    let mut written: Vec<Vec<u8>> = Vec::new();
    let mut flushes = 0;
    for i in 0..200u32 {
        let key = format!("key{:04}", (i * 7919) % 1000).into_bytes();
        let signal = kvs.put(&key, &key).unwrap();
        written.push(key);
        if let Some(signal) = signal {
            let seen: Vec<Option<Vec<u8>>> = written.iter().map(|k| kvs.get(k).unwrap()).collect();
            kvs.handle_signal(signal, false).unwrap();
            let after: Vec<Option<Vec<u8>>> = written.iter().map(|k| kvs.get(k).unwrap()).collect();
            assert_eq!(seen, after);
            flushes += 1;
        }
    }
    assert!(flushes >= 1);
    for key in &written {
        assert_eq!(kvs.get(key).unwrap(), Some(key.clone()));
    }
}

#[test]
fn signals() {
    let mut kvs = new_kvs(6);
    assert_eq!(kvs.handle_signal(FlushSignal::Shutdown, false), Ok(FlushOutcome::Stop));
    assert_eq!(kvs.handle_signal(FlushSignal::TryFlush, false), Ok(FlushOutcome::Idle));
    assert_eq!(kvs.put(b"a", b"1"), Ok(None));
    assert_eq!(kvs.put(b"a", &vec![0u8; 2_000_000]), Err(StoreError::TooLarge));
    assert_eq!(kvs.get(b"a").unwrap(), Some(b"1".to_vec()));
}

#[test]
fn writers_at_work_put_a_flush_off() {
    let mut kvs = new_kvs(1);
    let mut signal = None;
    for i in 0..40u8 {
        signal = kvs.put(&[i], &[i]).unwrap();
        if signal.is_some() {
            break;
        }
    }
    let signal = signal.expect("a flush should be due");
    assert!(kvs.get_fptree_manager().need_flush());
    assert_eq!(kvs.handle_signal(signal, true), Ok(FlushOutcome::Idle));
    // the new tree is in place and takes the writes
    assert!(kvs.get_fptree_manager().get_new_fptree().is_some());
    assert!(!kvs.get_fptree_manager().need_flush());
    assert!(!kvs.get_fptree_manager().resume_flush(true));
    assert!(kvs.get_fptree_manager().resume_flush(false));
    // no flush is due while the new tree is in place, so the write asks for none
    assert_eq!(kvs.put(b"late", b"write"), Ok(None));
    assert_eq!(kvs.get(b"late").unwrap(), Some(b"write".to_vec()));
    assert_eq!(kvs.get(&[3u8]).unwrap(), Some(vec![3u8]));
    // once the writers are done the flush is taken up again
    assert_eq!(
        kvs.handle_signal(FlushSignal::TryFlush, false),
        Ok(FlushOutcome::Flushed { table_id: 0, retired: 0 })
    );
    assert!(kvs.get_fptree_manager().get_new_fptree().is_none());
    assert!(!kvs.get_fptree_manager().resume_flush(false));
    assert_eq!(kvs.get_fptree_manager().get_fptree_id(), 1);
    assert_eq!(kvs.get_sstable_manager().table_ids(0), vec![0]);
    assert_eq!(kvs.get(b"late").unwrap(), Some(b"write".to_vec()));
    assert_eq!(kvs.get(&[3u8]).unwrap(), Some(vec![3u8]));
    assert_eq!(kvs.handle_signal(FlushSignal::TryFlush, false), Ok(FlushOutcome::Idle));
}

#[test]
fn table_is_the_pairs_in_order() {
    let mut tree = FPTree::new();
    for key in [&b"b"[..], &b"a"[..], &b"c"[..]] {
        tree.put(key, key).unwrap();
    }
    tree.delete(b"b").unwrap();
    let mut writer = FlushWriter::new(4, 8192, 9816, SEED).unwrap();
    let (info, bytes) = writer.flush(&tree).unwrap();
    assert_eq!(info.id, 4);
    assert_eq!(writer.get_table_id(), 6);
    assert_eq!(info.level, 0);
    assert_eq!(info.size, bytes.len());
    // the filter is made as the writer was told
    let expected = bloomfilter::Bloom::<Vec<u8>>::new_with_seed(9816, 8192, &SEED);
    assert_eq!(info.filter.number_of_bits(), 9816 * 8);
    assert_eq!(info.filter.number_of_hash_functions(), expected.number_of_hash_functions());
    assert_eq!(info.filter.sip_keys(), expected.sip_keys());
    let mut expected = format_data_with_crc(&b"a".to_vec(), &b"a".to_vec());
    expected.extend(format_data_with_crc(&b"b".to_vec(), &Vec::new()));
    expected.extend(format_data_with_crc(&b"c".to_vec(), &b"c".to_vec()));
    assert_eq!(bytes, expected);
    assert_eq!(info.index.get_entries(), &vec![(b"a".to_vec(), 0)]);
    assert!(info.filter.check(&b"a".to_vec()));
    assert!(info.filter.check(&b"b".to_vec()));
    assert!(info.filter.check(&b"c".to_vec()));
    assert_eq!(get_from_table(&bytes, &b"c".to_vec(), 0), Ok(Some(b"c".to_vec())));
    assert_eq!(get_from_table(&bytes, &b"b".to_vec(), 0), Ok(Some(Vec::new())));
    assert_eq!(get_from_table(&bytes, &b"d".to_vec(), 0), Ok(None));
    assert_eq!(get_from_table(&bytes, &b"a".to_vec(), 18), Ok(None));
    assert_eq!(get_from_table(&bytes, &b"a".to_vec(), bytes.len() + 1), Err(StoreError::OutOfRange));
    assert_eq!(read_slot(&bytes, bytes.len()), Ok(None));
    let mut broken = bytes.clone();
    broken[4] ^= 1;
    assert_eq!(get_from_table(&broken, &b"c".to_vec(), 0), Err(StoreError::CrcMismatch));
    let mut short = bytes.clone();
    short.truncate(6);
    assert_eq!(get_from_table(&short, &b"c".to_vec(), 0), Err(StoreError::OutOfRange));
}

#[test]
fn next_table_id_is_the_next_even_number() {
    assert_eq!(next_table_id(&Vec::new()), Some(0));
    assert_eq!(next_table_id(&vec![0]), Some(2));
    assert_eq!(next_table_id(&vec![1]), Some(2));
    assert_eq!(next_table_id(&vec![4, 2, 7]), Some(8));
    assert_eq!(next_table_id(&vec![usize::MAX]), None);
}

#[test]
fn records_with_a_bad_checksum_are_skipped() {
    let mut log = frame_record(&b"first".to_vec());
    let second = log.len();
    log.extend(frame_record(&b"second".to_vec()));
    log.extend(frame_record(&b"third".to_vec()));
    assert_eq!(
        parse_records(&log),
        vec![b"first".to_vec(), b"second".to_vec(), b"third".to_vec()]
    );
    log[second + 5] ^= 0x10;
    assert_eq!(parse_records(&log), vec![b"first".to_vec(), b"third".to_vec()]);
    log.truncate(log.len() - 1);
    assert_eq!(parse_records(&log), vec![b"first".to_vec()]);
    assert_eq!(parse_records(&Vec::new()), Vec::<Vec<u8>>::new());
}

#[test]
fn corrupt_header_frees_the_page() {
    let mut tree = FPTree::new();
    for i in 0..100u8 {
        tree.put(&[i], &[i]).unwrap();
    }
    let manager = tree.get_leaf_manager();
    let chain = manager.get_leaf_id_chain().unwrap();
    assert!(chain.len() >= 3);
    let mut image = manager.image().clone();
    // flip a byte in the header of the last leaf of the chain
    let last = *chain.last().unwrap();
    image[last * 1024 * 1024 + 30] ^= 0xFF;
    let recovered = amphis::fptree::leaf_manager::LeafManager::new(image.clone(), false);
    assert!(recovered.get_header(last).is_none());
    assert!(recovered.get_header(chain[0]).is_some());
    // the page is free again and no longer part of the chain
    assert_eq!(
        recovered.get_leaf_id_chain().unwrap(),
        chain[..chain.len() - 1].to_vec()
    );
    // the leaves before it are still read and written out
    let mut kvs = new_kvs(6);
    let table_id = kvs.recover_leaf_file(image).unwrap();
    assert_eq!(table_id, 0);
    assert_eq!(kvs.get(&[0u8]).unwrap(), Some(vec![0u8]));
    let mut found = 0;
    for i in 0..100u8 {
        if let Some(value) = kvs.get(&[i]).unwrap() {
            assert_eq!(value, vec![i]);
            found += 1;
        }
    }
    assert!(found >= 32 && found < 100);
}

#[test]
fn corrupt_first_header_leaves_an_empty_chain() {
    let mut tree = FPTree::new();
    tree.put(b"a", b"1").unwrap();
    let mut image = tree.get_leaf_manager().image().clone();
    image[0] ^= 0x01;
    let recovered = amphis::fptree::leaf_manager::LeafManager::new(image.clone(), false);
    assert_eq!(recovered.get_leaf_id_chain().unwrap(), Vec::<usize>::new());
    assert_eq!(recovered.free_count(), 16);
    let mut kvs = new_kvs(6);
    kvs.recover_leaf_file(image).unwrap();
    assert_eq!(kvs.get(b"a").unwrap(), None);
}

#[test]
fn recovery_keeps_what_the_tree_stored() {
    let mut tree = FPTree::new();
    for i in 0..300u32 {
        let key = format!("k{}", i).into_bytes();
        tree.put(&key, &key).unwrap();
    }
    tree.delete(b"k7").unwrap();
    let image = tree.get_leaf_manager().image().clone();
    let mut kvs = new_kvs(6);
    kvs.recover_leaf_file(image).unwrap();
    for i in 0..300u32 {
        let key = format!("k{}", i).into_bytes();
        let expected = if i == 7 { None } else { Some(key.clone()) };
        assert_eq!(kvs.get(&key).unwrap(), expected);
    }
}

#[test]
fn recovery_of_both_trees_keeps_the_later_write() {
    let mut kvs = new_kvs(1);
    let mut signal = None;
    for i in 0..40u8 {
        signal = kvs.put(&[i], &[i]).unwrap();
        if signal.is_some() {
            break;
        }
    }
    let signal = signal.expect("a flush should be due");
    // the flush is put off, so both trees are there
    assert_eq!(kvs.handle_signal(signal, true), Ok(FlushOutcome::Idle));
    assert_eq!(kvs.put(&[3u8], b"later"), Ok(None));
    kvs.delete(&[4u8]).unwrap();
    assert_eq!(kvs.put(b"late", b"write"), Ok(None));
    let trees = kvs.get_fptree_manager();
    let first = trees.get_fptree().get_leaf_manager().image().clone();
    let second = trees.get_new_fptree().unwrap().get_leaf_manager().image().clone();

    let mut reopened = new_kvs(1);
    assert_eq!(reopened.recover_leaf_file(first), Ok(0));
    assert_eq!(reopened.recover_leaf_file(second), Ok(2));
    for i in 0..40u8 {
        assert_eq!(reopened.get(&[i]).unwrap(), kvs.get(&[i]).unwrap());
    }
    assert_eq!(reopened.get(&[3u8]).unwrap(), Some(b"later".to_vec()));
    assert_eq!(reopened.get(&[4u8]).unwrap(), None);
    assert_eq!(reopened.get(&[5u8]).unwrap(), Some(vec![5u8]));
    assert_eq!(reopened.get(b"late").unwrap(), Some(b"write".to_vec()));
}

#[test]
fn flush_without_an_id_left_keeps_both_trees() {
    let writer = FlushWriter::new(usize::MAX - 1, 8192, 9816, SEED).unwrap();
    let mut kvs = KVS::new(1, SstableManager::new(), writer);
    let mut signal = None;
    for i in 0..40u8 {
        signal = kvs.put(&[i], &[i]).unwrap();
        if signal.is_some() {
            break;
        }
    }
    let signal = signal.expect("a flush should be due");
    assert_eq!(kvs.handle_signal(signal, false), Err(StoreError::NoSpace));
    assert!(kvs.get_fptree_manager().get_new_fptree().is_some());
    assert_eq!(kvs.get_sstable_manager().level_count(), 0);
    assert_eq!(kvs.get(&[3u8]).unwrap(), Some(vec![3u8]));
    assert_eq!(kvs.put(b"late", b"write"), Ok(None));
    assert_eq!(kvs.get(b"late").unwrap(), Some(b"write".to_vec()));
    // the flush is taken up again and fails again, and nothing is lost
    assert_eq!(kvs.handle_signal(FlushSignal::TryFlush, false), Err(StoreError::NoSpace));
    assert_eq!(kvs.get(&[3u8]).unwrap(), Some(vec![3u8]));
    assert_eq!(kvs.get(b"late").unwrap(), Some(b"write".to_vec()));
}

#[test]
fn tables_of_a_level_ascend_by_id() {
    let mut tables = SstableManager::new();
    for id in [4usize, 0, 2, 4] {
        let mut tree = FPTree::new();
        tree.put(b"k", &[id as u8 + 1]).unwrap();
        let mut writer = FlushWriter::new(id, 8192, 9816, SEED).unwrap();
        let (info, bytes) = writer.flush(&tree).unwrap();
        tables.register(info, bytes);
        let ids = tables.table_ids(0);
        assert!(ids.windows(2).all(|pair| pair[0] < pair[1]));
    }
    assert_eq!(tables.table_ids(0), vec![0, 2, 4]);
    // the table with the greatest id is the newest
    assert_eq!(tables.get(b"k").unwrap(), Some(vec![5u8]));
}
