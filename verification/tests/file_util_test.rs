use amphis::config::Config;
use amphis::util::file_util::{get_id, get_table_id, get_tree_id, parse_usize};

#[test]
fn ids_of_file_names() {
    assert_eq!(get_table_id("sstable-12.amph"), Some(12));
    assert_eq!(get_table_id("sstable-0.amph"), Some(0));
    assert_eq!(get_tree_id("leaves-3.amph"), Some(3));
    assert_eq!(get_tree_id("sstable-3.amph"), None);
    assert_eq!(get_table_id("leaves-3.amph"), None);
    assert_eq!(get_table_id("metadata.amph"), None);
    assert_eq!(get_table_id("sstable-.amph"), None);
    assert_eq!(get_table_id("sstable-1x.amph"), None);
    assert_eq!(get_table_id("sstable-7"), Some(7));
    assert_eq!(get_table_id("sstable-7.a.b"), None);
    assert_eq!(get_table_id("sstable-+7.amph"), Some(7));
    assert_eq!(get_table_id("sstable--7.amph"), None);
    assert_eq!(get_table_id("sstable-007.amph"), Some(7));
    assert_eq!(get_table_id(""), None);
    assert_eq!(get_id(b".hidden", b".hidden"), None);
    assert_eq!(get_id(b".5", b"."), Some(5));
}

#[test]
fn numbers_that_do_not_fit_are_no_ids() {
    let max = usize::MAX.to_string();
    assert_eq!(parse_usize(max.as_bytes()), Some(usize::MAX));
    let too_large = max.clone() + "0";
    assert_eq!(parse_usize(too_large.as_bytes()), None);
    assert_eq!(parse_usize(b"+"), None);
    assert_eq!(parse_usize(b""), None);
    assert_eq!(parse_usize(b"12"), Some(12));
}

#[test]
fn paths_follow_the_layout() {
    let config = Config::default();
    assert_eq!(config.get_leaf_dir_path("t"), "data/t");
    assert_eq!(config.get_table_dir_path("t"), "data/t");
    assert_eq!(config.get_leaf_file_path("t", 0), "data/t/leaves-0.amph");
    assert_eq!(config.get_leaf_file_path("t", 120), "data/t/leaves-120.amph");
    assert_eq!(config.get_table_file_path("t", 42), "data/t/sstable-42.amph");
    assert_eq!(config.get_metadata_path("t"), "data/t/metadata.amph");
    assert_eq!(config.get_root_split_threshold(), 6);
    assert_eq!(config.get_filter_items_count(), 8192);
    assert_eq!(config.get_filter_bitmap_size(), 9816);
    let other = Config::new("a".to_string(), "b".to_string(), 2, 10, 20);
    assert_eq!(other.get_leaf_file_path("n", 7), "a/n/leaves-7.amph");
    assert_eq!(other.get_table_file_path("n", 7), "b/n/sstable-7.amph");
}

#[test]
fn file_names_and_ids_agree() {
    let config = Config::default();
    for id in [0usize, 9, 10, 99, 100, 12345] {
        let path = config.get_table_file_path("t", id);
        let name = path.rsplit('/').next().unwrap();
        assert_eq!(get_table_id(name), Some(id));
        let path = config.get_leaf_file_path("t", id);
        let name = path.rsplit('/').next().unwrap();
        assert_eq!(get_tree_id(name), Some(id));
    }
}
