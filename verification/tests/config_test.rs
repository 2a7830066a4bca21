use amphis::config::Config;
use bloomfilter::Bloom;

#[test]
fn test_config() {
    let config = Config::default();
    assert_eq!(config.get_leaf_dir_path(""), "data/");
    assert_eq!(config.get_table_dir_path(""), "data/");
    assert_eq!(config.get_root_split_threshold(), 6);
    assert_eq!(config.get_filter_items_count(), 8192);
    // the size of a filter for 8192 keys at a rate of false positives of 0.01
    assert_eq!(
        config.get_filter_bitmap_size(),
        Bloom::<Vec<u8>>::compute_bitmap_size(8192, 0.01)
    );
}

#[test]
fn config_keeps_what_it_was_given() {
    let config = Config::new("leaves".to_string(), "tables".to_string(), 4, 100, 200);
    assert_eq!(config.get_leaf_dir_path("t"), "leaves/t");
    assert_eq!(config.get_table_dir_path("t"), "tables/t");
    assert_eq!(config.get_leaf_file_path("t", 3), "leaves/t/leaves-3.amph");
    assert_eq!(config.get_table_file_path("t", 12), "tables/t/sstable-12.amph");
    assert_eq!(config.get_metadata_path("t"), "tables/t/metadata.amph");
    assert_eq!(config.get_root_split_threshold(), 4);
    assert_eq!(config.get_filter_items_count(), 100);
    assert_eq!(config.get_filter_bitmap_size(), 200);
}
