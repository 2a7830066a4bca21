//! An embedded ordered key/value store: a fingerprinted B+-tree over
//! fixed-size leaf pages, drained into immutable sorted tables.

pub mod amphis_error;
pub mod util;
pub mod fptree;
pub mod sparse_index;
pub mod sstable_manager;
pub mod flush_writer;
pub mod fptree_manager;
pub mod config;
pub mod kvs;
pub mod flush_soundness;
