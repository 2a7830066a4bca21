pub mod data_util;
pub mod entry_sort;
pub mod file_util;
pub mod key_order;
