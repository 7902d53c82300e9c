//! Classic algorithms and data structures with machine-checked contracts.

pub mod aho_corasick;
pub mod binary_search_tree;
pub mod exchange;
pub mod heap_sort;
pub mod hyper_log_log;
pub mod merge_sort;
pub mod order;
pub mod quick_sort;
