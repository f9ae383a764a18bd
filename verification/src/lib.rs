//! Exocore: an out-of-core relational query engine.
//!
//! The crate holds the engine's logic. Everything that touches a disk, a pipe or a
//! process is asked for by value: an operator reports which rows or blocks it needs,
//! and the caller hands them in.

pub mod active_partition;
pub mod adaptive_join;
pub mod adaptive_plan;
pub mod adaptive_spec;
pub mod answer;
pub mod binary_join;
pub mod bitmap_scan;
pub mod bits;
pub mod block_answer;
pub mod block_decode;
pub mod block_search;
pub mod bloom;
pub mod buffer;
pub mod buffer_manager;
pub mod byte_laws;
pub mod cache_laws;
pub mod catalog;
pub mod codec;
pub mod context;
pub mod data_order;
pub mod decode_laws;
pub mod error;
pub mod execution;
pub mod filter;
pub mod filter_laws;
pub mod float_laws;
pub mod floats;
pub mod group_merge;
pub mod hash_family;
pub mod hash_join;
pub mod hash_laws;
pub mod hashing;
pub mod hybrid_build;
pub mod hybrid_join;
pub mod hybrid_parts;
pub mod hybrid_probe;
pub mod hybrid_route;
pub mod join_builder;
pub mod join_laws;
pub mod join_order;
pub mod join_plan;
pub mod join_spec;
pub mod join_step;
pub mod join_table;
pub mod key_ordering;
pub mod line_laws;
pub mod lines;
pub mod loop_join;
pub mod memory;
pub mod memory_join;
pub mod merge_spec;
pub mod metrics;
pub mod metrics_laws;
pub mod names;
pub mod nested_loop;
pub mod ordering;
pub mod pairs;
pub mod part_files;
pub mod part_join;
pub mod partition;
pub mod partition_join;
pub mod pipeline;
pub mod plan;
pub mod plan_answer;
pub mod plan_laws;
pub mod planner;
pub mod probe_filter;
pub mod progress;
pub mod project;
pub mod protocol;
pub mod query;
pub mod query_laws;
pub mod record_laws;
pub mod report_laws;
pub mod row;
pub mod row_laws;
pub mod row_sort;
pub mod run_list;
pub mod run_merge;
pub mod scan;
pub mod scan_laws;
pub mod size_laws;
pub mod sort;
pub mod sort_laws;
pub mod sort_merge;
pub mod sort_plan;
pub mod splitter;
pub mod stats_laws;
pub mod storage_laws;
pub mod streaming;
pub mod sums;
pub mod temp_run;
pub mod temp_storage;
pub mod text;
pub mod text_laws;
pub mod validation;
pub mod value;
pub mod value_laws;
pub mod views;
