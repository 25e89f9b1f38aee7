//! Memory-mapped Prometheus metric files.

pub mod aggregate;
pub mod directory;
pub mod error;
pub mod exporter;
pub mod file_name;
pub mod gc;
pub mod key_table;
pub mod merge;
pub mod metric_key;
pub mod mmap_file;
pub mod native;
pub mod path;
pub mod publish;
pub mod raw_entry;
pub mod render;
pub mod scan;
pub mod service;
pub mod text;

pub use aggregate::aggregate_dir_to_prometheus_text;
pub use metric_key::{encode_labels, StoredMetricKey};
pub use mmap_file::MmapMetricStore;
