//! Persistence and compaction core of a log-structured-merge store: sorted
//! key/value tables, their byte layout, merging, and tiered compaction.

pub mod codec;
pub mod compaction;
pub mod error;
pub mod records;
pub mod sstable;
