//! An embedded, single-process key-value store built on a log-structured
//! merge design: writes accumulate in a bounded in-memory sorted table
//! (the memtable), which is flushed as an immutable sorted run (a segment)
//! when full; reads consult the memtable first and then the segments from
//! newest to oldest; pairs of old segments are merged by compaction.

pub mod codec;
pub mod compaction;
pub mod config;
pub mod database;
pub mod filter;
pub mod lines;
pub mod memtable;
pub mod order;
pub mod records;
pub mod segment;
pub mod sparse_index;
pub mod store;
