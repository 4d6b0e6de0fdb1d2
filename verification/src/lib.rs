//! A log-structured merge tree storage engine: block encoding and iteration,
//! SST building, compaction planning, and the manifest and WAL record formats.

pub mod key;
pub mod block;
pub mod compact;
pub mod lsm_storage;
pub mod iterators;
pub mod table;
pub mod manifest;
pub mod wal;
