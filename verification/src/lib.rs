//! A log-structured key-value storage engine: an in-memory write buffer backed
//! by a write-ahead log, immutable sorted on-disk segments with Bloom filters
//! and sparse indices, a freshness-ordered lookup path, and compaction.
//!
//! The engine itself performs no I/O: mutations return the exact bytes that a
//! caller must append to the write-ahead log or write out as a new segment, and
//! recovery takes the bytes read back from those files. This keeps every rule
//! of the store — durability, last-writer-wins, tombstone masking — a theorem
//! about the types in this crate.

pub mod bloom;
pub mod engine;
pub mod lex;
pub mod memtable;
pub mod numeral;
pub mod protocol;
pub mod record;
pub mod sstable;
pub mod wal;
