//! A log-structured merge tree with multi-version concurrency control.
//!
//! The content of the engine is a sorted sequence of versioned entries. What a reader finds in
//! it depends on the reader's timestamp; see `snapshot`. The engine itself is in `lsm_storage`,
//! and transactions are in `mvcc`.
pub mod block;
pub mod bound;
pub mod codec;
pub mod common;
pub mod compact;
pub mod entry;
pub mod error;
pub mod gc;
pub mod hash;
pub mod iterators;
pub mod key;
pub mod lsm_iterator;
pub mod lsm_storage;
pub mod manifest;
pub mod mem_table;
pub mod merge;
pub mod mvcc;
pub mod order;
pub mod snapshot;
pub mod sources;
pub mod table;
pub mod version_map;
pub mod wal;
