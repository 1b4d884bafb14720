//! A log-structured key-value store: an append-only command log with an
//! in-memory index rebuilt by replay, and compaction of superseded records.

pub mod codec;
pub mod record;
pub mod replay;
pub mod store;
pub mod laws;

pub use store::{KvStore, KvStoreError};
