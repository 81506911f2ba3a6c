//! ShorterDB: an embeddable log-structured key-value store.
//!
//! Writes are framed into a write-ahead log, buffered in a sorted memtable,
//! and flushed into immutable sorted tables kept in size-tiered levels.
//! Every component states its behaviour over a mathematical model; the engine's
//! model is a map from keys to their latest value.

pub mod keys;
pub mod entry;
pub mod run;
pub mod memtable;
pub mod table;
pub mod levels;
pub mod db;
pub mod wal;
pub mod sstable;
