//! # kvs
//!
//! A log-structured key-value store. Every update is appended to a write-ahead
//! log as a BSON document; an in-memory index maps each key to the position of
//! the latest record written for it. This crate holds the store's logic: the
//! framing of the log, the index, the bookkeeping of log files and pointers,
//! and the planning of compaction. Reading and writing files is left to the
//! caller, which hands the library plain values.

/// Errors produced by the store.
pub mod error;
/// Records held in the log.
pub mod command;
/// Framing of the log: a sequence of length-prefixed BSON documents.
pub mod frame;
/// Names of the files the store keeps.
pub mod naming;
/// Log files, log pointers and compaction planning.
pub mod file_storage;
/// The order of keys.
pub mod key_order;
/// The key-value store built on the log.
pub mod store;
/// Requests understood by the server and the answers it gives.
pub mod server;
/// The interface of a storage engine.
pub mod traits;
/// Compass directions numbered from zero.
pub mod moves;

pub use file_storage::{LogPointer, StorageHandler};
pub use store::KvStore;
