//! A single-process, log-structured key-value store.
//!
//! The persistent engine ([`engine::KvStorePersist`]) keeps an append-only
//! log of records and an in-memory index from each key to the offset of its
//! most recent record in that log.  The log is the source of truth: the index
//! can be discarded and rebuilt from it at any time by replaying every record
//! in order.  A purely in-memory variant ([`kv_map::KvStoreMap`]) implements
//! the same capability interface without persistence.
//!
//! Reading and writing the backing file is left to the (unverified) caller,
//! who hands the file's contents to [`engine::KvStorePersist::load_database_from_logs`]
//! and mirrors the engine's log back to disk after each mutation.

pub mod codec;
pub mod engine;
pub mod errors;
pub mod log;
pub mod kv_map;
pub mod laws;
pub mod record;
