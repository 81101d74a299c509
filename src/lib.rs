//! An embedded, single-file, append-only record store.
//!
//! Documents are JSON objects keyed by a numeric identifier. The log is a
//! sequence of JSON lines; every view of the store is a function of the
//! sequence of records replayed from it.
pub mod boolean;
pub mod cache_tag;
pub mod codec;
pub mod database;
pub mod json;
pub mod laws;
pub mod record;
pub mod views;

pub use boolean::{False, True};
pub use cache_tag::{CacheTag, DefaultCacheTag, HashCacheTag};
pub use database::{Database, DbError, OpenOptions};
pub use record::{DeleteRecord, Document, Record, RecordData, RecordId, UpsertRecord};
