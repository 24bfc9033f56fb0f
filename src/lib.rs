//! A client for a transactional, sorted key-value store: byte-string keys,
//! canonical scan ranges, a region routing cache, a monotonic timestamp
//! allocator, an in-memory multi-version store, and snapshot-isolated
//! transactions committed in two phases.

pub mod bound_range;
pub mod client;
pub mod directory;
pub mod error;
pub mod key;
pub mod options;
pub mod store;
pub mod table;
pub mod timestamp;
pub mod transaction;
