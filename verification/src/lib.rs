//! A fixed-capacity least-recently-used cache with constant-time operations,
//! together with the in-memory front of the key-value store that sits beside it.
//!
//! * [`recency`] is the mathematical model: a cache's contents as a sequence of
//!   entries, most recently used first, and what each operation does to it.
//! * [`lru`] is the cache itself: an arena of slots threaded into a doubly
//!   linked list, a forward index from key to slot and a reverse index from
//!   slot to key.
//! * [`kv`] and [`error`] hold the store's front and the error types.
pub mod error;
pub mod kv;
pub mod lru;
pub mod recency;

pub use error::{CacheError, KvsError};
pub use kv::KvStore;
pub use lru::BoundedLRU;
