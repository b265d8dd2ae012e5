//! A size-bounded, in-memory key-value store with least-recently-used
//! eviction, timestamped entries and prefix-scoped bulk operations.
//!
//! The store keeps its entries in an `lru::LruCache`. Every operation of
//! [`cache::BoundedCache`] is specified over a sequence of entries ordered
//! from the most recently used to the least recently used one ([`model`]);
//! [`laws`] proves what holds across operations, and [`handlers`] says what
//! is answered to each request of the protocol in front of the store.

pub mod cache;
pub mod config;
pub mod entry;
pub mod handlers;
pub mod laws;
pub mod listing;
pub mod model;
pub mod store;
pub mod text;
pub mod time;

pub use cache::BoundedCache;
pub use entry::Entry;
pub use handlers::{DBStatus, InfoResponse, Reply};
pub use time::Timestamp;
