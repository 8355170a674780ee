//! A fixed-capacity key/value cache that evicts the least-recently-used entry.

pub mod recency;
pub mod cache;

pub use cache::LruCache;
