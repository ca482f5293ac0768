//! A bounded key-value cache that evicts the least recently used entry.
//!
//! [`LruCache`] is the executable cache. [`model::CacheState`] is the
//! mathematical value it stands for, over which every contract is stated,
//! and [`laws`] holds what is proved of that value once and for all.

pub mod cache;
pub mod laws;
pub mod model;

pub use crate::cache::LruCache;
