//! The keys and values that a node holds.
pub mod blob;
pub mod laws;
pub mod map;
pub mod store;
pub mod tombstones;

pub use map::CacheEntry;
pub use store::CacheStore;
