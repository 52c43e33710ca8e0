//! Bounded in-process caches with interchangeable eviction policies.
//!
//! Every engine implements [`Cache`]: keys are `u64`, values are handed out as
//! shared `Arc` handles, and each operation states exactly how it changes the
//! stored entries, the eviction order and the hit/miss counters.
pub mod cache;
pub mod keyed;
mod chance;
mod clock;
mod linked;

pub use crate::cache::fifo::FIFOCache;
pub use crate::cache::lfu::LFUCache;
pub use crate::cache::lifo::LIFOCache;
pub use crate::cache::lru::LRUCache;
pub use crate::cache::mru::MRUCache;
pub use crate::cache::random_replacement::RandomReplacementCache;
pub use crate::cache::ttl::TTLCache;
pub use crate::cache::{Cache, CacheStats};
