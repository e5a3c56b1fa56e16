//! Bounded key-value caches built on one recency-ordered list with a hash
//! index: a plain least-recently-used cache, a two-segment (2Q) cache and a
//! frequency-gated cache.
//!
//! Every cache states what it does over a sequence of key-value pairs, most
//! recently used first; `model` defines the operations on such sequences and
//! `history` relates their order to the operations that were made.

pub mod error;
pub mod model;
pub mod history;
pub mod list;
pub mod lru;
pub mod two_queue;
pub mod gated;

pub use crate::error::ConfigError;
pub use crate::gated::LruCache;
pub use crate::list::RecencyList;
pub use crate::lru::LRUCache;
pub use crate::two_queue::TwoQCache;
