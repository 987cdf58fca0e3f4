//! Fixed-capacity, insertion-ordered associative containers with
//! first-in-first-out eviction.
//!
//! Available containers:
//! - [`FIFOMap`]: a keyed cache mapping keys to values.
//! - [`FIFOSet`]: a key-only cache.
//!
//! Both have a capacity fixed at construction and, once full, evict the
//! oldest-inserted entry to make room for a new key. Insertion order alone
//! decides eviction; lookups never refresh an entry's position.

pub mod fifo_map;
pub mod fifo_set;
pub mod index;
mod order;

pub use fifo_map::FIFOMap;
pub use fifo_set::FIFOSet;
