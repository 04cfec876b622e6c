//! A double-ended priority queue of `(priority, payload)` entries.
//!
//! The queue hands out its entry of least priority and its entry of greatest
//! priority in constant time and removes either in logarithmic time. The
//! storage is a `min_max_heap::MinMaxHeap`; everything this crate adds to it
//! is stated over the multiset of stored pairs and proved.

pub mod entry;
pub mod heap;
pub mod laws;
pub mod order;
pub mod sorted;
pub mod store;

pub use entry::Entry;
pub use heap::MinMax;
