//! Verified data structures: a least-recently-used cache, with the recency
//! list and the key index that it is built from, and a heap sort.
//!
//! Every function of this crate carries a contract that Verus proves of its
//! body. The contracts speak of views: a list is a sequence of values, the
//! index a map from keys to handles, the cache a sequence of entries from
//! most to least recently used. `model` says what the cache's operations do
//! to that sequence and holds the laws that follow.

pub mod heap;
pub mod index;
pub mod list;
pub mod lru;
pub mod model;
