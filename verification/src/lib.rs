//! A hash table built from scratch on an array of collision buckets.
//!
//! The table maps unique keys to values. Keys supply their own hashing
//! capability through the [`HashKey`] trait; the table owns a growable
//! store of buckets, each a chain of `(key, value)` entries, and keeps
//! the load factor bounded by doubling the store when an insert would
//! overfill it.

mod buckets;
mod hash_key;
mod table;

pub use hash_key::HashKey;
pub use table::HashMap;
pub use table::Iter;
