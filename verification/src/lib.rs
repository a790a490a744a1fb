//! An in-memory, deterministic substitute for an ordered key-value storage
//! backend, intended for exercising gas-accounting logic in tests.
//!
//! The store maps byte-string keys to byte-string values, ordered by
//! byte-lexicographic key comparison. Every operation reports a deterministic
//! cost ("gas") derived from the sizes of the data it touches. Range queries
//! translate an optional inclusive start, optional exclusive end, and a
//! direction into a bounded traversal of the sorted key space.

pub mod bytekey;
pub mod laws;
pub mod range;
pub mod store;
