//! Prefix scans over a byte-ordered key space.
//!
//! A query for "every key that starts with `P`" is answered by a store that
//! only understands ranges of keys.  This crate turns the prefix into the
//! half-open range that holds exactly the keys with that prefix, and drives
//! a paged scan of that range to its end.

pub mod order;
pub mod range;
pub mod scan;
pub mod store;
pub mod batch;
