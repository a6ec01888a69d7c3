//! A bridge between two wire shapes for query-string parameters: a
//! multi-valued map (each key carries an ordered, non-empty list of values)
//! and the older single-valued shape (one value per key). The downgrade from
//! the first to the second keeps, for every key, the value that appeared
//! first.

pub mod assoc;
pub mod multi;
pub mod wire;
