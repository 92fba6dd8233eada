//! Read-path primitives of a log-structured-merge storage engine: the
//! sorted block encoding used inside tables, and the k-way merge iterator
//! that combines several sorted sources into one duplicate-resolved stream.

pub mod block;
pub mod builder;
pub mod iterator;
pub mod key;
pub mod merge_iterator;
pub mod storage_iterator;
