//! A multi-version sorted-iterator stack for an LSM-tree read path: leaf runs,
//! level concatenation, k-way merge and snapshot filtering, each with a cursor
//! contract stated over the sequence of entries that remain.
pub mod key;
pub mod iterator;
pub mod table;
pub mod concat;
pub mod merge_spec;
pub mod sorted;
pub mod user_key;
pub mod handle;
