//! An embedded log-structured-merge key-value storage core.
//!
//! The crate provides the data-layout machinery of an LSM tree: the
//! length-prefixed entry codec shared by blocks and the write-ahead log,
//! the fixed-capacity block format with its builder and iterator, the
//! sorted-string-table format with its sparse index and footer, and the
//! in-memory table paired with a write-ahead log.  All encoding, decoding
//! and search logic works on plain byte vectors; reading and writing the
//! backing files is left to the embedding program.

pub mod blocks;
pub mod codec;
pub mod error;
pub mod iterator;
pub mod keys;
pub mod memtable;
pub mod sstable;
pub mod util;
