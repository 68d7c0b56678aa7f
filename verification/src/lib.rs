//! A content-addressed, append-only delta store.
//!
//! Deltas (full texts or diffs against a base revision) are buffered by a
//! mutable pack writer and published as an immutable, content-hash-named
//! pair of byte streams: a data file and a fanout-accelerated sorted index.
//! A pack reader locates entries through the index and reconstructs delta
//! chains back to a full-text base, decompressing lazily.

pub mod bytes;
pub mod error;
pub mod meta;
pub mod types;
pub mod record;
pub mod codec;
pub mod dataindex;
pub mod mutabledatapack;
pub mod datapack;
pub mod commits;
