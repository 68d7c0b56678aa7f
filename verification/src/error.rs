//! Error taxonomy of the pack store.

use vstd::prelude::*;

verus! {

/// What can go wrong in the pack store.
///
/// Configuration mistakes (`InvalidDirectory`, `UnsupportedVersion`,
/// `PathTooLong`) are rejected synchronously at the call that violates the
/// constraint. `Corrupt` marks a malformed or truncated record or index.
/// `EmptyPack` marks an attempt to materialize files from an empty writer, or
/// an opened data file of zero length. `Unsupported` marks an operation that
/// a delta-oriented pack cannot answer. `TooManyEntries` marks a pack whose
/// entry count no longer fits the index's position fields, and
/// `DeltaTooLarge` a payload too large for the codec's four-byte length
/// prefix.
#[derive(Clone, Copy, Debug, PartialEq, Eq, Structural)]
pub enum PackError {
    InvalidDirectory,
    UnsupportedVersion,
    PathTooLong,
    Corrupt,
    EmptyPack,
    Unsupported,
    TooManyEntries,
    DeltaTooLarge,
}

} // verus!
