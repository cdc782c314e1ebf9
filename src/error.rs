//! Failures of the storage core.

use vstd::prelude::*;

verus! {

/// What can go wrong while writing, reading or compacting tables.
#[derive(Debug, Clone, Copy, PartialEq, Eq, Structural)]
pub enum LsmError {
    /// A file could not be created, opened, read or written.
    Io,
    /// A length prefix runs past the end of the encoded bytes.
    CorruptData,
    /// A value carries no well-formed ordering key.
    OrderingKeyExtraction,
    /// A key or a value is too long for its `u32` length prefix.
    RecordTooLarge,
}

} // verus!
