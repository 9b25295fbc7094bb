//! The errors of the log and of the engine.

use vstd::prelude::*;

verus! {

/// Why a log or one of its parts was rejected.
#[derive(Clone, Copy, Debug, PartialEq, Eq, Structural)]
pub enum LogError {
    /// The bytes end before a record's header or payload is complete.
    TruncatedRecord,
    /// The stored checksum differs from the one computed over the record's
    /// length field and payload.
    ChecksumMismatch,
    /// The record's type tag is none of the four known ones.
    UnknownRecordType,
    /// A logical entry is shorter than its length prefixes declare.
    MalformedEntry,
    /// A key or a value is longer than the one-byte length prefix can say.
    ValueTooLarge,
}

} // verus!
