//! The errors that the operations on a hash tree report.

use vstd::prelude::*;
use crate::model::Index;

verus! {

/// What went wrong.
#[derive(Debug, Clone, PartialEq, Eq)]
#[allow(inconsistent_fields)]
pub enum Detail {
    /// A local file could not be opened as a storage.
    FailedToOpenLocalFile { file: String, message: String },
    /// The storage does not begin with the identifier of a hash tree.
    FileIsNotContentsOfLMTHTree,
    /// The storage was written in a later format than this library reads;
    /// the two numbers are the high and the low half of the version byte.
    IncompatibleVersion(u8, u8),
    /// The storage ends before the bytes that were to be read at `at`, or
    /// its tail is not the end of an entry.
    DamagedStorage { at: u64 },
    /// The entry of `length` bytes at `at` carries the checksum `expected`,
    /// but its bytes give `actual`.
    ChecksumVerificationFailed { at: u64, length: u64, expected: u64, actual: u64 },
    /// The trailer of an entry records `expected` as the length of its body,
    /// but the body read was `actual` bytes long.
    IncorrectEntryHeadOffset { expected: u32, actual: u64 },
    /// The entry at `at` is not the entry of the leaf that was looked for.
    IncorrectNodeBoundary { at: u64 },
    /// The value is longer than an entry can hold.
    TooLargePayload { size: usize },
    /// The node `b_{i,j}` should be on the storage and is not, or was not
    /// reached within the greatest possible number of moves.
    InternalStateInconsistency { i: Index, j: u8 },
    /// A write through a cursor that was opened for reading.
    PermissionDenied,
    /// The device behind the storage failed.
    Io { message: String },
}

/// The result type of this library.
pub type Result<T> = core::result::Result<T, Detail>;

} // verus!
