//! The failures that a stream of entries or of samples can carry.

use vstd::prelude::*;

verus! {

/// Why one member of an archive could not be handed out as an entry.
#[derive(Clone, Copy, Debug, PartialEq, Eq, Structural)]
pub enum IoKind {
    /// The header of the member, or its continuation, could not be read.
    UnreadableHeader,
    /// The body of the member ended before its announced length.
    ShortBody,
    /// The stored path is not valid UTF-8.
    NonUtf8Path,
    /// The stored path has no `.` after a non-empty key.
    MalformedPath,
}

/// Why no sample is handed out at some position of a sample stream, or why a
/// sample cannot be handed on.
#[derive(Clone, Copy, Debug, PartialEq, Eq, Structural)]
pub enum SampleError {
    /// An entry of the run could not be read.
    Io(IoKind),
    /// A second target was met within one run.
    DuplicateTarget,
    /// The sample has no target.
    MissingTarget,
}

} // verus!
