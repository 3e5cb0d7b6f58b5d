//! The failures that the staging area reports to its caller.

use vstd::prelude::*;

verus! {

/// Why an operation on the staging area did not succeed.
#[derive(Debug, Clone, Copy, PartialEq, Eq, Structural)]
pub enum IndexError {
    /// Another writer holds the lock; nothing was written.
    LockHeld,
    /// Reading, writing or committing failed; nothing was committed.
    IoFailure,
    /// The path cannot be kept in the table.
    InvalidPath,
    /// No metadata could be had for a path.
    StatFailure,
    /// No record has this binary form, or no binary form can be read back as
    /// this record.
    EncodingError,
}

/// A failure and the path at which it happened.
#[derive(Debug)]
pub struct PathError {
    pub kind: IndexError,
    pub path: Vec<u8>,
}

/// A failure and the path at which it happened, as a mathematical value.
pub struct PathErrorView {
    pub kind: IndexError,
    pub path: Seq<u8>,
}

impl View for PathError {
    type V = PathErrorView;

    open spec fn view(&self) -> PathErrorView {
        PathErrorView { kind: self.kind, path: self.path@ }
    }
}

} // verus!
