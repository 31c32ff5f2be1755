//! The error surface of the core: every fallible operation returns one of
//! these kinds together with the exact message the command layer prints.

use vstd::prelude::*;

verus! {

/// What went wrong, independent of the printed wording.
#[derive(Clone, Copy, Debug, PartialEq, Eq, Structural)]
pub enum ErrorKind {
    /// No path or no object matches the given name or prefix.
    NotFound,
    /// More than one object matches a shortened hash prefix.
    Ambiguous,
    /// A stored file violates a format invariant.
    Corrupt,
    /// An unrecognized object type or mode token.
    InvalidArgument,
    /// A read or write refused by the filesystem collaborator.
    IoFailure,
}

/// An error kind paired with its printed message.
#[derive(Debug)]
pub struct Error {
    pub kind: ErrorKind,
    pub message: String,
}

impl Error {
    pub fn new(kind: ErrorKind, message: String) -> (r: Error)
        ensures
            r.kind == kind,
            r.message@ == message@,
    {
        Error { kind, message }
    }
}

} // verus!
