//! The error taxonomy of the core. Every fallible operation returns exactly
//! one of these kinds, so callers can branch on the kind rather than on
//! message text.

use vstd::prelude::*;

verus! {

/// One specific failure kind per fallible operation.
#[derive(Clone, Copy, Debug, PartialEq, Eq, Structural)]
pub enum Error {
    /// A requested object or reference is not stored.
    NotFound,
    /// `init` was asked to create a repository where one already exists.
    AlreadyExists,
    /// Stored bytes do not re-hash to their id, or the graph has a cycle.
    Corrupt,
    /// A reference exists but has never been pointed at a commit.
    UnbornBranch,
    /// A stage target is absent from the working tree.
    PathNotFound,
    /// An underlying storage fault reported by an outside collaborator.
    IoFailure,
    /// A commit would re-root or merge history, which this core forbids.
    InvalidParents,
}

/// The stable name of each error kind.
pub open spec fn name_spec(e: Error) -> Seq<char> {
    match e {
        Error::NotFound => "not found"@,
        Error::AlreadyExists => "already exists"@,
        Error::Corrupt => "corrupt"@,
        Error::UnbornBranch => "unborn branch"@,
        Error::PathNotFound => "path not found"@,
        Error::IoFailure => "io failure"@,
        Error::InvalidParents => "invalid parents"@,
    }
}

impl Error {
    /// A short stable name for the kind, for callers that print errors.
    pub fn name(&self) -> (r: &'static str)
        ensures
            r@ == name_spec(*self),
    {
        match self {
            Error::NotFound => "not found",
            Error::AlreadyExists => "already exists",
            Error::Corrupt => "corrupt",
            Error::UnbornBranch => "unborn branch",
            Error::PathNotFound => "path not found",
            Error::IoFailure => "io failure",
            Error::InvalidParents => "invalid parents",
        }
    }
}

} // verus!
