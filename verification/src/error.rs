//! The errors that the store reports.

use vstd::prelude::*;

verus! {

/// What went wrong, by category.
#[derive(Debug, Clone, Copy, PartialEq, Eq, Structural)]
pub enum ErrorKind {
    /// The caller passed something the operation cannot accept.
    InvalidInput,
    /// The key is in neither the memory table nor any table file.
    NotFound,
    /// The bytes of a file do not follow its format.
    InvalidData,
}

/// An error of the store.
#[derive(Debug, Clone, Copy, PartialEq, Eq, Structural)]
pub struct Error {
    kind: ErrorKind,
}

impl Error {
    /// The category of this error, for use in contracts.
    pub closed spec fn spec_kind(&self) -> ErrorKind {
        self.kind
    }

    /// Makes an error of the given category.
    pub fn new(kind: ErrorKind) -> (e: Error)
        ensures
            e.spec_kind() == kind,
    {
        Error { kind }
    }

    /// The category of this error.
    #[verifier::when_used_as_spec(spec_kind)]
    pub fn kind(&self) -> (k: ErrorKind)
        ensures
            k == self.spec_kind(),
    {
        self.kind
    }
}

} // verus!
