//! Error kinds shared by the whole library.

use vstd::prelude::*;

verus! {

/// The ways an operation of this library can fail.
#[derive(Clone, Copy, Debug, PartialEq, Eq, Structural)]
pub enum ErrorKind {
    /// A line of an interchange file could not be tokenized into integers,
    /// a value was out of range for the format, or fewer lines were
    /// available than the declared counts require.
    ParseError,
    /// An operation referenced a vertex id outside `[0, V)`.
    IndexOutOfRange,
    /// The requested partitioning backend is not linked into this library.
    BackendUnavailable,
    /// An argument violated a stated precondition of the operation.
    PreconditionViolation,
}

impl ErrorKind {
    /// A short human-readable label for the error kind.
    pub fn label(&self) -> (r: &'static str)
        ensures
            self is ParseError ==> r@ == "parse error"@,
            self is IndexOutOfRange ==> r@ == "index out of range"@,
            self is BackendUnavailable ==> r@ == "backend unavailable"@,
            self is PreconditionViolation ==> r@ == "precondition violation"@,
    {
        match self {
            ErrorKind::ParseError => "parse error",
            ErrorKind::IndexOutOfRange => "index out of range",
            ErrorKind::BackendUnavailable => "backend unavailable",
            ErrorKind::PreconditionViolation => "precondition violation",
        }
    }
}

} // verus!
