//! The error type, whose variants name the kind of failure rather than the
//! place it happened, so bindings can map each to the exception a caller
//! would expect.

use vstd::prelude::*;

verus! {

/// What went wrong, with a message for people.
#[derive(Clone, Debug, PartialEq, Eq)]
pub enum Error {
    /// `RangeError`
    Range(String),
    /// A division that cannot be carried out exactly.
    Division(String),
    /// `TypeError`
    Type(String),
    /// `ParseError`
    Parse(String),
    /// A puzzle cannot be described or turned as asked.
    State(String),
    /// Plain `Error`
    Other(String),
}

/// The variant of an [`Error`], without its message.
#[derive(Clone, Copy, Debug, PartialEq, Eq)]
pub enum ErrorKind {
    Range,
    Division,
    Type,
    Parse,
    State,
    Other,
}

/// The library's result type.
pub type Result<T> = core::result::Result<T, Error>;

impl Error {
    /// The message that any variant carries.
    pub open spec fn spec_message(&self) -> Seq<char> {
        match self {
            Error::Range(m) => m@,
            Error::Division(m) => m@,
            Error::Type(m) => m@,
            Error::Parse(m) => m@,
            Error::State(m) => m@,
            Error::Other(m) => m@,
        }
    }

    /// The variant of this error.
    pub open spec fn spec_error_kind(&self) -> ErrorKind {
        match self {
            Error::Range(_) => ErrorKind::Range,
            Error::Division(_) => ErrorKind::Division,
            Error::Type(_) => ErrorKind::Type,
            Error::Parse(_) => ErrorKind::Parse,
            Error::State(_) => ErrorKind::State,
            Error::Other(_) => ErrorKind::Other,
        }
    }

    /// The name of the kind of failure, as the bindings report it.
    pub open spec fn spec_kind(&self) -> Seq<char> {
        match self {
            Error::Range(_) => "RangeError"@,
            Error::Division(_) => "DivisionError"@,
            Error::Type(_) => "TypeError"@,
            Error::Parse(_) => "ParseError"@,
            Error::State(_) => "PuzzleError"@,
            Error::Other(_) => "Error"@,
        }
    }

    /// The message carried by the error.
    pub fn message(&self) -> (r: &str)
        ensures
            r@ == self.spec_message(),
    {
        match self {
            Error::Range(m) => m.as_str(),
            Error::Division(m) => m.as_str(),
            Error::Type(m) => m.as_str(),
            Error::Parse(m) => m.as_str(),
            Error::State(m) => m.as_str(),
            Error::Other(m) => m.as_str(),
        }
    }

    /// The kind of the error, as a name.
    pub fn kind(&self) -> (r: &'static str)
        ensures
            r@ == self.spec_kind(),
    {
        match self {
            Error::Range(_) => "RangeError",
            Error::Division(_) => "DivisionError",
            Error::Type(_) => "TypeError",
            Error::Parse(_) => "ParseError",
            Error::State(_) => "PuzzleError",
            Error::Other(_) => "Error",
        }
    }
}

} // verus!
