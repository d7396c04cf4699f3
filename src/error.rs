//! The error model shared by every combinator.
use vstd::prelude::*;

verus! {

/// Why a rule failed.
///
/// `Mismatch` and `NamedMismatch` are recoverable: an enclosing choice or
/// repetition may try something else. `Hard` is terminal: no combinator turns
/// it back into a recoverable error.
#[derive(Debug, PartialEq, Eq)]
pub enum Error {
    Mismatch,
    NamedMismatch(&'static str),
    Hard(HardError),
}

/// A failure after which no backtracking takes place.
#[derive(Debug, PartialEq, Eq)]
pub enum HardError {
    Incomplete { position: usize, name: &'static str },
    NamedIncomplete { position: usize, name: &'static str, component_name: &'static str },
    /// An error raised by user code (a fallible mapping), kept as its text.
    Other(String),
}

impl Error {
    /// Recoverable errors are those that a choice or repetition may catch.
    pub open spec fn is_recoverable(self) -> bool {
        !(self is Hard)
    }

    pub fn is_hard(&self) -> (r: bool)
        ensures
            r == (*self is Hard),
    {
        match self {
            Error::Hard(_) => true,
            _ => false,
        }
    }
}

/// An error raised outside the engine (by a fallible mapping) that can
/// describe itself in text. The engine keeps only that text.
pub trait DynError {
    /// The text that describes the error.
    spec fn spec_message(&self) -> Seq<char>;

    fn message(&self) -> (r: String)
        ensures
            r@ == self.spec_message(),
    ;
}

/// Text is itself a description of an error.
impl DynError for String {
    open spec fn spec_message(&self) -> Seq<char> {
        self@
    }

    fn message(&self) -> (r: String) {
        self.clone()
    }
}

impl HardError {
    /// Wraps an outside error, opaquely, as a hard error.
    pub fn other<E: DynError>(e: &E) -> (r: HardError)
        ensures
            r is Other,
            r->Other_0@ == e.spec_message(),
    {
        HardError::Other(e.message())
    }
}

impl From<HardError> for Error {
    fn from(value: HardError) -> (r: Error)
        ensures
            r == Error::Hard(value),
    {
        Error::Hard(value)
    }
}

impl vstd::std_specs::convert::FromSpecImpl<HardError> for Error {
    open spec fn obeys_from_spec() -> bool {
        true
    }

    open spec fn from_spec(v: HardError) -> Error {
        Error::Hard(v)
    }
}

} // verus!
