use vstd::prelude::*;
use vstd::string::*;

verus! {

/// The errors of the path serializer.
#[derive(Debug, Clone, Copy, PartialEq, Eq, Structural)]
pub enum Error {
    Eof,
    ExpectedInteger,
    ExpectedString,
    ExpectedBoolean,
}

/// The message that each error displays.
pub open spec fn error_message(e: Error) -> Seq<char> {
    match e {
        Error::Eof => "eof"@,
        Error::ExpectedInteger => "expected integer"@,
        Error::ExpectedString => "expected string"@,
        Error::ExpectedBoolean => "expected boolean"@,
    }
}

impl Error {
    /// The human-readable message of this error.
    pub fn message(&self) -> (s: String)
        ensures
            s@ == error_message(*self),
    {
        match self {
            Error::Eof => String::from_str("eof"),
            Error::ExpectedInteger => String::from_str("expected integer"),
            Error::ExpectedString => String::from_str("expected string"),
            Error::ExpectedBoolean => String::from_str("expected boolean"),
        }
    }
}

} // verus!
