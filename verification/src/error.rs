//! The error that an insertion can report.

use vstd::prelude::*;
use vstd::string::StringExecFns;

verus! {

/// What can go wrong when an element is added to an ordered container.
#[derive(Debug)]
pub enum Error {
    /// The element is already present; the payload is its rendering.
    Duplicate(String),
}

/// The outcome of an operation on an ordered container.
pub type Result<T> = std::result::Result<T, Error>;

impl Error {
    /// The message of the error: what went wrong, and with which element.
    pub fn to_string(&self) -> (r: String)
        ensures
            match *self {
                Error::Duplicate(text) => r@ == "Duplicate element "@ + text@,
            },
    {
        match self {
            Error::Duplicate(text) => {
                let mut out = String::from_str("Duplicate element ");
                out.append(text.as_str());
                out
            },
        }
    }
}

} // verus!
