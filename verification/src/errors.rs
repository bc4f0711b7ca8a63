//! The errors of the arithmetic layer.

use vstd::prelude::*;

verus! {

/// What can go wrong when an arithmetic object is built or used.
#[derive(Debug)]
pub enum Error {
    /// The modulus is not in `[2, 2^62)`.
    InvalidModulus(u64),
    /// A byte string is not the encoding of a value.
    Serialization(String),
    /// Any other failure, with its description.
    Default(String),
}

/// The description of an invalid modulus.
pub open spec fn invalid_modulus_text() -> Seq<char> {
    "modulus should be between 2 and 2^62-1"@
}

impl Error {
    /// The description of the error.
    pub open spec fn text(&self) -> Seq<char> {
        match self {
            Error::InvalidModulus(_) => invalid_modulus_text(),
            Error::Serialization(s) => s@,
            Error::Default(s) => s@,
        }
    }

    /// The description of the error, as a string.
    pub fn to_string(&self) -> (r: String)
        ensures
            r@ == self.text(),
    {
        match self {
            Error::InvalidModulus(_) => "modulus should be between 2 and 2^62-1".to_string(),
            Error::Serialization(s) => s.clone(),
            Error::Default(s) => s.clone(),
        }
    }

    /// An error of a serialization, with the description `text`.
    pub fn serialization(text: &str) -> (r: Error)
        ensures
            r == Error::Serialization(r->Serialization_0),
            r.text() == text@,
    {
        Error::Serialization(text.to_string())
    }

    /// An error with the description `text`.
    pub fn other(text: &str) -> (r: Error)
        ensures
            r == Error::Default(r->Default_0),
            r.text() == text@,
    {
        Error::Default(text.to_string())
    }
}

} // verus!
