//! Errors of the input checks outside the certificate envelope.

use vstd::prelude::*;

verus! {

/// An input that a check refuses, with the reason.
#[derive(Debug, Clone, PartialEq, Eq)]
pub enum Error {
    /// The input breaks the stated rule.
    InvalidInput(String),
}

impl Error {
    /// Text of the refused rule.
    pub open spec fn spec_message(&self) -> Seq<char> {
        match self {
            Error::InvalidInput(message) => message@,
        }
    }

    /// Text of the refused rule.
    pub fn message(&self) -> (text: &str)
        ensures
            text@ == self.spec_message(),
    {
        match self {
            Error::InvalidInput(message) => message.as_str(),
        }
    }
}

/// `result` is an error whose text is `message`.
pub open spec fn fails_with<T>(result: Result<T, Error>, message: Seq<char>) -> bool {
    match result {
        Ok(_) => false,
        Err(error) => error.spec_message() == message,
    }
}

/// `result` is an error whose text begins with `prefix`.
pub open spec fn fails_with_prefix<T>(result: Result<T, Error>, prefix: Seq<char>) -> bool {
    match result {
        Ok(_) => false,
        Err(error) => error.spec_message().len() >= prefix.len() && error.spec_message().take(prefix.len() as int)
            == prefix,
    }
}

} // verus!
