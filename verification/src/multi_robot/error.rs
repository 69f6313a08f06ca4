//! Why a record is refused.
use vstd::prelude::*;

verus! {

/// A refusal, in words.
#[derive(Clone, Debug, PartialEq, Eq)]
pub struct Error(pub String);

impl Error {
    /// The words of the refusal.
    pub open spec fn text(self) -> Seq<char> {
        self.0@
    }

    /// Makes a refusal of words.
    pub fn of(text: &str) -> (error: Error)
        ensures
            error.text() == text@,
    {
        Error(text.to_owned())
    }

    /// Writes the refusal out.
    pub fn message(&self) -> (message: String)
        ensures
            message@ == self.text(),
    {
        self.0.clone()
    }
}

/// Whether a result is the refusal with these words.
pub open spec fn refused<T>(result: Result<T, Error>, text: Seq<char>) -> bool {
    result matches Err(e) && e.text() == text
}

/// Whether a result refuses where there is a reason, and with its words.
pub open spec fn refused_for<T>(result: Result<T, Error>, reason: Option<Seq<char>>) -> bool {
    match reason {
        Some(text) => refused(result, text),
        None => result is Ok,
    }
}

/// The first of two reasons.
pub open spec fn first_of(a: Option<Seq<char>>, b: Option<Seq<char>>) -> Option<Seq<char>> {
    match a {
        Some(text) => Some(text),
        None => b,
    }
}

} // verus!
