//! The library's error: a message, with what was being done in front of it.

use vstd::prelude::*;

use crate::text;

verus! {

/// Why an operation was refused or failed.
#[derive(Debug)]
pub struct Error {
    /// All of it: what was being done, and what went wrong, one behind the
    /// other.
    pub message: String,
    /// What stands in front: what was being done, or, where that is not said,
    /// what went wrong.
    pub outermost: String,
}

impl View for Error {
    type V = Seq<char>;

    open spec fn view(&self) -> Seq<char> {
        self.message@
    }
}

/// A result by what it holds: the value's view, or the message.
pub open spec fn outcome<T: DeepView>(r: Result<T, Error>) -> Result<T::V, Seq<char>> {
    match r {
        Ok(v) => Ok(v.deep_view()),
        Err(e) => Err(e@),
    }
}

/// The message `cause` with what was being done, `what`, in front of it.
pub open spec fn within(what: Seq<char>, cause: Seq<char>) -> Seq<char> {
    what + ": "@ + cause
}

/// A result whose error says what was being done.
pub open spec fn in_context<T>(r: Result<T, Seq<char>>, what: Seq<char>) -> Result<T, Seq<char>> {
    match r {
        Ok(v) => Ok(v),
        Err(e) => Err(within(what, e)),
    }
}

/// A result without its value.
pub open spec fn dropped<T>(r: Result<T, Seq<char>>) -> Result<(), Seq<char>> {
    match r {
        Ok(_) => Ok(()),
        Err(m) => Err(m),
    }
}

impl Error {
    /// An error with the message `m`.
    pub fn new(m: &str) -> (e: Error)
        ensures
            e@ == m@,
            e.outermost@ == m@,
    {
        Error { message: m.to_owned(), outermost: m.to_owned() }
    }

    /// An error with the message `m`.
    pub fn from_text(m: String) -> (e: Error)
        ensures
            e@ == m@,
            e.outermost@ == m@,
    {
        let outermost: String = m.clone();
        Error { message: m, outermost }
    }

    /// The same error, with `what` in front of its message.
    pub fn context(self, what: &str) -> (e: Error)
        ensures
            e@ == within(what@, self@),
            e.outermost@ == what@,
    {
        Error {
            message: text::cat3(what, ": ", self.message.as_str()),
            outermost: what.to_owned(),
        }
    }

    /// What stands in front, as an error of its own.
    pub fn front(self) -> (e: Error)
        ensures
            e@ == self.outermost@,
    {
        Error::from_text(self.outermost)
    }
}

/// Puts `what` in front of the message of an error.
pub fn with_context<T: DeepView>(r: Result<T, Error>, what: &str) -> (out: Result<T, Error>)
    ensures
        outcome(out) == in_context(outcome(r), what@),
        r matches Ok(v) ==> out == Ok::<T, Error>(v),
{
    match r {
        Ok(v) => Ok(v),
        Err(e) => Err(e.context(what)),
    }
}

} // verus!
