//! Why a remote execution could not be carried out.
use vstd::prelude::*;

use crate::text::texts;

verus! {

/// A failure: what it is, and what lies behind it where that came from outside, what lies deepest
/// last.
#[derive(Debug, PartialEq, Eq)]
pub struct Error {
    pub message: String,
    pub causes: Vec<String>,
}

/// The content of an [`Error`].
#[verifier::ext_equal]
pub struct ErrorView {
    pub message: Seq<char>,
    pub causes: Seq<Seq<char>>,
}

impl View for Error {
    type V = ErrorView;

    open spec fn view(&self) -> ErrorView {
        ErrorView { message: self.message@, causes: texts(self.causes@) }
    }
}

/// A failure with nothing behind it.
pub open spec fn failure(message: Seq<char>) -> ErrorView {
    ErrorView { message, causes: seq![] }
}

/// A failure with something behind it.
pub open spec fn failure_by(message: Seq<char>, cause: Seq<char>) -> ErrorView {
    ErrorView { message, causes: seq![cause] }
}

/// A failure with nothing behind it.
pub fn fail(message: &str) -> (e: Error)
    ensures
        e@ == failure(message@),
{
    let e = Error { message: message.to_owned(), causes: Vec::new() };
    assert(e@ =~= failure(message@));
    e
}

/// A failure with something behind it.
pub fn fail_by(message: &str, cause: &str) -> (e: Error)
    ensures
        e@ == failure_by(message@, cause@),
{
    let mut causes: Vec<String> = Vec::new();
    causes.push(cause.to_owned());
    let e = Error { message: message.to_owned(), causes };
    assert(e@ =~= failure_by(message@, cause@));
    e
}

} // verus!
