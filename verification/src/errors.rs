//! The fatal error type of the parsing and sorting phase.

use vstd::prelude::*;

verus! {

/// A fatal error raised while parsing a document or sorting the tree.
/// Recoverable conditions never surface here: a malformed line is
/// skipped and parsing continues.
#[derive(Debug)]
pub struct ParseError {
    message: String,
}

impl View for ParseError {
    type V = Seq<char>;

    closed spec fn view(&self) -> Seq<char> {
        self.message@
    }
}

impl ParseError {
    pub fn new(msg: &str) -> (r: ParseError)
        ensures
            r@ == msg@,
    {
        ParseError { message: msg.to_owned() }
    }

    /// The error text.
    pub fn message(&self) -> (r: &str)
        ensures
            r@ == self@,
    {
        self.message.as_str()
    }
}

} // verus!
