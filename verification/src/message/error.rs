//! The refusal of a query.

use vstd::prelude::*;

verus! {

/// An error: a code and a message for people.
#[derive(Clone, Debug, PartialEq, Eq)]
pub struct Error {
    pub code: u8,
    pub message: String,
}

/// An error as a value: its message is a sequence of characters.
pub struct ErrorView {
    pub code: u8,
    pub message: Seq<char>,
}

impl View for Error {
    type V = ErrorView;

    open spec fn view(&self) -> ErrorView {
        ErrorView { code: self.code, message: self.message@ }
    }
}

} // verus!
