//! The failures of turning typed values into documents and back.

use vstd::prelude::*;

verus! {

/// Why a typed value could not be turned into a document, or a document
/// into a typed value.
#[derive(Debug, Clone, PartialEq, Eq)]
pub enum Error {
    /// The key of a map entry is of a kind that has no text form.
    KeyMustBeAString,
    /// The key of a map entry is an infinity or a NaN.
    FloatNotFinite,
    /// A document operation failed.
    CJson(crate::error::Error),
    /// A text holds a zero byte, which no string of a document may hold.
    /// The number is the index of the first such byte.
    CString(usize),
    /// Any other failure, in words.
    Custom(String),
}

/// A failure as a mathematical value: the index of a zero byte as an
/// integer, the words of a custom failure as a sequence of characters.
pub enum ErrorView {
    KeyMustBeAString,
    FloatNotFinite,
    CJson(crate::error::Error),
    CString(int),
    Custom(Seq<char>),
}

impl View for Error {
    type V = ErrorView;

    open spec fn view(&self) -> ErrorView {
        match self {
            Error::KeyMustBeAString => ErrorView::KeyMustBeAString,
            Error::FloatNotFinite => ErrorView::FloatNotFinite,
            Error::CJson(e) => ErrorView::CJson(*e),
            Error::CString(position) => ErrorView::CString(*position as int),
            Error::Custom(words) => ErrorView::Custom(words@),
        }
    }
}

} // verus!
