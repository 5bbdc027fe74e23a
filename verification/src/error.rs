//! The failures that the document operations report.

use vstd::prelude::*;

verus! {

/// Why an operation on a document failed.
#[derive(Debug, Clone, Copy, PartialEq, Eq, Structural)]
pub enum Error {
    /// The text is not a JSON document.
    Parse,
    /// A node or a text buffer could not be produced.
    Allocation,
    /// A node of one kind was asked to act as a node of another kind.
    TypeError,
}

impl Error {
    /// The sentence that describes this failure.
    pub fn message(&self) -> (text: &'static str)
        ensures
            text@ == self.message_spec(),
    {
        match self {
            Error::Parse => "Failed to parse JSON string",
            Error::Allocation => "Failed to allocate enough memory for CJson",
            Error::TypeError => "Type error occurred when converting CJson to a different type",
        }
    }

    /// The characters of the sentence that `message` returns.
    pub open spec fn message_spec(&self) -> Seq<char> {
        match self {
            Error::Parse => "Failed to parse JSON string"@,
            Error::Allocation => "Failed to allocate enough memory for CJson"@,
            Error::TypeError => "Type error occurred when converting CJson to a different type"@,
        }
    }
}

} // verus!
