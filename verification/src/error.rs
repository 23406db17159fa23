//! Errors and their texts.
use crate::text::concat;
use vstd::prelude::*;

verus! {

/// What can go wrong, with the text of its cause.
pub enum ZiperError {
    Zip(String),
    Io(String),
    InvalidArgument(String),
}

/// The message of an error of the zip format.
pub open spec fn zip_message(cause: Seq<char>) -> Seq<char> {
    "Zip error: "@ + cause
}

/// The message of an error of input or output.
pub open spec fn io_message(cause: Seq<char>) -> Seq<char> {
    "IO error: "@ + cause
}

impl ZiperError {
    /// The message that the error is shown with.
    pub open spec fn text(&self) -> Seq<char> {
        match self {
            ZiperError::Zip(cause) => zip_message(cause@),
            ZiperError::Io(cause) => io_message(cause@),
            ZiperError::InvalidArgument(cause) => "Invalid argument: "@ + cause@,
        }
    }

    /// The message that the error is shown with.
    pub fn message(&self) -> (r: String)
        ensures
            r@ == self.text(),
    {
        match self {
            ZiperError::Zip(cause) => concat("Zip error: ", cause),
            ZiperError::Io(cause) => concat("IO error: ", cause),
            ZiperError::InvalidArgument(cause) => concat("Invalid argument: ", cause),
        }
    }
}

} // verus!
