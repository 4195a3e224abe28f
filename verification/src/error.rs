//! Errors.
use vstd::prelude::*;

use crate::text;
use crate::text::{join, write_numeral};

verus! {

/// Error types that can occur during streaming JSON parsing.
#[derive(Debug)]
pub enum AsyncJsonStreamReaderError {
    /// I/O errors while reading from the stream, as the source words them.
    Io(String),
    /// JSON parsing errors with context and byte position in the buffer.
    JsonError { error: String, position: usize },
    /// The stream did not match the expected JSON token.
    UnexpectedToken { expected: &'static str, found: String },
    /// Internal invariant violation in the reader.
    InternalState { message: String },
}

/// An error with its texts as sequences of characters.
pub enum ErrorView {
    Io(Seq<char>),
    JsonError { error: Seq<char>, position: int },
    UnexpectedToken { expected: Seq<char>, found: Seq<char> },
    InternalState { message: Seq<char> },
}

impl View for AsyncJsonStreamReaderError {
    type V = ErrorView;

    open spec fn view(&self) -> ErrorView {
        match self {
            AsyncJsonStreamReaderError::Io(message) => ErrorView::Io(message@),
            AsyncJsonStreamReaderError::JsonError { error, position } => ErrorView::JsonError {
                error: error@,
                position: *position as int,
            },
            AsyncJsonStreamReaderError::UnexpectedToken {
                expected,
                found,
            } => ErrorView::UnexpectedToken { expected: expected@, found: found@ },
            AsyncJsonStreamReaderError::InternalState { message } => ErrorView::InternalState {
                message: message@,
            },
        }
    }
}

/// The sentence that tells a user of the error.
pub open spec fn error_text(error: ErrorView) -> Seq<char> {
    match error {
        ErrorView::Io(message) => "IO error: "@ + message,
        ErrorView::JsonError { error, position } => "JSON error: "@ + error + ", position: "@
            + text::numeral(position as nat, 10),
        ErrorView::UnexpectedToken { expected, found } => "Unexpected token: expected "@ + expected
            + ", found "@ + found,
        ErrorView::InternalState { message } => "Internal state error: "@ + message,
    }
}

impl AsyncJsonStreamReaderError {
    /// The sentence that tells a user of the error.
    pub fn message(&self) -> (r: String)
        ensures
            r@ == error_text(self@),
            match self@ {
                ErrorView::Io(message) => r@ == "IO error: "@ + message,
                ErrorView::JsonError { error, position } => r@ == "JSON error: "@ + error
                    + ", position: "@ + text::numeral(position as nat, 10),
                ErrorView::UnexpectedToken { expected, found } => r@
                    == "Unexpected token: expected "@ + expected + ", found "@ + found,
                ErrorView::InternalState { message } => r@ == "Internal state error: "@ + message,
            },
    {
        match self {
            AsyncJsonStreamReaderError::Io(message) => join("IO error: ", message.as_str()),
            AsyncJsonStreamReaderError::JsonError { error, position } => {
                let mut r = join("JSON error: ", error.as_str());
                r.append(", position: ");
                r.append(write_numeral(*position, 10).as_str());
                r
            },
            AsyncJsonStreamReaderError::UnexpectedToken { expected, found } => {
                let mut r = join("Unexpected token: expected ", expected);
                r.append(", found ");
                r.append(found.as_str());
                r
            },
            AsyncJsonStreamReaderError::InternalState { message } => join(
                "Internal state error: ",
                message.as_str(),
            ),
        }
    }
}

} // verus!
