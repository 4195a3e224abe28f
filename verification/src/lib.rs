//! A JSON stream reader for selective parsing of large payloads, as a verified state
//! machine.
//!
//! The reader hands out keys, values and tokens one at a time without holding the
//! whole document. It performs no input itself: an operation that needs more of the
//! stream returns [`Progress::NeedData`], and goes on where it stopped when it is
//! called again after [`AsyncJsonStreamReader::fill_buffer`].
//!
//! - [`grammar`] says what a token is, [`lexer`] reads one, event by event.
//! - [`model`] says what each operation of the reader replies and leaves behind,
//!   [`reader`] performs it.
//! - [`token_laws`], [`string_laws`] and [`number_laws`] state what a token is read as, or
//!   refused for, [`state_laws`] how much of the stream that uses up.
//! - [`reply_laws`] and [`walk_laws`] state what each operation replies to whatever tokens
//!   come, [`reader_laws`] what it keeps to, [`text_laws`] what its errors say.
//! - [`chunk_laws`], [`read_laws`], [`operation_laws`] and [`session_laws`] state that the
//!   cutting into reads makes no difference.
//! - [`value`] describes well-formed values, [`value_laws`] states what the operations
//!   do with them, [`document_laws`] how their text is read.
pub mod buffer;
pub mod chunk_laws;
pub mod document_laws;
pub mod error;
pub mod grammar;
pub mod lexer;
pub mod model;
pub mod number_laws;
pub mod object;
pub mod operation_laws;
pub mod place;
pub mod read_laws;
pub mod reader;
pub mod reader_laws;
pub mod reply_laws;
pub mod session_laws;
pub mod state_laws;
pub mod string_laws;
pub mod text;
pub mod text_laws;
pub mod token;
pub mod token_laws;
pub mod value;
pub mod value_laws;
pub mod walk_laws;

pub use error::AsyncJsonStreamReaderError;
pub use reader::{AsyncJsonStreamReader, Progress};
pub use token::JsonToken;
