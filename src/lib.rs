//! Selection and tokenization of delimiter-separated message entries.
//!
//! `seeker` indexes a byte stream of `%`-terminated records in one pass and
//! decodes any record on demand; `parse` splits one record's text into
//! literal text and bracketed resource references; `printer` turns the tokens
//! of an entry into what is to be shown; `cli` reads the command line and
//! picks the entry; `text` holds the string operations these rely on.
use vstd::prelude::*;

pub mod cli;
pub mod parse;
pub mod printer;
pub mod seeker;
pub mod text;

verus! {

/// Byte that terminates a record in a message file.
pub const ENTRY_DELIMITER: u8 = 0x25;

/// The record delimiter as a character; a message may hold it escaped.
pub const ENTRY_DELIMITER_CHAR: char = '%';

/// Byte that escapes the delimiter (and the tokenizer's special characters).
pub const ESCAPE_BYTE: u8 = 0x5c;

} // verus!
