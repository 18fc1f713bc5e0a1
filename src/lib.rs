//! Parsing of Debian control files: paragraphs of `name: value` fields, where a value may go
//! on over indented continuation lines and `#` comment lines are ignored.
//!
//! The grammar is stated as spec functions in [`grammar`]; the parser in [`parser`] is proved to
//! compute exactly what they describe, both on input that may still grow (streaming) and on
//! input that is known to be complete. [`buf_parse`] feeds the parser from a byte source in
//! chunks and deals with UTF-8 sequences that a chunk boundary cuts in two.
pub mod buf_parse;
pub mod grammar;
pub mod parser;
pub mod text;

pub use buf_parse::{BufParse, BufParseError, BufParseInput};
pub use parser::{parse_finish, parse_str, parse_streaming, Field, Paragraph, Streaming, SyntaxError};
