//! A lexer and a recursive-descent parser for the part of JSON that is made
//! of objects, arrays and numbers.
//!
//! A text is split into tokens by [`tokenize`] and the tokens are read by
//! [`parse`]; [`parse_text`] does both. Nothing of the text is copied: the
//! tokens and the values borrow from it.

pub mod bytes;
pub mod substr;
pub mod token;
pub mod lexer;
pub mod tokenization;
pub mod number;
pub mod value;
pub mod parser;
pub mod grammar;
pub mod json;
pub mod pairs;

pub use json::{parse_text, JsonError};
pub use lexer::{tokenize, LexError};
pub use parser::{parse, parse_value, Cursor, ParseError, ParseErrorKind};
pub use token::{Token, TokenKind};
pub use value::{Member, Value};
