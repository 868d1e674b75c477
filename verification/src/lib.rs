//! A small JSON reader and writer: a pull lexer over UTF-8 text, a
//! recursive-descent parser that builds a value tree from the tokens, and a
//! printer that renders the tree as indented text.
//!
//! Every function is specified over sequences of characters and tokens, and
//! the specifications are proved against the executable code.

pub mod json;
pub mod lexer;
pub mod number;
pub mod parser;
pub mod roundtrip;
pub mod token;
pub mod unicode;
