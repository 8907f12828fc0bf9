//! Front end of a small structured notation: a tokenizer that turns text into
//! tokens, and a recursive-descent parser that turns tokens into syntax trees.
//!
//! Every executable function carries a contract over the mathematical models
//! defined next to it: [`lexer::lex`] for the tokenizer and
//! [`parser::parse_all`] for the parser.
pub mod lexer;
pub mod number;
pub mod parser;
pub mod text;
