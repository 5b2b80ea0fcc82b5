//! A JSON text parser: a raw character-level scanner, a cooking stage that
//! turns raw lexemes into typed tokens, and a recursive-descent parser that
//! builds a tree value or reports the first error with an exact byte span.

pub mod ast;
pub mod chars;
pub mod cursor;
pub mod lexer;
pub mod parser;
pub mod token;
pub mod unescape;
