//! The condition DSL: tokens, abstract syntax, and the precedence-climbing parser.

pub mod ast;
pub mod lexer;
pub mod lexer_laws;
pub mod parser;
pub mod parser_laws;
