//! A verified scanner, parser and tree-walking interpreter for a small Lox
//! dialect. The interpreter is generic over its number domain.
pub mod ast;
pub mod interpreter;
pub mod lexer;
pub mod parser;
pub mod text;
pub mod token;
