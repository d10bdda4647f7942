//! A small arithmetic expression front end: a lexer, a precedence-climbing
//! parser, an expression tree with a printer, and an evaluator over checked
//! 64-bit integers.
pub mod lexer;
pub mod ast;
pub mod evaluator;
pub mod parser;
pub mod printer;
pub mod shape;
pub mod text;
