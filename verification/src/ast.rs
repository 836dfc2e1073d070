//! The abstract syntax tree and the parser that builds it.
pub mod grammar;
pub mod node;
pub mod parser;
pub mod precedence;
pub mod progress;
pub mod symbols;
pub mod unparse;
