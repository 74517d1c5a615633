//! A tree-walking interpreter for a subset of Lox: scanner, parser,
//! environments and evaluator, each with its specification.

pub mod environment;
pub mod equality;
pub mod expr;
pub mod interpreter;
pub mod lox;
pub mod numbers;
pub mod parser;
pub mod render;
pub mod scanner;
pub mod stmt;
pub mod text;
pub mod token;
pub mod value;
