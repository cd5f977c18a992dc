//! A tokenizer, parser and evaluator for the expression language of Lox.

pub mod errors;
pub mod number;
pub mod text;
pub mod tokenizer;
pub mod ast;
pub mod parser;
