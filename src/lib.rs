//! Arithmetic expressions: a tokenizer and a recursive-descent parser that
//! builds a typed expression tree, with contracts stated over the token and
//! character sequences they read.

pub mod lexer;
pub mod tree;
pub mod parser;
pub mod pipeline;
pub mod laws;
pub mod render;
