//! A tokenizer and a predictive recursive-descent parser for a small
//! expression language, with their behaviour stated as contracts.

pub mod lexer;
pub mod trees;
pub mod parser;
