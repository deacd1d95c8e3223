//! Front end of a small expression-and-statement language: a byte-wise
//! tokenizer and a recursive-descent parser with precedence climbing.
pub mod lexer;
pub mod syntax_tree;
pub mod parser;
