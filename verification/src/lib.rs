//! An arithmetic calculator front end: a scanner that turns a line of text
//! into tokens and a recursive-descent parser that turns the tokens into an
//! expression tree.
//!
//! Every function is verified against a mathematical model: the scanner
//! against [`lexer::scan::scan`], the parser against
//! [`parser::grammar::expression`].

pub mod lexer;
pub mod parser;
