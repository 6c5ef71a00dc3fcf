//! A small line-oriented arithmetic calculator core: a tokenizer that turns a
//! line of text into spanned tokens, a precedence-climbing parser that builds
//! an expression tree, an exact evaluator over rationals, and an error
//! formatter that underlines the offending part of the line.

pub mod chars;
pub mod parser;
pub mod report;
pub mod runtime;
pub mod span;
pub mod tokenizer;
