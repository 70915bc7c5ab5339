//! A small interpreter front-end for a Lisp-like symbolic-expression
//! language: a parser from source text to an expression tree, and an
//! evaluator that resolves symbols against a write-once environment.

pub mod ast;
pub mod grammar;
pub mod laws;
pub mod parse;
pub mod system;
