//! A small S-expression interpreter: a tokenizer, a recursive-descent
//! reader, an environment of built-in commands and an evaluator, each with
//! a contract over a mathematical model of expressions.

pub mod expr;
pub mod lexer;
pub mod reader;
pub mod env;
pub mod eval;
pub mod laws;
pub mod diagram;
