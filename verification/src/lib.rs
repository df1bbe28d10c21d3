//! Rusche: the reader and core data structures of a Scheme-like language.

pub mod span;
pub mod text;
pub mod number;
pub mod token;
pub mod lexer;
pub mod scanner;
pub mod expr;
pub mod parser;
pub mod eval;
pub mod eval_error;
pub mod utils;
pub mod proc;
pub mod builtin;
pub mod env;
pub mod step;
pub mod read_back;
