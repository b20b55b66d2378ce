//! The front end and code-generation core of a small expression-oriented
//! language: a tokenizer with one token of pushback, a recursive-descent
//! parser with precedence climbing, and a code generator that checks calls
//! and definitions against a per-name function table and lowers each body to
//! a flat instruction sequence for a JIT backend to emit.
pub mod error;
pub mod lexer;
pub mod ast;
pub mod parser;
pub mod gen;
