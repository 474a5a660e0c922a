//! An interpreter for a small declarative test-scripting language.
//!
//! Source text declares named `test` blocks of expressions (assignments,
//! equality checks, assertions, and an HTTP fetch primitive). The pipeline
//! is: tokenizer -> parser -> evaluator, producing a pass/fail report.

pub mod lexer;
pub mod parser;
pub mod runner;
pub mod types;
