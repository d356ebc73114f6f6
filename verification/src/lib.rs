//! Source-analysis core for a small module-based language: a lexer with
//! exact source spans, a per-line partial parser, an associative combiner
//! for per-line results, and a finalizer that produces a module AST.

pub mod ast;
pub mod hover;
pub mod lexer;
pub mod parser;
