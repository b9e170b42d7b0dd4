//! An interactive calculator over exact rationals: lexer, parser, evaluator
//! and diagnostics, each stage with a verified contract.

pub mod span;
pub mod token;
pub mod diagnostics;
pub mod lexer;
pub mod rational;
pub mod ast;
pub mod parser;
pub mod evaluator;
pub mod session;
pub mod interner;
