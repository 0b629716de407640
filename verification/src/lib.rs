//! An interpreter for the untyped lambda calculus: a lexer, a recursive-descent
//! parser, a chain of binding frames and a substitution-based evaluator, each
//! with a machine-checked contract over a mathematical model of its data.

pub mod chars;
pub mod environment;
pub mod error;
pub mod evaluator;
pub mod parser;
pub mod roundtrip;
pub mod term;
pub mod tokenizer;

pub use crate::environment::Environment;
pub use crate::error::{InterpreterError, InterpreterResult};
pub use crate::evaluator::evaluate;
pub use crate::parser::parse;
pub use crate::term::Term;
pub use crate::tokenizer::{tokenize, TokenKind};
