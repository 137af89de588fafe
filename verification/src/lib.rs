//! A recognizer for the C1 language: a tokenizer, a token buffer with nestable
//! checkpoints, and a recursive-descent recognizer built on that buffer.
use vstd::prelude::*;

pub mod alphabet;
pub mod completeness;
pub mod diagnostic;
pub mod grammar;
pub mod lexer;
pub mod munch;
pub mod parser;
pub mod reporting;
pub mod rules;
pub mod scan;
pub mod soundness;

pub use lexer::{C1Lexer, C1Token, TokenData};
pub use parser::C1Parser;

verus! {

/// What a recognizing operation returns: acceptance, or one diagnostic.
pub type ParseResult = Result<(), String>;

} // verus!
