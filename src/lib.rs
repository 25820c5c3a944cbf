//! Front end of a small hardware-description language: a scanner that turns
//! source text into tokens and a recursive-descent parser for package headers.
use vstd::prelude::*;

pub mod error;
pub mod lexer;
mod text;
pub mod parser;

verus! {

} // verus!
