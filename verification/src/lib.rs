//! seabun: the front end of a small, informal programming language.
//!
//! The crate turns source text into tokens (`def::tokenize`) and tokens into a
//! primitive syntax tree (`aster::primitive_ast`).
use vstd::prelude::*;

pub mod eco;
pub mod unicode;
pub mod def;
pub mod lexer;
pub mod scan;
pub mod select;
pub mod error_span;
pub mod text;
pub mod literals;
pub mod unescape;
pub mod aster;

verus! {

} // verus!
