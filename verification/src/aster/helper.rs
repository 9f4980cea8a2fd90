//! Helpers of the syntax-tree builder: its errors and the parsing of single
//! values.
pub mod errors;
pub mod single;
