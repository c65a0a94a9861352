//! A verified parser for Adnot, a small textual notation for data: integers,
//! strings, lists, maps and tagged sums, with comments.
//!
//! The meaning of the notation is stated in `grammar` as functions on sequences of
//! characters; the parser in `parser` is proved to compute exactly what they say.

pub mod chars;
pub mod error;
pub mod value;
pub mod grammar;
pub mod parser;
pub mod laws;
pub mod nesting;

pub use error::{AdnotError, Location};
pub use value::Value;
