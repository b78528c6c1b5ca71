//! A parser for an indentation-based notation of nested property maps, item
//! lists, inline bracketed sequences and scalars, into a tree of values whose
//! leaves are all text.
pub mod bytes;
pub mod grammar;
pub mod laws;
pub mod model;
pub mod parser;
mod text;
pub mod value;

pub use parser::{parse, Attempt, ParseError, Shape};
pub use value::Value;
