//! A verified interpreter for a small Forth-family stack language.
//!
//! Source text is parsed line by line into an abstract syntax tree and
//! executed against mutable interpreter state: a data stack of tagged
//! values, a store of named variables addressed by index, a constant
//! table, and a table of user-defined words that are re-resolved by name
//! on every call.  The observable behaviour of every operation is pinned
//! down by a specification-level interpreter over a mathematical view of
//! the state, and the executable code is proved to match it.

pub mod array;
pub mod ast;
mod errors;
pub mod host;
pub mod interp;
pub mod laws;
pub mod literal;
pub mod parser;
mod stack;
pub mod text;
pub mod variable;

pub use array::Array;
pub use errors::ForthError;
pub use interp::ForthInterpreter;
pub use literal::{Literal, Pointer};
pub use parser::ForthParser;
pub use stack::Stack;
