//! A small declarative-definition language built on a generic, composable
//! parsing toolkit.
//!
//! The toolkit ([`combinator`]) provides backtracking recursive-descent
//! primitives over immutable text; the grammar layers assemble those
//! primitives into rules for identifiers, sigil-prefixed internal values,
//! `define` statements, and module-import path expressions. Every parser is
//! specified by a mathematical parse function over character sequences, and
//! the executable code is verified against it.

pub mod ast;
pub mod chars;
pub mod combinator;
pub mod grammar;
pub mod path;
