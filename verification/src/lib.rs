//! A small, dependency-free JSON reader: a cursor over the code points of a
//! text, one parsing routine per construct of the grammar, and the tree of
//! values they build.
//!
//! [`grammar`] says what the reader returns on every text. [`syntax`]
//! describes the documents of the grammar as they are written; [`theorems`]
//! proves that every document is read as the value it denotes, [`converse`]
//! that nothing else is read with success.
//!
//! A number is kept as the text of its literal, which [`number`] checks. An
//! object is kept as a list of members with distinct keys.

pub mod chars;
pub mod converse;
pub mod error;
pub mod grammar;
pub mod number;
pub mod parser;
pub mod syntax;
pub mod theorems;
pub mod value;

pub use crate::error::{Literal, ParseError};
pub use crate::parser::JSONString;
pub use crate::value::JSONTYPE;
