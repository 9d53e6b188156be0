//! A parser for a small language of integer literals, names and
//! assignments.
//!
//! `parse` turns a text into its syntax tree, or says where and why the
//! text has none. It works in two steps: `grammar` reads the text into a
//! parse tree of nodes tagged with rules, and `ast` builds the syntax tree
//! from these nodes. `unparse` writes a syntax tree out again.
//!
//! Everything is stated over the bytes of the text and proved: what each
//! step returns, that no step panics, and the laws that hold of parsing.
//! `language` says without a parser which texts write which trees, and
//! proves that these are the texts that parse to them; `laws` holds the
//! rules of the grammar one by one, what parsing gives for texts in
//! sequence, and what the place of a syntax error means; `unparse` proves
//! that what it writes parses back to the tree it was written from.

pub mod ast;
pub mod embedding;
pub mod error;
pub mod grammar;
pub mod language;
pub mod laws;
pub mod number;
pub mod pair;
pub mod scan;
pub mod text;
pub mod unparse;

pub use ast::{
    assert_parses_to, parse, parse_assignment, parse_expression, parse_identifier, parse_number,
    AstNode,
};
pub use error::ParseError;
pub use pair::{Pair, Rule};
pub use unparse::unparse;
