//! A verified parser for regular-expression patterns.
//!
//! The parser turns a pattern, given as a byte sequence, into a syntax tree
//! of literals, character classes, quantified repetition, groups,
//! alternation, anchors and backreferences.  Matching a subject text against
//! the tree is out of scope: this crate is the front end only.

pub mod ast;
pub mod class;
pub mod engine;
pub mod errors;
pub mod escape;
pub mod normalize;
pub mod parser;
pub mod quantifier;
pub mod shape;
pub mod token;
pub mod tools;
