//! A parser for a small template language: a stream of pre-lexed tokens is
//! turned into an abstract syntax tree of literals, interpolation
//! placeholders, and named, nestable sections.

pub mod ast;
pub mod parser;
pub mod properties;
pub mod token;
