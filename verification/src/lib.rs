//! A JSON parsing library with a verified core: a pull-based tokenizer, a
//! recursive-descent parser building an immutable document tree, and a
//! shape-tagged wrapper that only exposes the navigation operations valid for
//! the shape a subtree actually has.

pub mod lexer;
pub mod numbers;
pub mod parser;
pub mod render;
pub mod json;
pub mod laws;
