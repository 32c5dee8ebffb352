//! A parser for a small XML-like markup language.
//!
//! Tags hold an alphabetic name and `key` or `key=value` attributes, may be
//! self-closing, and nest. Parsing turns a document into an arena-backed tree
//! and reports the first structural or lexical error it meets.
pub mod attribute;
pub mod element;
pub mod error;
pub mod grammar;
pub mod nesting;
pub mod text;
pub mod tree;
pub mod types;

pub use attribute::{Attribute, AttributeEnding};
pub use element::{Element, ElementState};
pub use error::ParseError;
pub use tree::ElementTree;
