//! A reader and writer for a small, loosely XML-like text format.
//!
//! The tokenizer turns text into tokens, the parser builds a tree of elements
//! from them in a strict and in a lenient mode, and the pretty-printer turns a
//! tree back into text. Every function carries a contract over a mathematical
//! model of the text (a sequence of characters) and of the tree.

pub mod attributes;
pub mod display;
pub mod element;
pub mod parser;
pub mod roundtrip;
pub mod tokenizer;

pub use display::PrettyDisplay;
pub use element::{Element, ElementRef, ElementView, Text};
pub use parser::{parse, parse_lenient, NxmlErr, NxmlError};
pub use tokenizer::{Position, Token, Tokenizer};
