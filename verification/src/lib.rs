//! XML documents as trees: a reader that builds a tree from text under a
//! given root name, a writer that renders a tree as indented text, and
//! searches over a tree by tag name, attribute key or text.
//!
//! Tokenizing and pretty-printing are done by `quick_xml`; what it does is
//! stated, not proved, in `tokenizer` and `write`, and so is the decoding of
//! UTF-8 by `std` in `common`. Everything else is verified.

pub mod attrs;
pub mod common;
pub mod dict;
pub mod entities;
pub mod events;
pub mod laws;
pub mod read;
pub mod tokenizer;
pub mod write;
