//! Converts outline documents from a list-structured markdown dialect into a
//! wiki-link based dialect, preserving nesting, block identifiers and
//! cross-document references.

pub mod anchor;
pub mod block;
pub mod laws;
pub mod parse;
pub mod patterns;
pub mod props;
pub mod render;
pub mod registry;
pub mod spans;
pub mod text;
pub mod transform;
