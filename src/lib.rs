//! A concrete-syntax-tree parser for the Cooklang recipe markup language.
//!
//! Every node of the tree records the byte range it covers in the source. The
//! blocks tile the document, the elements of each step tile the step, and the
//! parts of an annotation lie inside it, so the source can always be rebuilt
//! from the tree.

pub mod lexer;
pub mod quantity;
pub mod inline;
pub mod document;
pub mod laws;
pub mod node;
