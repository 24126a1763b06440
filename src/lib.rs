//! An HTML document tree kept in an index arena: nodes are named by their
//! index, each with parent, sibling and child links. The crate builds the tree
//! from tree-construction events, mutates and walks it, renders subtree text,
//! and reads page metadata and article text from rendered pages.

pub mod text;
pub mod node;
pub mod dom;
pub mod traverse;
pub mod document;
pub mod lookup;
pub mod serialize;
pub mod style;
pub mod render;
pub mod extract;
