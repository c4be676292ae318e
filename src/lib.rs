//! Streaming flattening of JSON documents into (path, value) pairs.
//!
//! A token source delivers a document as lexical events ([`token`]). The path
//! tracker ([`json_path`]) follows the nesting one event at a time, and the
//! driver ([`index`]) surfaces every scalar and every empty array, with the
//! dotted / bracketed path that locates it ([`render`]). The [`tree`] module
//! states, over documents as trees, that the streaming result is the
//! flattening of the tree and that the path stack ends empty.

pub mod token;
pub mod json_path;
pub mod render;
pub mod index;
pub mod tree;
