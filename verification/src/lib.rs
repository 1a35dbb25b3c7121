//! An arena-backed document tree that is built from tree-construction events.
//!
//! Nodes live in a generational slot store and are named by handles. Elements
//! whose content is stylesheet source keep that source, together with its
//! parsed form, in a single stylesheet child.

pub mod text;
pub mod element;
pub mod policy;
pub mod stylesheet;
pub mod node;
pub mod arena;
pub mod tree;
pub mod dom;
pub mod laws;




