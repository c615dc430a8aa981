//! An arena of document nodes addressed by handles, with the structural
//! operations a markup parser needs to build a tree: append, sibling-relative
//! insertion, detachment and bulk reparenting.
//!
//! Every operation is stated over [`model::Tree`], the mathematical shape of
//! the arena, and preserves its well-formedness.

pub mod error;
pub mod handle;
pub mod laws;
pub mod lemmas;
pub mod model;
pub mod node;
mod records;
pub mod sink;
pub mod tree;

pub use error::TreeError;
pub use handle::NodeRef;
pub use model::Tree;
pub use node::{
    Attribute, Doctype, DocumentData, ElementData, Links, Node, NodeData, QualifiedName,
};
pub use sink::{Event, Failure, NodeOrText, Sink};
pub use tree::NodeFactory;
