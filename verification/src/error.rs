//! The errors of the arena.

use vstd::prelude::*;

verus! {

/// Why a structural operation was refused. A refused operation leaves the
/// arena exactly as it was.
#[derive(Debug, Clone, Copy, PartialEq, Eq, Structural)]
pub enum TreeError {
    /// The handle was never issued by this arena.
    UnknownHandle,
    /// The node to attach is already linked under a parent.
    AlreadyAttached,
    /// The reference sibling has no parent to splice into.
    NoParent,
    /// The target node is not an element.
    NotAnElement,
    /// The target element carries no template contents.
    NotATemplate,
    /// Carrying the operation out would break the tree's shape: a node
    /// would become its own ancestor.
    InvariantViolation,
}

impl TreeError {
    /// A short description for diagnostics.
    pub fn message(&self) -> (text: &'static str)
        ensures
            text@ == self.spec_message()@,
    {
        match self {
            TreeError::UnknownHandle => "unknown node handle",
            TreeError::AlreadyAttached => "node is already attached to a parent",
            TreeError::NoParent => "reference sibling has no parent",
            TreeError::NotAnElement => "node is not an element",
            TreeError::NotATemplate => "element is not a template",
            TreeError::InvariantViolation => "operation would make a node its own ancestor",
        }
    }

    /// The text that [`TreeError::message`] returns.
    pub open spec fn spec_message(&self) -> &'static str {
        match self {
            TreeError::UnknownHandle => "unknown node handle",
            TreeError::AlreadyAttached => "node is already attached to a parent",
            TreeError::NoParent => "reference sibling has no parent",
            TreeError::NotAnElement => "node is not an element",
            TreeError::NotATemplate => "element is not a template",
            TreeError::InvariantViolation => "operation would make a node its own ancestor",
        }
    }
}

} // verus!
