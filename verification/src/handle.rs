//! Node handles and their order.

use std::cmp::Ordering;
use vstd::prelude::*;
use vstd::std_specs::cmp::PartialOrdSpecImpl;

verus! {

/// A handle to one node of an arena. Handles are issued in increasing order
/// and two handles are equal exactly when they address the same slot.
#[derive(Debug, Clone, Copy, PartialEq, Eq, Ord, Hash, Structural)]
pub struct NodeRef(pub(crate) u64);

impl NodeRef {
    /// The position of the handle in the order of issue.
    pub open(crate) spec fn index(self) -> nat {
        self.0 as nat
    }

    /// The handle at a given position.
    pub open(crate) spec fn at(i: nat) -> NodeRef {
        NodeRef(i as u64)
    }

    /// The position of the handle in the order of issue.
    pub fn id(&self) -> (id: u64)
        ensures
            id == self.index(),
    {
        self.0
    }
}

impl PartialOrd for NodeRef {
    /// Handles compare as their positions in the order of issue do.
    fn partial_cmp(&self, other: &NodeRef) -> (r: Option<Ordering>) {
        if self.0 < other.0 {
            Some(Ordering::Less)
        } else if self.0 == other.0 {
            Some(Ordering::Equal)
        } else {
            Some(Ordering::Greater)
        }
    }
}

impl PartialOrdSpecImpl for NodeRef {
    open spec fn obeys_partial_cmp_spec() -> bool {
        true
    }

    open spec fn partial_cmp_spec(&self, other: &NodeRef) -> Option<Ordering> {
        if self.index() < other.index() {
            Some(Ordering::Less)
        } else if self.index() == other.index() {
            Some(Ordering::Equal)
        } else {
            Some(Ordering::Greater)
        }
    }
}

/// Handles with the same position are the same handle.
pub proof fn lemma_index_injective(a: NodeRef, b: NodeRef)
    ensures
        a.index() == b.index() <==> a == b,
{
}

} // verus!
