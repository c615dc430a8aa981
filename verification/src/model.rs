//! The mathematical model of an arena and of the operations on it.

use crate::error::TreeError;
use crate::handle::NodeRef;
use crate::node::{merge_attrs, AttributeView, ElementDataView, Links, NodeDataView};
use vstd::prelude::*;

verus! {

/// The mathematical shape of an arena: which handles are live, what each
/// node holds, the children of each node in order, and the chain of
/// ancestors of each node from its root down to its parent.
#[verifier::ext_equal]
pub struct Tree {
    /// The number of handles issued; the live handles are those below it.
    pub len: nat,
    pub data: Map<NodeRef, NodeDataView>,
    pub children: Map<NodeRef, Seq<NodeRef>>,
    pub ancestors: Map<NodeRef, Seq<NodeRef>>,
}

/// The first element of a chain, if it has one.
pub open spec fn first_of(s: Seq<NodeRef>) -> Option<NodeRef> {
    if s.len() > 0 {
        Some(s.first())
    } else {
        None
    }
}

/// The last element of a chain, if it has one.
pub open spec fn last_of(s: Seq<NodeRef>) -> Option<NodeRef> {
    if s.len() > 0 {
        Some(s.last())
    } else {
        None
    }
}

/// The links `l` of node `h` after the node `c` was spliced into the children
/// of `p` between `prev` and `next`. Placed first, the new child holds the
/// parent and the former first child gives it up.
pub open spec fn splice_links(
    l: Links,
    h: NodeRef,
    p: NodeRef,
    prev: Option<NodeRef>,
    next: Option<NodeRef>,
    c: NodeRef,
) -> Links {
    if h == c {
        Links {
            parent: if prev is None {
                Some(p)
            } else {
                None
            },
            previous_sibling: prev,
            next_sibling: next,
            ..l
        }
    } else if h == p {
        Links {
            first_child: if prev is None {
                Some(c)
            } else {
                l.first_child
            },
            last_child: if next is None {
                Some(c)
            } else {
                l.last_child
            },
            ..l
        }
    } else if Some(h) == prev {
        Links { next_sibling: Some(c), ..l }
    } else if Some(h) == next {
        Links { parent: None, previous_sibling: Some(c), ..l }
    } else {
        l
    }
}

/// The links `l` of node `h` after the node `c`, a child of `p` with links
/// `lc`, was taken out: the neighbours of `c` are linked to each other, the
/// parent's ends move inward where `c` was an end, and the next sibling
/// inherits the parent reference that `c` held.
pub open spec fn unsplice_links(l: Links, h: NodeRef, c: NodeRef, p: NodeRef, lc: Links) -> Links {
    if h == c {
        Links { parent: None, previous_sibling: None, next_sibling: None, ..l }
    } else if h == p {
        Links {
            first_child: if lc.previous_sibling is None {
                lc.next_sibling
            } else {
                l.first_child
            },
            last_child: if lc.next_sibling is None {
                lc.previous_sibling
            } else {
                l.last_child
            },
            ..l
        }
    } else if Some(h) == lc.previous_sibling {
        Links { next_sibling: lc.next_sibling, ..l }
    } else if Some(h) == lc.next_sibling {
        Links { parent: lc.parent, previous_sibling: lc.previous_sibling, ..l }
    } else {
        l
    }
}

/// The links `l` of node `h` after the chain from `first` to `last` moved
/// from `old` to the end of the children of `new`, whose last child was
/// `kept_last`.
pub open spec fn seam_links(
    l: Links,
    h: NodeRef,
    old: NodeRef,
    new: NodeRef,
    first: NodeRef,
    last: NodeRef,
    kept_last: Option<NodeRef>,
) -> Links {
    let l1 = if h == old {
        Links { first_child: None, last_child: None, ..l }
    } else if h == new {
        Links {
            first_child: if kept_last is None {
                Some(first)
            } else {
                l.first_child
            },
            last_child: Some(last),
            ..l
        }
    } else {
        l
    };
    if h == first {
        Links {
            parent: if kept_last is None {
                Some(new)
            } else {
                None
            },
            previous_sibling: kept_last,
            ..l1
        }
    } else if Some(h) == kept_last {
        Links { next_sibling: Some(first), ..l1 }
    } else {
        l1
    }
}

impl Tree {
    /// The arena that has issued no handle.
    pub open spec fn empty() -> Tree {
        Tree { len: 0, data: Map::empty(), children: Map::empty(), ancestors: Map::empty() }
    }

    /// Whether the handle was issued.
    pub open spec fn contains(self, h: NodeRef) -> bool {
        h.index() < self.len
    }

    /// Whether the node is linked under no parent.
    pub open spec fn is_orphan(self, h: NodeRef) -> bool {
        self.ancestors[h].len() == 0
    }

    /// The parent of the node, if it has one.
    pub open spec fn parent(self, h: NodeRef) -> Option<NodeRef> {
        last_of(self.ancestors[h])
    }

    /// Whether `x` is `root` or one of its descendants.
    pub open spec fn in_subtree(self, root: NodeRef, x: NodeRef) -> bool {
        x == root || self.ancestors[x].contains(root)
    }

    /// The handle that the next created node receives.
    pub open spec fn next_ref(self) -> NodeRef {
        NodeRef::at(self.len)
    }

    /// Well-formedness: the three maps cover exactly the live handles, no
    /// node occurs twice among the children of a parent, each child's
    /// ancestors are its parent's ancestors followed by the parent, and each
    /// node with ancestors is listed among the children of the last of them.
    #[verifier::opaque]
    pub open spec fn wf(self) -> bool {
        &&& self.len <= u64::MAX
        &&& forall|h: NodeRef| #[trigger] self.data.dom().contains(h) <==> self.contains(h)
        &&& forall|h: NodeRef| #[trigger] self.children.dom().contains(h) <==> self.contains(h)
        &&& forall|h: NodeRef| #[trigger] self.ancestors.dom().contains(h) <==> self.contains(h)
        &&& forall|p: NodeRef| self.contains(p) ==> (#[trigger] self.children[p]).no_duplicates()
        &&& forall|p: NodeRef, i: int|
            self.contains(p) && 0 <= i < self.children[p].len() ==> {
                let c = #[trigger] self.children[p][i];
                self.contains(c) && self.ancestors[c] == self.ancestors[p].push(p)
            }
        &&& forall|c: NodeRef|
            self.contains(c) && (#[trigger] self.ancestors[c]).len() > 0 ==> {
                let p = self.ancestors[c].last();
                self.contains(p) && self.children[p].contains(c)
            }
    }

    /// The links that the record of `h` holds in a well-formed arena. Only
    /// the first child of a parent holds the parent.
    pub open spec fn links_of(self, h: NodeRef) -> Links {
        let first_child = first_of(self.children[h]);
        let last_child = last_of(self.children[h]);
        if self.is_orphan(h) {
            Links { parent: None, previous_sibling: None, next_sibling: None, first_child, last_child }
        } else {
            let p = self.ancestors[h].last();
            let siblings = self.children[p];
            let i = siblings.index_of(h);
            Links {
                parent: if i == 0 {
                    Some(p)
                } else {
                    None
                },
                previous_sibling: if i > 0 {
                    Some(siblings[i - 1])
                } else {
                    None
                },
                next_sibling: if i + 1 < siblings.len() {
                    Some(siblings[i + 1])
                } else {
                    None
                },
                first_child,
                last_child,
            }
        }
    }

    // ----- creation and data -------------------------------------------

    /// The arena after a node with the given data was created: it receives
    /// the next handle and stands alone.
    pub open spec fn create(self, data: NodeDataView) -> Tree {
        let h = self.next_ref();
        Tree {
            len: self.len + 1,
            data: self.data.insert(h, data),
            children: self.children.insert(h, Seq::empty()),
            ancestors: self.ancestors.insert(h, Seq::empty()),
        }
    }

    /// The arena after the data of `h` was replaced.
    pub open spec fn set_data(self, h: NodeRef, data: NodeDataView) -> Tree {
        Tree { data: self.data.insert(h, data), ..self }
    }

    /// The outcome of an operation that asks only that `h` was issued.
    pub open spec fn check_known(self, h: NodeRef) -> Result<(), TreeError> {
        if self.contains(h) {
            Ok(())
        } else {
            Err(TreeError::UnknownHandle)
        }
    }

    /// The outcome of an operation on the element `h`.
    pub open spec fn check_element(self, h: NodeRef) -> Result<(), TreeError> {
        if !self.contains(h) {
            Err(TreeError::UnknownHandle)
        } else if !(self.data[h] is Element) {
            Err(TreeError::NotAnElement)
        } else {
            Ok(())
        }
    }

    /// The arena after `incoming` was merged into the attributes of the
    /// element `h`.
    pub open spec fn merge_attributes(self, h: NodeRef, incoming: Seq<AttributeView>) -> Tree {
        match self.data[h] {
            NodeDataView::Element(e) => self.set_data(
                h,
                NodeDataView::Element(
                    ElementDataView { attrs: merge_attrs(e.attrs, incoming), ..e },
                ),
            ),
            _ => self,
        }
    }

    /// The arena after `text` was added at the end of the text node `h`.
    pub open spec fn extend_text(self, h: NodeRef, text: Seq<char>) -> Tree {
        match self.data[h] {
            NodeDataView::Text(t) => self.set_data(h, NodeDataView::Text(t + text)),
            _ => self,
        }
    }

    /// Rewriting the data of a node changes neither shape nor links.
    pub proof fn lemma_set_data(self, h: NodeRef, data: NodeDataView)
        requires
            self.wf(),
            self.contains(h),
        ensures
            self.set_data(h, data).wf(),
            forall|x: NodeRef| #[trigger] self.set_data(h, data).links_of(x) == self.links_of(x),
            self.set_data(h, self.data[h]) == self,
    {
        reveal(Tree::wf);
        assert(self.data.insert(h, self.data[h]) =~= self.data);
    }

    // ----- attach ------------------------------------------------------

    /// Whether the orphan `c` may become the child of `p` at position `idx`
    /// without making a node its own ancestor.
    pub open spec fn can_attach(self, p: NodeRef, idx: int, c: NodeRef) -> bool {
        &&& self.contains(p)
        &&& self.contains(c)
        &&& self.is_orphan(c)
        &&& !self.in_subtree(c, p)
        &&& 0 <= idx <= self.children[p].len()
    }

    /// The arena after the orphan `c` became the child of `p` at position
    /// `idx`. The whole subtree of `c` moves under `p`.
    pub open spec fn attach(self, p: NodeRef, idx: int, c: NodeRef) -> Tree {
        let prefix = self.ancestors[p].push(p);
        Tree {
            children: self.children.insert(p, self.children[p].insert(idx, c)),
            ancestors: Map::new(
                |x: NodeRef| self.contains(x),
                |x: NodeRef|
                    if self.in_subtree(c, x) {
                        prefix + self.ancestors[x]
                    } else {
                        self.ancestors[x]
                    },
            ),
            ..self
        }
    }

    /// The links of `h` after `attach(p, idx, c)`: the new child is spliced
    /// between the neighbours of its position.
    pub open spec fn attach_links(self, p: NodeRef, idx: int, c: NodeRef, h: NodeRef) -> Links {
        let s = self.children[p];
        let prev = if idx > 0 {
            Some(s[idx - 1])
        } else {
            None
        };
        let next = if idx < s.len() {
            Some(s[idx])
        } else {
            None
        };
        splice_links(self.links_of(h), h, p, prev, next, c)
    }

    // ----- detach ------------------------------------------------------

    /// The arena after the attached node `c` was taken out of its parent's
    /// children. The subtree of `c` stays below it.
    pub open spec fn detach(self, c: NodeRef) -> Tree {
        let p = self.ancestors[c].last();
        let d = self.ancestors[c].len() as int;
        Tree {
            children: self.children.insert(
                p,
                self.children[p].remove(self.children[p].index_of(c)),
            ),
            ancestors: Map::new(
                |x: NodeRef| self.contains(x),
                |x: NodeRef|
                    if self.in_subtree(c, x) {
                        self.ancestors[x].skip(d)
                    } else {
                        self.ancestors[x]
                    },
            ),
            ..self
        }
    }

    /// The links of `h` after `detach(c)`: the gap that `c` leaves is
    /// closed.
    pub open spec fn detach_links(self, c: NodeRef, h: NodeRef) -> Links {
        unsplice_links(self.links_of(h), h, c, self.ancestors[c].last(), self.links_of(c))
    }

    // ----- adopt -------------------------------------------------------

    /// Whether the children of `old` may move under `new` without making a
    /// node its own ancestor.
    pub open spec fn can_adopt(self, old: NodeRef, new: NodeRef) -> bool {
        &&& self.contains(old)
        &&& self.contains(new)
        &&& old != new
        &&& !self.ancestors[new].contains(old)
    }

    /// The arena after all children of `old` moved, in order, behind the
    /// children that `new` already had. With `old == new` nothing moves.
    pub open spec fn adopt(self, old: NodeRef, new: NodeRef) -> Tree {
        if old == new {
            self
        } else {
            let d = self.ancestors[old].len() as int;
            let prefix = self.ancestors[new].push(new);
            Tree {
                children: self.children.insert(
                    new,
                    self.children[new] + self.children[old],
                ).insert(old, Seq::empty()),
                ancestors: Map::new(
                    |x: NodeRef| self.contains(x),
                    |x: NodeRef|
                        if self.ancestors[x].contains(old) {
                            prefix + self.ancestors[x].skip(d + 1)
                        } else {
                            self.ancestors[x]
                        },
                ),
                ..self
            }
        }
    }

    /// The links of `h` after `adopt(old, new)` with `old != new`: one
    /// relinking at the seam between the two chains, whatever their length.
    pub open spec fn adopt_links(self, old: NodeRef, new: NodeRef, h: NodeRef) -> Links {
        let moved = self.children[old];
        if moved.len() == 0 {
            self.links_of(h)
        } else {
            seam_links(
                self.links_of(h),
                h,
                old,
                new,
                moved.first(),
                moved.last(),
                last_of(self.children[new]),
            )
        }
    }

    // ----- the operations of the arena ---------------------------------

    /// The outcome of appending `c` as the last child of `p`.
    pub open spec fn check_append(self, p: NodeRef, c: NodeRef) -> Result<(), TreeError> {
        if !self.contains(p) || !self.contains(c) {
            Err(TreeError::UnknownHandle)
        } else if !self.is_orphan(c) {
            Err(TreeError::AlreadyAttached)
        } else if self.in_subtree(c, p) {
            Err(TreeError::InvariantViolation)
        } else {
            Ok(())
        }
    }

    /// The arena after `c` was appended as the last child of `p`.
    pub open spec fn append(self, p: NodeRef, c: NodeRef) -> Tree {
        self.attach(p, self.children[p].len() as int, c)
    }

    /// The outcome of inserting `c` next to the attached node `s`.
    pub open spec fn check_insert(self, s: NodeRef, c: NodeRef) -> Result<(), TreeError> {
        if !self.contains(s) || !self.contains(c) {
            Err(TreeError::UnknownHandle)
        } else if !self.is_orphan(c) {
            Err(TreeError::AlreadyAttached)
        } else if self.is_orphan(s) {
            Err(TreeError::NoParent)
        } else if self.ancestors[s].contains(c) {
            Err(TreeError::InvariantViolation)
        } else {
            Ok(())
        }
    }

    /// The arena after `c` was inserted immediately before `s`.
    pub open spec fn insert_before(self, s: NodeRef, c: NodeRef) -> Tree {
        let p = self.ancestors[s].last();
        self.attach(p, self.children[p].index_of(s), c)
    }

    /// The arena after `c` was inserted immediately after `s`.
    pub open spec fn insert_after(self, s: NodeRef, c: NodeRef) -> Tree {
        let p = self.ancestors[s].last();
        self.attach(p, self.children[p].index_of(s) + 1, c)
    }

    /// The arena after `c` was removed from its parent, if it had one.
    pub open spec fn remove(self, c: NodeRef) -> Tree {
        if self.is_orphan(c) {
            self
        } else {
            self.detach(c)
        }
    }

    /// The outcome of moving the children of `old` under `new`.
    pub open spec fn check_reparent(self, old: NodeRef, new: NodeRef) -> Result<(), TreeError> {
        if !self.contains(old) || !self.contains(new) {
            Err(TreeError::UnknownHandle)
        } else if old != new && self.ancestors[new].contains(old) {
            Err(TreeError::InvariantViolation)
        } else {
            Ok(())
        }
    }

    // ----- facts about well-formed arenas ------------------------------

    /// The maps of a well-formed arena cover exactly the live handles.
    pub proof fn lemma_domain(self, h: NodeRef)
        requires
            self.wf(),
        ensures
            self.len <= u64::MAX,
            self.data.dom().contains(h) <==> self.contains(h),
            self.children.dom().contains(h) <==> self.contains(h),
            self.ancestors.dom().contains(h) <==> self.contains(h),
    {
        reveal(Tree::wf);
    }

    /// A listed child knows its parent and its own position.
    pub proof fn lemma_child_position(self, p: NodeRef, i: int)
        requires
            self.wf(),
            self.contains(p),
            0 <= i < self.children[p].len(),
        ensures
            self.contains(self.children[p][i]),
            !self.is_orphan(self.children[p][i]),
            self.ancestors[self.children[p][i]] == self.ancestors[p].push(p),
            self.ancestors[self.children[p][i]].last() == p,
            self.children[p].index_of(self.children[p][i]) == i,
            self.children[p][i] != p,
            self.children[p].no_duplicates(),
    {
        reveal(Tree::wf);
        let s = self.children[p];
        let c = s[i];
        assert(s.contains(c));
        let j = s.index_of(c);
        assert(0 <= j < s.len() && s[j] == c);
        assert(s.no_duplicates());
        assert(self.ancestors[c].len() == self.ancestors[p].len() + 1);
    }

    /// An attached node is listed by its parent; the result is its position.
    pub proof fn lemma_parent_lists_child(self, c: NodeRef) -> (i: int)
        requires
            self.wf(),
            self.contains(c),
            !self.is_orphan(c),
        ensures
            self.contains(self.ancestors[c].last()),
            0 <= i < self.children[self.ancestors[c].last()].len(),
            self.children[self.ancestors[c].last()][i] == c,
            self.children[self.ancestors[c].last()].index_of(c) == i,
            self.ancestors[c] == self.ancestors[self.ancestors[c].last()].push(
                self.ancestors[c].last(),
            ),
            self.children[self.ancestors[c].last()].no_duplicates(),
    {
        reveal(Tree::wf);
        let p = self.ancestors[c].last();
        assert(self.children[p].contains(c));
        let i = self.children[p].index_of(c);
        self.lemma_child_position(p, i);
        i
    }

    /// Every ancestor of a node is live, and its own ancestors are the part
    /// of the chain above it.
    pub proof fn lemma_ancestor_prefix(self, x: NodeRef, i: int)
        requires
            self.wf(),
            self.contains(x),
            0 <= i < self.ancestors[x].len(),
        ensures
            self.contains(self.ancestors[x][i]),
            self.ancestors[self.ancestors[x][i]] == self.ancestors[x].take(i),
        decreases self.ancestors[x].len(),
    {
        let n = self.ancestors[x].len() as int;
        let p = self.ancestors[x].last();
        let k = self.lemma_parent_lists_child(x);
        if i == n - 1 {
            assert(self.ancestors[p] =~= self.ancestors[x].take(i));
        } else {
            assert(self.ancestors[x][i] == self.ancestors[p][i]);
            self.lemma_ancestor_prefix(p, i);
            assert(self.ancestors[p].take(i) =~= self.ancestors[x].take(i));
        }
    }

    /// A node occurs among the ancestors of another at one depth only: its
    /// own.
    pub proof fn lemma_ancestor_depth(self, x: NodeRef, a: NodeRef)
        requires
            self.wf(),
            self.contains(x),
            self.ancestors[x].contains(a),
        ensures
            self.contains(a),
            self.ancestors[a].len() < self.ancestors[x].len(),
            self.ancestors[x][self.ancestors[a].len() as int] == a,
            self.ancestors[a] == self.ancestors[x].take(self.ancestors[a].len() as int),
            self.children[a].len() > 0,
    {
        let s = self.ancestors[x];
        let i = choose|i: int| 0 <= i < s.len() && s[i] == a;
        self.lemma_ancestor_prefix(x, i);
        assert(s.take(i).len() == i);
        if i + 1 < s.len() {
            let b = s[i + 1];
            self.lemma_ancestor_prefix(x, i + 1);
            assert(self.ancestors[b].last() == a);
            let k = self.lemma_parent_lists_child(b);
        } else {
            let k = self.lemma_parent_lists_child(x);
        }
    }

    /// Creating a node keeps the arena well-formed and touches no other
    /// node.
    pub proof fn lemma_create(self, data: NodeDataView)
        requires
            self.wf(),
            self.len < u64::MAX,
        ensures
            self.create(data).wf(),
            !self.contains(self.next_ref()),
            self.create(data).contains(self.next_ref()),
            self.next_ref().index() == self.len,
            forall|h: NodeRef| self.contains(h) ==> self.create(data).contains(h),
            forall|h: NodeRef|
                self.contains(h) ==> #[trigger] self.create(data).links_of(h) == self.links_of(h),
            self.create(data).links_of(self.next_ref()) == Links::none(),
    {
        reveal(Tree::wf);
        let t = self.create(data);
        let n = self.next_ref();
        assert forall|p: NodeRef, i: int|
            t.contains(p) && 0 <= i < t.children[p].len() implies {
            let c = #[trigger] t.children[p][i];
            t.contains(c) && t.ancestors[c] == t.ancestors[p].push(p)
        } by {
            assert(p != n);
            let c = self.children[p][i];
            assert(self.contains(c));
        }
        assert forall|c: NodeRef| t.contains(c) && (#[trigger] t.ancestors[c]).len() > 0 implies {
            let p = t.ancestors[c].last();
            t.contains(p) && t.children[p].contains(c)
        } by {
            assert(c != n);
            let p = self.ancestors[c].last();
            assert(self.contains(p));
        }
        assert forall|h: NodeRef| self.contains(h) implies #[trigger] t.links_of(h)
            == self.links_of(h) by {
            if !self.is_orphan(h) {
                let p = self.ancestors[h].last();
                assert(self.contains(p));
            }
        }
    }
}

} // verus!
