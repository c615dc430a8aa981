//! The arena of nodes and the operations that change its shape.

use crate::error::TreeError;
use crate::handle::NodeRef;
use crate::model::Tree;
use crate::node::{attrs_view, Attribute, Links, Node, NodeData};
use crate::records::{data_entry, links_at, seam, splice_in, unsplice};
use std::collections::{HashMap, HashSet};
use vstd::prelude::*;
use vstd::std_specs::hash::*;
use vstd::string::StringExecFns;

verus! {

broadcast use vstd::std_specs::hash::group_hash_axioms;

/// The arena: it owns every node record, issues the handles, and carries
/// out the structural operations. Records are never removed, so a handle
/// stays valid for the life of the arena.
pub struct NodeFactory {
    current_ref: NodeRef,
    nodes: HashMap<u64, Node>,
    orphan_nodes: HashSet<u64>,
    children: Ghost<Map<NodeRef, Seq<NodeRef>>>,
    ancestors: Ghost<Map<NodeRef, Seq<NodeRef>>>,
}

impl View for NodeFactory {
    type V = Tree;

    closed spec fn view(&self) -> Tree {
        Tree {
            len: self.current_ref.0 as nat,
            data: Map::new(
                |h: NodeRef| h.0 < self.current_ref.0,
                |h: NodeRef| self.nodes@[h.0].data@,
            ),
            children: self.children@,
            ancestors: self.ancestors@,
        }
    }
}

impl NodeFactory {
    /// The stored links are those that the shape prescribes.
    spec fn links_agree(&self) -> bool {
        forall|h: NodeRef|
            self@.contains(h) ==> self.nodes@[h.0].links == #[trigger] self@.links_of(h)
    }

    /// The invariant of the arena: its shape is a well-formed tree, the
    /// records are those of the issued handles, each record holds the links
    /// that the shape prescribes, and the orphan set holds exactly the nodes
    /// without a parent.
    pub closed spec fn wf(&self) -> bool {
        &&& self@.wf()
        &&& forall|k: u64| #[trigger] self.nodes@.contains_key(k) <==> k < self.current_ref.0
        &&& forall|k: u64| #[trigger]
            self.orphan_nodes@.contains(k) <==> (k < self.current_ref.0 && self@.is_orphan(
                NodeRef(k),
            ))
        &&& self.links_agree()
    }

    /// What the invariant says of the arena's shape.
    pub proof fn lemma_wf(&self)
        requires
            self.wf(),
        ensures
            self@.wf(),
    {
    }

    /// An arena without nodes.
    pub fn new() -> (tree: NodeFactory)
        ensures
            tree.wf(),
            tree@ == Tree::empty(),
    {
        let tree = NodeFactory {
            current_ref: NodeRef(0),
            nodes: HashMap::new(),
            orphan_nodes: HashSet::new(),
            children: Ghost(Map::empty()),
            ancestors: Ghost(Map::empty()),
        };
        proof {
            reveal(Tree::wf);
            assert(tree@ =~= Tree::empty());
        }
        tree
    }

    /// The number of handles issued so far.
    pub fn len(&self) -> (n: u64)
        ensures
            n == self@.len,
    {
        self.current_ref.0
    }

    /// Whether the handle was issued by this arena.
    pub fn contains(&self, node_ref: NodeRef) -> (known: bool)
        ensures
            known == self@.contains(node_ref),
    {
        node_ref.0 < self.current_ref.0
    }

    /// Creates a node that stands alone and returns its handle, which is
    /// greater than every handle issued before.
    pub fn new_node(&mut self, data: NodeData) -> (node_ref: NodeRef)
        requires
            old(self).wf(),
            old(self)@.len < u64::MAX,
        ensures
            final(self).wf(),
            final(self)@ == old(self)@.create(data@),
            node_ref == old(self)@.next_ref(),
            node_ref.index() == old(self)@.len,
            !old(self)@.contains(node_ref),
            forall|h: NodeRef| old(self)@.contains(h) ==> h.index() < node_ref.index(),
    {
        let ghost t = self@;
        let node_ref = self.current_ref;
        self.nodes.insert(node_ref.0, Node::new(data));
        self.orphan_nodes.insert(node_ref.0);
        self.current_ref = NodeRef(node_ref.0 + 1);
        self.children = Ghost(t.children.insert(node_ref, Seq::empty()));
        self.ancestors = Ghost(t.ancestors.insert(node_ref, Seq::empty()));
        proof {
            t.lemma_create(data@);
            assert(node_ref == t.next_ref());
            assert(self@.data =~= t.create(data@).data);
            assert(self@ =~= t.create(data@));
            assert forall|h: NodeRef| self@.contains(h) implies self.nodes@[h.0].links
                == #[trigger] self@.links_of(h) by {
                if h != node_ref {
                    assert(t.contains(h));
                    assert(old(self).nodes@[h.0].links == t.links_of(h));
                }
            }
        }
        node_ref
    }

    /// The record of a node: its data and the links that the shape
    /// prescribes.
    pub fn get_node(&self, node_ref: NodeRef) -> (r: Result<&Node, TreeError>)
        requires
            self.wf(),
        ensures
            match r {
                Ok(node) => self@.contains(node_ref) && node.links() == self@.links_of(node_ref)
                    && node.spec_data()@ == self@.data[node_ref],
                Err(e) => e == TreeError::UnknownHandle && !self@.contains(node_ref),
            },
    {
        match self.nodes.get(&node_ref.0) {
            Some(node) => {
                assert(self.nodes@[node_ref.0].links == self@.links_of(node_ref));
                Ok(node)
            },
            None => Err(TreeError::UnknownHandle),
        }
    }

    /// Whether `after` is `before` with the data of one record rewritten.
    spec fn rewrites_data(before: NodeFactory, after: NodeFactory, h: NodeRef) -> bool {
        &&& after.current_ref == before.current_ref
        &&& after.orphan_nodes@ == before.orphan_nodes@
        &&& after.children@ == before.children@
        &&& after.ancestors@ == before.ancestors@
        &&& after.nodes@ == before.nodes@.insert(
            h.0,
            Node { links: before.nodes@[h.0].links, data: after.nodes@[h.0].data },
        )
    }

    /// Rewriting the data of a record keeps the invariant and the shape.
    proof fn lemma_rewrites_data(before: NodeFactory, after: NodeFactory, h: NodeRef)
        requires
            before.wf(),
            before@.contains(h),
            Self::rewrites_data(before, after, h),
        ensures
            after.wf(),
            after@ == before@.set_data(h, after.nodes@[h.0].data@),
    {
        let t = before@;
        t.lemma_set_data(h, after.nodes@[h.0].data@);
        assert(after@.data =~= t.set_data(h, after.nodes@[h.0].data@).data);
        assert(after@ =~= t.set_data(h, after.nodes@[h.0].data@));
        assert forall|x: NodeRef| after@.contains(x) implies after.nodes@[x.0].links
            == #[trigger] after@.links_of(x) by {
            assert(before.nodes@[x.0].links == t.links_of(x));
            assert(after@.links_of(x) == t.links_of(x));
        }
    }

    /// Mutable access to the data of a node. The links stay out of reach,
    /// so whatever is written keeps the arena well-formed.
    pub fn get_node_mut(&mut self, node_ref: NodeRef) -> (r: Result<&mut NodeData, TreeError>)
        requires
            old(self).wf(),
        ensures
            final(self).wf(),
            match r {
                Ok(data) => old(self)@.contains(node_ref) && (*data)@ == old(self)@.data[node_ref]
                    && final(self)@ == old(self)@.set_data(node_ref, (*final(data))@),
                Err(e) => e == TreeError::UnknownHandle && !old(self)@.contains(node_ref)
                    && final(self)@ == old(self)@,
            },
    {
        let ghost before = *self;
        proof {
            assert forall|after: NodeFactory|
                before@.contains(node_ref) && Self::rewrites_data(
                    before,
                    after,
                    node_ref,
                ) implies #[trigger] after.wf() && after@ == before@.set_data(
                node_ref,
                after.nodes@[node_ref.0].data@,
            ) by {
                Self::lemma_rewrites_data(before, after, node_ref);
            }
        }
        match data_entry(&mut self.nodes, node_ref.0) {
            Some(data) => Ok(data),
            None => Err(TreeError::UnknownHandle),
        }
    }

    /// Whether the node is linked under no parent.
    pub fn is_orphan(&self, node_ref: NodeRef) -> (r: Result<bool, TreeError>)
        requires
            self.wf(),
        ensures
            match r {
                Ok(orphan) => self@.contains(node_ref) && orphan == self@.is_orphan(node_ref),
                Err(e) => e == TreeError::UnknownHandle && !self@.contains(node_ref),
            },
    {
        if node_ref.0 < self.current_ref.0 {
            let orphan = self.orphan_nodes.contains(&node_ref.0);
            assert(self.orphan_nodes@.contains(node_ref.0) == self@.is_orphan(NodeRef(node_ref.0)));
            Ok(orphan)
        } else {
            Err(TreeError::UnknownHandle)
        }
    }

    /// The links of a live node.
    fn links(&self, h: NodeRef) -> (l: Links)
        requires
            self.wf(),
            self@.contains(h),
        ensures
            l == self@.links_of(h),
    {
        assert(self.nodes@.contains_key(h.0));
        assert(self.nodes@[h.0].links == self@.links_of(h));
        links_at(&self.nodes, h.0)
    }

    /// Finds the parent of a live node by walking to the first of its
    /// siblings, the one that holds the parent.
    fn parent_walk(&self, h: NodeRef) -> (parent: Option<NodeRef>)
        requires
            self.wf(),
            self@.contains(h),
        ensures
            parent == self@.parent(h),
    {
        let ghost t = self@;
        let ghost p = t.ancestors[h].last();
        let ghost mut i: int = 0;
        proof {
            if !t.is_orphan(h) {
                i = t.lemma_parent_lists_child(h);
            }
        }
        let mut l = self.links(h);
        let ghost mut cur = h;
        while l.previous_sibling.is_some()
            invariant
                self.wf(),
                t == self@,
                p == t.ancestors[h].last(),
                t.contains(cur),
                l == t.links_of(cur),
                t.is_orphan(cur) == t.is_orphan(h),
                !t.is_orphan(h) ==> t.contains(p) && 0 <= i < t.children[p].len()
                    && t.children[p][i] == cur,
            decreases i,
        {
            let prev = l.previous_sibling.unwrap();
            proof {
                t.lemma_child_position(p, i);
                t.lemma_child_position(p, i - 1);
                cur = prev;
                i = i - 1;
            }
            l = self.links(prev);
        }
        proof {
            if !t.is_orphan(h) {
                t.lemma_child_position(p, i);
            }
        }
        l.parent
    }

    /// The parent of a node, if it has one. Only the first child of a
    /// parent holds it, so the search takes as many steps as the node has
    /// siblings before it.
    pub fn parent_of(&self, node_ref: NodeRef) -> (r: Result<Option<NodeRef>, TreeError>)
        requires
            self.wf(),
        ensures
            match r {
                Ok(parent) => self@.contains(node_ref) && parent == self@.parent(node_ref),
                Err(e) => e == TreeError::UnknownHandle && !self@.contains(node_ref),
            },
    {
        if node_ref.0 < self.current_ref.0 {
            Ok(self.parent_walk(node_ref))
        } else {
            Err(TreeError::UnknownHandle)
        }
    }

    /// Whether `a` is an ancestor of `h`.
    fn has_ancestor(&self, h: NodeRef, a: NodeRef) -> (found: bool)
        requires
            self.wf(),
            self@.contains(h),
        ensures
            found == self@.ancestors[h].contains(a),
    {
        let ghost t = self@;
        let mut cur = h;
        loop
            invariant
                self.wf(),
                t == self@,
                t.contains(cur),
                t.ancestors[h].contains(a) == t.ancestors[cur].contains(a),
            decreases t.ancestors[cur].len(),
        {
            match self.parent_walk(cur) {
                None => {
                    return false;
                },
                Some(p) => {
                    proof {
                        let i = t.lemma_parent_lists_child(cur);
                        t.lemma_subtree_step(a, p, i);
                    }
                    if p == a {
                        return true;
                    }
                    cur = p;
                },
            }
        }
    }

    /// The children of a node, in order.
    pub fn children(&self, node_ref: NodeRef) -> (r: Result<Vec<NodeRef>, TreeError>)
        requires
            self.wf(),
        ensures
            match r {
                Ok(list) => self@.contains(node_ref) && list@ == self@.children[node_ref],
                Err(e) => e == TreeError::UnknownHandle && !self@.contains(node_ref),
            },
    {
        if node_ref.0 >= self.current_ref.0 {
            return Err(TreeError::UnknownHandle);
        }
        let ghost t = self@;
        let ghost s = t.children[node_ref];
        let mut list: Vec<NodeRef> = Vec::new();
        let mut next = self.links(node_ref).first_child;
        while next.is_some()
            invariant
                self.wf(),
                t == self@,
                t.contains(node_ref),
                s == t.children[node_ref],
                list@.len() <= s.len(),
                list@ == s.take(list@.len() as int),
                next == (if list@.len() < s.len() {
                    Some(s[list@.len() as int])
                } else {
                    None
                }),
            decreases s.len() - list@.len(),
        {
            let c = next.unwrap();
            proof {
                t.lemma_child_position(node_ref, list@.len() as int);
            }
            next = self.links(c).next_sibling;
            list.push(c);
            assert(list@ =~= s.take(list@.len() as int));
        }
        assert(list@ =~= s);
        Ok(list)
    }

    /// Whether `x` is `root` or one of its descendants. A root without
    /// children is decided at once.
    fn in_subtree(&self, root: NodeRef, x: NodeRef) -> (inside: bool)
        requires
            self.wf(),
            self@.contains(root),
            self@.contains(x),
        ensures
            inside == self@.in_subtree(root, x),
    {
        if x == root {
            return true;
        }
        if self.links(root).first_child.is_none() {
            proof {
                if self@.ancestors[x].contains(root) {
                    self@.lemma_ancestor_depth(x, root);
                }
            }
            return false;
        }
        self.has_ancestor(x, root)
    }

    /// Whether `after` is `before` with its records relinked to the shape
    /// `shape`.
    spec fn relinked(before: NodeFactory, after: NodeFactory, shape: Tree) -> bool {
        &&& after.current_ref == before.current_ref
        &&& after.children@ == shape.children
        &&& after.ancestors@ == shape.ancestors
        &&& after.nodes@.dom() == before.nodes@.dom()
        &&& forall|k: u64| #[trigger]
            before.nodes@.contains_key(k) ==> after.nodes@[k].data == before.nodes@[k].data
                && after.nodes@[k].links == shape.links_of(NodeRef(k))
        &&& forall|k: u64| #[trigger]
            after.orphan_nodes@.contains(k) <==> (k < before.current_ref.0 && shape.is_orphan(
                NodeRef(k),
            ))
    }

    /// Relinking the records to a well-formed shape with the same nodes
    /// gives a well-formed arena of that shape.
    proof fn lemma_relinked(before: NodeFactory, after: NodeFactory, shape: Tree)
        requires
            before.wf(),
            shape.wf(),
            shape.len == before@.len,
            shape.data == before@.data,
            Self::relinked(before, after, shape),
        ensures
            after.wf(),
            after@ == shape,
    {
        assert forall|h: NodeRef| h.0 < before.current_ref.0 implies after.nodes@[h.0].data
            == before.nodes@[h.0].data by {
            assert(before.nodes@.contains_key(h.0));
        }
        assert(after@.data =~= before@.data);
        assert(after@ =~= shape);
        assert forall|h: NodeRef| after@.contains(h) implies after.nodes@[h.0].links
            == #[trigger] after@.links_of(h) by {
            assert(before.nodes@.contains_key(h.0));
            assert(NodeRef(h.0) == h);
        }
    }

    /// Splices the orphan `c` into the children of `p`, between `prev` and
    /// `next`, at position `idx`.
    fn link_child(
        &mut self,
        p: NodeRef,
        prev: Option<NodeRef>,
        next: Option<NodeRef>,
        c: NodeRef,
        Ghost(idx): Ghost<int>,
    )
        requires
            old(self).wf(),
            old(self)@.can_attach(p, idx, c),
            prev == (if idx > 0 {
                Some(old(self)@.children[p][idx - 1])
            } else {
                None
            }),
            next == (if idx < old(self)@.children[p].len() {
                Some(old(self)@.children[p][idx])
            } else {
                None
            }),
        ensures
            final(self).wf(),
            final(self)@ == old(self)@.attach(p, idx, c),
    {
        let ghost t = self@;
        let ghost s = t.children[p];
        let ghost t2 = t.attach(p, idx, c);
        proof {
            t.lemma_attach(p, idx, c);
            if idx > 0 {
                t.lemma_child_position(p, idx - 1);
            }
            if idx < s.len() {
                t.lemma_child_position(p, idx);
            }
        }
        splice_in(&mut self.nodes, p, prev, next, c);
        self.orphan_nodes.remove(&c.0);
        self.children = Ghost(t2.children);
        self.ancestors = Ghost(t2.ancestors);
        proof {
            assert forall|k: u64| #[trigger] old(self).nodes@.contains_key(k) implies self.nodes@[k].data
                == old(self).nodes@[k].data && self.nodes@[k].links == t2.links_of(NodeRef(k)) by {
                let h = NodeRef(k);
                assert(old(self).nodes@[k].links == t.links_of(h));
                assert(t2.links_of(h) == t.attach_links(p, idx, c, h));
            }
            assert forall|k: u64| #[trigger]
                self.orphan_nodes@.contains(k) <==> (k < self.current_ref.0 && t2.is_orphan(
                    NodeRef(k),
                )) by {
                if k < self.current_ref.0 {
                    assert(t2.is_orphan(NodeRef(k)) <==> (t.is_orphan(NodeRef(k)) && NodeRef(k)
                        != c));
                    assert(old(self).orphan_nodes@.contains(k) <==> t.is_orphan(NodeRef(k)));
                } else {
                    assert(!old(self).orphan_nodes@.contains(k));
                }
            }
            Self::lemma_relinked(*old(self), *self, t2);
        }
    }

    /// Takes the attached node `c` out of its parent's children and closes
    /// the gap. The parent is looked up by a walk only where `c` is the
    /// last of several children.
    fn unlink(&mut self, c: NodeRef)
        requires
            old(self).wf(),
            old(self)@.contains(c),
            !old(self)@.is_orphan(c),
        ensures
            final(self).wf(),
            final(self)@ == old(self)@.detach(c),
    {
        let ghost t = self@;
        let ghost p = t.ancestors[c].last();
        let ghost s = t.children[p];
        let ghost t2 = t.detach(c);
        let ghost i = t.lemma_parent_lists_child(c);
        proof {
            t.lemma_detach(c);
            if i > 0 {
                t.lemma_child_position(p, i - 1);
            }
            if i + 1 < s.len() {
                t.lemma_child_position(p, i + 1);
            }
        }
        let lc = self.links(c);
        let parent = if lc.previous_sibling.is_none() {
            lc.parent
        } else if lc.next_sibling.is_none() {
            self.parent_walk(c)
        } else {
            None
        };
        unsplice(&mut self.nodes, c, parent, Ghost(p));
        self.orphan_nodes.insert(c.0);
        self.children = Ghost(t2.children);
        self.ancestors = Ghost(t2.ancestors);
        proof {
            assert forall|k: u64| #[trigger] old(self).nodes@.contains_key(k) implies self.nodes@[k].data
                == old(self).nodes@[k].data && self.nodes@[k].links == t2.links_of(NodeRef(k)) by {
                let h = NodeRef(k);
                assert(old(self).nodes@[k].links == t.links_of(h));
                assert(t2.links_of(h) == t.detach_links(c, h));
            }
            assert forall|k: u64| #[trigger]
                self.orphan_nodes@.contains(k) <==> (k < self.current_ref.0 && t2.is_orphan(
                    NodeRef(k),
                )) by {
                if k < self.current_ref.0 {
                    assert(t2.is_orphan(NodeRef(k)) <==> (t.is_orphan(NodeRef(k)) || NodeRef(k)
                        == c));
                    assert(old(self).orphan_nodes@.contains(k) <==> t.is_orphan(NodeRef(k)));
                } else {
                    assert(!old(self).orphan_nodes@.contains(k));
                }
            }
            Self::lemma_relinked(*old(self), *self, t2);
        }
    }

    /// Moves the chain of children that starts at `first` and ends at
    /// `last` from `old_parent` to the end of `new_parent`'s children, by
    /// relinking the two ends.
    fn relink_children(
        &mut self,
        old_parent: NodeRef,
        new_parent: NodeRef,
        first: NodeRef,
        last: NodeRef,
    )
        requires
            old(self).wf(),
            old(self)@.can_adopt(old_parent, new_parent),
            old(self)@.children[old_parent].len() > 0,
            first == old(self)@.children[old_parent].first(),
            last == old(self)@.children[old_parent].last(),
        ensures
            final(self).wf(),
            final(self)@ == old(self)@.adopt(old_parent, new_parent),
    {
        let ghost t = self@;
        let ghost kept = t.children[new_parent];
        let ghost t2 = t.adopt(old_parent, new_parent);
        proof {
            t.lemma_adopt(old_parent, new_parent);
            t.lemma_child_position(old_parent, 0);
            if kept.len() > 0 {
                t.lemma_child_position(new_parent, kept.len() - 1);
            }
        }
        let kept_last = self.links(new_parent).last_child;
        seam(&mut self.nodes, old_parent, new_parent, first, last, kept_last);
        self.children = Ghost(t2.children);
        self.ancestors = Ghost(t2.ancestors);
        proof {
            assert forall|k: u64| #[trigger] old(self).nodes@.contains_key(k) implies self.nodes@[k].data
                == old(self).nodes@[k].data && self.nodes@[k].links == t2.links_of(NodeRef(k)) by {
                let h = NodeRef(k);
                assert(old(self).nodes@[k].links == t.links_of(h));
                assert(t2.links_of(h) == t.adopt_links(old_parent, new_parent, h));
            }
            assert forall|k: u64| #[trigger]
                self.orphan_nodes@.contains(k) <==> (k < self.current_ref.0 && t2.is_orphan(
                    NodeRef(k),
                )) by {
                if k < self.current_ref.0 {
                    assert(t2.is_orphan(NodeRef(k)) <==> t.is_orphan(NodeRef(k)));
                    assert(old(self).orphan_nodes@.contains(k) <==> t.is_orphan(NodeRef(k)));
                } else {
                    assert(!old(self).orphan_nodes@.contains(k));
                }
            }
            Self::lemma_relinked(*old(self), *self, t2);
        }
    }

    /// Appends the orphan `new_child_ref` as the last child of
    /// `parent_ref`. A first child receives the parent reference; a later
    /// child is linked behind the former last child and receives none.
    pub fn append(&mut self, parent_ref: NodeRef, new_child_ref: NodeRef) -> (r: Result<
        (),
        TreeError,
    >)
        requires
            old(self).wf(),
        ensures
            final(self).wf(),
            r == old(self)@.check_append(parent_ref, new_child_ref),
            r is Ok ==> final(self)@ == old(self)@.append(parent_ref, new_child_ref),
            r is Err ==> final(self)@ == old(self)@,
    {
        if !self.contains(parent_ref) || !self.contains(new_child_ref) {
            return Err(TreeError::UnknownHandle);
        }
        assert(self.orphan_nodes@.contains(new_child_ref.0) == self@.is_orphan(
            NodeRef(new_child_ref.0),
        ));
        if !self.orphan_nodes.contains(&new_child_ref.0) {
            return Err(TreeError::AlreadyAttached);
        }
        if self.in_subtree(new_child_ref, parent_ref) {
            return Err(TreeError::InvariantViolation);
        }
        let last = self.links(parent_ref).last_child;
        self.link_child(
            parent_ref,
            last,
            None,
            new_child_ref,
            Ghost(self@.children[parent_ref].len() as int),
        );
        Ok(())
    }

    /// Checks that `new_node_ref` may be inserted next to `sibling_ref`.
    fn check_insert(&self, sibling_ref: NodeRef, new_node_ref: NodeRef) -> (r: Result<
        (),
        TreeError,
    >)
        requires
            self.wf(),
        ensures
            r == self@.check_insert(sibling_ref, new_node_ref),
    {
        if !self.contains(sibling_ref) || !self.contains(new_node_ref) {
            return Err(TreeError::UnknownHandle);
        }
        assert(self.orphan_nodes@.contains(new_node_ref.0) == self@.is_orphan(
            NodeRef(new_node_ref.0),
        ));
        assert(self.orphan_nodes@.contains(sibling_ref.0) == self@.is_orphan(
            NodeRef(sibling_ref.0),
        ));
        if !self.orphan_nodes.contains(&new_node_ref.0) {
            return Err(TreeError::AlreadyAttached);
        }
        if self.orphan_nodes.contains(&sibling_ref.0) {
            return Err(TreeError::NoParent);
        }
        if self.links(new_node_ref).first_child.is_some() && self.has_ancestor(
            sibling_ref,
            new_node_ref,
        ) {
            return Err(TreeError::InvariantViolation);
        }
        proof {
            if self@.ancestors[sibling_ref].contains(new_node_ref) {
                self@.lemma_ancestor_depth(sibling_ref, new_node_ref);
            }
        }
        Ok(())
    }

    /// Inserts the orphan `new_node_ref` immediately before `sibling_ref`.
    /// Placed before the first child, the new node takes the parent
    /// reference over from it.
    pub fn append_before_sibling(&mut self, sibling_ref: NodeRef, new_node_ref: NodeRef) -> (r:
        Result<(), TreeError>)
        requires
            old(self).wf(),
        ensures
            final(self).wf(),
            r == old(self)@.check_insert(sibling_ref, new_node_ref),
            r is Ok ==> final(self)@ == old(self)@.insert_before(sibling_ref, new_node_ref),
            r is Err ==> final(self)@ == old(self)@,
    {
        match self.check_insert(sibling_ref, new_node_ref) {
            Err(e) => {
                return Err(e);
            },
            Ok(_) => {},
        }
        let parent = self.parent_walk(sibling_ref).unwrap();
        let prev = self.links(sibling_ref).previous_sibling;
        let ghost idx = self@.lemma_parent_lists_child(sibling_ref);
        proof {
            self@.lemma_subtree_step(new_node_ref, parent, idx);
        }
        self.link_child(parent, prev, Some(sibling_ref), new_node_ref, Ghost(idx));
        Ok(())
    }

    /// Inserts the orphan `new_node_ref` immediately after `sibling_ref`.
    pub fn append_after_sibling(&mut self, sibling_ref: NodeRef, new_node_ref: NodeRef) -> (r:
        Result<(), TreeError>)
        requires
            old(self).wf(),
        ensures
            final(self).wf(),
            r == old(self)@.check_insert(sibling_ref, new_node_ref),
            r is Ok ==> final(self)@ == old(self)@.insert_after(sibling_ref, new_node_ref),
            r is Err ==> final(self)@ == old(self)@,
    {
        match self.check_insert(sibling_ref, new_node_ref) {
            Err(e) => {
                return Err(e);
            },
            Ok(_) => {},
        }
        let parent = self.parent_walk(sibling_ref).unwrap();
        let next = self.links(sibling_ref).next_sibling;
        let ghost idx = self@.lemma_parent_lists_child(sibling_ref);
        proof {
            self@.lemma_subtree_step(new_node_ref, parent, idx);
        }
        self.link_child(parent, Some(sibling_ref), next, new_node_ref, Ghost(idx + 1));
        Ok(())
    }

    /// Detaches a node from its parent; the node becomes an orphan and
    /// keeps its own children. An orphan is left as it is.
    pub fn remove_from_parent(&mut self, node_ref: NodeRef) -> (r: Result<(), TreeError>)
        requires
            old(self).wf(),
        ensures
            final(self).wf(),
            r == old(self)@.check_known(node_ref),
            r is Ok ==> final(self)@ == old(self)@.remove(node_ref),
            r is Err ==> final(self)@ == old(self)@,
    {
        if !self.contains(node_ref) {
            return Err(TreeError::UnknownHandle);
        }
        assert(self.orphan_nodes@.contains(node_ref.0) == self@.is_orphan(NodeRef(node_ref.0)));
        if !self.orphan_nodes.contains(&node_ref.0) {
            self.unlink(node_ref);
        }
        Ok(())
    }

    /// Moves all children of `old_parent_ref`, in order, behind the
    /// children that `new_parent_ref` already has. The chain is relinked at
    /// its two ends only.
    pub fn reparent_children(&mut self, old_parent_ref: NodeRef, new_parent_ref: NodeRef) -> (r:
        Result<(), TreeError>)
        requires
            old(self).wf(),
        ensures
            final(self).wf(),
            r == old(self)@.check_reparent(old_parent_ref, new_parent_ref),
            r is Ok ==> final(self)@ == old(self)@.adopt(old_parent_ref, new_parent_ref),
            r is Err ==> final(self)@ == old(self)@,
    {
        if !self.contains(old_parent_ref) || !self.contains(new_parent_ref) {
            return Err(TreeError::UnknownHandle);
        }
        if old_parent_ref == new_parent_ref {
            return Ok(());
        }
        let lo = self.links(old_parent_ref);
        match (lo.first_child, lo.last_child) {
            (Some(first), Some(last)) => {
                if self.has_ancestor(new_parent_ref, old_parent_ref) {
                    return Err(TreeError::InvariantViolation);
                }
                self.relink_children(old_parent_ref, new_parent_ref, first, last);
                Ok(())
            },
            _ => {
                proof {
                    self@.lemma_adopt_nothing(old_parent_ref, new_parent_ref);
                }
                Ok(())
            },
        }
    }

    /// Merges `attrs` into the attributes of an element: an incoming
    /// attribute is added only if no attribute with the same namespace and
    /// local name is there already.
    pub fn merge_attributes_if_missing(&mut self, element: NodeRef, attrs: Vec<Attribute>) -> (r:
        Result<(), TreeError>)
        requires
            old(self).wf(),
        ensures
            final(self).wf(),
            r == old(self)@.check_element(element),
            r is Ok ==> final(self)@ == old(self)@.merge_attributes(element, attrs_view(attrs@)),
            r is Err ==> final(self)@ == old(self)@,
    {
        match self.get_node_mut(element) {
            Err(e) => Err(e),
            Ok(data) => match data {
                NodeData::Element(e) => {
                    e.add_attrs_if_missing(&attrs);
                    Ok(())
                },
                _ => Err(TreeError::NotAnElement),
            },
        }
    }

    /// Adds `text` at the end of a text node. A node of another kind is
    /// left as it is, and the result says so.
    pub fn push_text(&mut self, node_ref: NodeRef, text: &str) -> (r: Result<bool, TreeError>)
        requires
            old(self).wf(),
        ensures
            final(self).wf(),
            match r {
                Ok(extended) => {
                    &&& old(self)@.contains(node_ref)
                    &&& extended == (old(self)@.data[node_ref] is Text)
                },
                Err(e) => e == TreeError::UnknownHandle && !old(self)@.contains(node_ref),
            },
            final(self)@ == (if old(self)@.contains(node_ref) {
                old(self)@.extend_text(node_ref, text@)
            } else {
                old(self)@
            }),
    {
        match self.get_node_mut(node_ref) {
            Err(e) => Err(e),
            Ok(data) => match data {
                NodeData::Text(t) => {
                    t.append(text);
                    Ok(true)
                },
                _ => Ok(false),
            },
        }
    }

    /// Replaces the data of a node and returns what it held.
    pub fn replace_data(&mut self, node_ref: NodeRef, data: NodeData) -> (r: Result<
        NodeData,
        TreeError,
    >)
        requires
            old(self).wf(),
        ensures
            final(self).wf(),
            match r {
                Ok(previous) => {
                    &&& old(self)@.contains(node_ref)
                    &&& previous@ == old(self)@.data[node_ref]
                    &&& final(self)@ == old(self)@.set_data(node_ref, data@)
                },
                Err(e) => {
                    &&& e == TreeError::UnknownHandle
                    &&& !old(self)@.contains(node_ref)
                    &&& final(self)@ == old(self)@
                },
            },
    {
        match self.get_node_mut(node_ref) {
            Err(e) => Err(e),
            Ok(slot) => {
                let mut previous = data;
                std::mem::swap(slot, &mut previous);
                Ok(previous)
            },
        }
    }
}

} // verus!
