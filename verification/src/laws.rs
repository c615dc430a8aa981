//! What holds of every well-formed arena, and of operations carried out one
//! after another.

use crate::handle::NodeRef;
use crate::model::{first_of, Tree};
use crate::node::{has_key, merge_attrs, AttributeView, NodeDataView, QualifiedNameView};
use vstd::prelude::*;

verus! {

impl Tree {
    /// One step of a traversal: from a node down to its first child, or
    /// across to its next sibling.
    pub open spec fn steps_to(self, a: NodeRef, b: NodeRef) -> bool {
        self.links_of(a).first_child == Some(b) || self.links_of(a).next_sibling == Some(b)
    }

    /// A traversal: every node of the sequence but the last is live and
    /// steps to the one behind it.
    pub open spec fn is_walk(self, walk: Seq<NodeRef>) -> bool {
        forall|j: int|
            0 <= j < walk.len() - 1 ==> self.contains(#[trigger] walk[j]) && self.steps_to(
                walk[j],
                walk[j + 1],
            )
    }

    /// The position of a node among its siblings; 0 for an orphan.
    pub open spec fn position(self, h: NodeRef) -> int {
        if self.is_orphan(h) {
            0
        } else {
            self.children[self.ancestors[h].last()].index_of(h)
        }
    }

    /// Whether `a` comes before `b` in the order that a traversal follows:
    /// by depth first, and among nodes of the same depth by position.
    pub open spec fn precedes(self, a: NodeRef, b: NodeRef) -> bool {
        self.ancestors[a].len() < self.ancestors[b].len() || (self.ancestors[a].len()
            == self.ancestors[b].len() && self.position(a) < self.position(b))
    }

    /// A step leads to a live node that comes later in the order of
    /// traversal.
    pub proof fn lemma_step_advances(self, a: NodeRef, b: NodeRef)
        requires
            self.wf(),
            self.contains(a),
            self.steps_to(a, b),
        ensures
            self.contains(b),
            self.precedes(a, b),
    {
        if self.links_of(a).first_child == Some(b) {
            self.lemma_child_position(a, 0);
        } else {
            let p = self.ancestors[a].last();
            let i = self.lemma_parent_lists_child(a);
            self.lemma_child_position(p, i + 1);
        }
    }

    /// Every later node of a traversal comes after its start in the order
    /// of traversal.
    pub proof fn lemma_walk_advances(self, walk: Seq<NodeRef>, j: int)
        requires
            self.wf(),
            self.is_walk(walk),
            1 <= j < walk.len(),
        ensures
            self.contains(walk[j]),
            self.precedes(walk[0], walk[j]),
        decreases j,
    {
        assert(self.contains(walk[j - 1]) && self.steps_to(walk[j - 1], walk[j]));
        self.lemma_step_advances(walk[j - 1], walk[j]);
        if j > 1 {
            self.lemma_walk_advances(walk, j - 1);
        }
    }

    /// Acyclicity: in a well-formed arena no traversal by first-child and
    /// next-sibling links, however long, leads from a node back to itself.
    pub proof fn lemma_acyclic(self, walk: Seq<NodeRef>)
        requires
            self.wf(),
            self.is_walk(walk),
            walk.len() >= 2,
        ensures
            walk.first() != walk.last(),
            forall|j: int| 1 <= j < walk.len() ==> #[trigger] walk[j] != walk[0],
    {
        assert forall|j: int| 1 <= j < walk.len() implies #[trigger] walk[j] != walk[0] by {
            self.lemma_walk_advances(walk, j);
        }
    }

    /// Acyclicity, by ancestors: no node is its own ancestor.
    pub proof fn lemma_not_own_ancestor(self, x: NodeRef)
        requires
            self.wf(),
            self.contains(x),
        ensures
            !self.ancestors[x].contains(x),
    {
        if self.ancestors[x].contains(x) {
            self.lemma_ancestor_depth(x, x);
        }
    }

    /// Parent-pointer invariant: a node holds `p` as its parent reference
    /// exactly when it is the first child of `p`.
    pub proof fn lemma_parent_pointer(self, n: NodeRef, p: NodeRef)
        requires
            self.wf(),
            self.contains(n),
            self.contains(p),
        ensures
            self.links_of(n).parent == Some(p) <==> first_of(self.children[p]) == Some(n),
    {
        if self.links_of(n).parent == Some(p) {
            let i = self.lemma_parent_lists_child(n);
        }
        if first_of(self.children[p]) == Some(n) {
            self.lemma_child_position(p, 0);
        }
    }

    /// Sibling chain symmetry: `b` is the next sibling of `a` exactly when
    /// `a` is the previous sibling of `b`.
    pub proof fn lemma_sibling_symmetry(self, a: NodeRef, b: NodeRef)
        requires
            self.wf(),
            self.contains(a),
            self.contains(b),
        ensures
            self.links_of(a).next_sibling == Some(b) <==> self.links_of(b).previous_sibling
                == Some(a),
    {
        if self.links_of(a).next_sibling == Some(b) {
            let p = self.ancestors[a].last();
            let i = self.lemma_parent_lists_child(a);
            self.lemma_child_position(p, i + 1);
        }
        if self.links_of(b).previous_sibling == Some(a) {
            let p = self.ancestors[b].last();
            let i = self.lemma_parent_lists_child(b);
            self.lemma_child_position(p, i - 1);
        }
    }

    /// The chain of children is what the links spell out: it starts at the
    /// parent's first child, each child's next sibling is the child behind
    /// it, and it ends at the parent's last child.
    pub proof fn lemma_child_chain(self, p: NodeRef, i: int)
        requires
            self.wf(),
            self.contains(p),
            0 <= i < self.children[p].len(),
        ensures
            self.links_of(p).first_child == Some(self.children[p][0]),
            self.links_of(p).last_child == Some(self.children[p].last()),
            self.links_of(self.children[p][i]).next_sibling == (if i + 1 < self.children[p].len() {
                Some(self.children[p][i + 1])
            } else {
                None
            }),
            self.links_of(self.children[p][i]).previous_sibling == (if i > 0 {
                Some(self.children[p][i - 1])
            } else {
                None
            }),
    {
        self.lemma_child_position(p, i);
    }

    /// A node is an orphan exactly when no node lists it as a child.
    pub proof fn lemma_orphan_iff_unlisted(self, c: NodeRef)
        requires
            self.wf(),
            self.contains(c),
        ensures
            self.is_orphan(c) <==> (forall|p: NodeRef|
                self.contains(p) ==> !(#[trigger] self.children[p]).contains(c)),
    {
        if self.is_orphan(c) {
            assert forall|p: NodeRef| self.contains(p) implies !(#[trigger] self.children[p]).contains(
                c,
            ) by {
                self.lemma_orphan_not_listed(p, c);
            }
        } else {
            let i = self.lemma_parent_lists_child(c);
        }
    }

    /// Attaching a node and detaching it again gives back the arena as it
    /// was.
    pub proof fn lemma_attach_detach(self, p: NodeRef, idx: int, c: NodeRef)
        requires
            self.wf(),
            self.can_attach(p, idx, c),
        ensures
            self.attach(p, idx, c).detach(c) == self,
    {
        let t1 = self.attach(p, idx, c);
        let t2 = t1.detach(c);
        let s = self.children[p];
        let prefix = self.ancestors[p].push(p);
        self.lemma_attach(p, idx, c);
        assert(t1.children[p] == s.insert(idx, c));
        assert(t1.children[p][idx] == c);
        t1.lemma_child_position(p, idx);
        assert(t1.ancestors[c] =~= prefix);
        assert(s.insert(idx, c).remove(idx) =~= s);
        self.lemma_domain(p);
        assert(t2.children =~= self.children);
        assert forall|x: NodeRef| self.contains(x) implies t2.ancestors[x]
            == self.ancestors[x] by {
            if self.in_subtree(c, x) {
                if x != c {
                    let j = choose|j: int|
                        0 <= j < self.ancestors[x].len() && self.ancestors[x][j] == c;
                    assert(t1.ancestors[x][prefix.len() + j] == c);
                }
                assert(t1.in_subtree(c, x));
                assert((prefix + self.ancestors[x]).skip(prefix.len() as int)
                    =~= self.ancestors[x]);
            }
        }
        assert forall|x: NodeRef| #[trigger]
            self.ancestors.dom().contains(x) <==> self.contains(x) by {
            self.lemma_domain(x);
        }
        assert(t2.ancestors =~= self.ancestors);
        assert(t2 =~= self);
    }

    /// Detach/reattach round trip: a node that was appended under one
    /// parent, detached and appended under another leaves the arena as if
    /// it had been appended under the second parent only; the children of
    /// the first parent are those it had before.
    pub proof fn lemma_detach_reattach(self, p: NodeRef, n: NodeRef, q: NodeRef)
        requires
            self.wf(),
            self.check_append(p, n) is Ok,
            self.check_append(q, n) is Ok,
        ensures
            self.append(p, n).check_append(q, n) is Err,
            self.append(p, n).remove(n) == self,
            self.append(p, n).remove(n).append(q, n) == self.append(q, n),
            q != p ==> self.append(p, n).remove(n).append(q, n).children[p] == self.children[p],
    {
        let idx = self.children[p].len() as int;
        self.lemma_attach(p, idx, n);
        self.lemma_attach_detach(p, idx, n);
        assert(!self.append(p, n).is_orphan(n));
    }

    /// Reparent bulk move: moving the children of `old` under a `new`
    /// parent without children leaves `old` without children and gives
    /// `new` the same children in the same order, the first of which holds
    /// `new` as its parent reference.
    pub proof fn lemma_adopt_into_empty(self, old: NodeRef, new: NodeRef)
        requires
            self.wf(),
            self.check_reparent(old, new) is Ok,
            old != new,
            self.children[new].len() == 0,
        ensures
            self.adopt(old, new).children[old] == Seq::<NodeRef>::empty(),
            self.adopt(old, new).children[new] == self.children[old],
            self.children[old].len() > 0 ==> self.adopt(old, new).links_of(
                self.children[old].first(),
            ).parent == Some(new),
    {
        assert(self.children[new] + self.children[old] =~= self.children[old]);
        if self.children[old].len() > 0 {
            self.lemma_adopt(old, new);
            self.lemma_child_position(old, 0);
        }
    }

    /// Text coalescing: appending one text and then another under the same
    /// parent, with nothing in between, leaves the arena as if both had been
    /// appended as one. The second text adds no child.
    pub proof fn lemma_text_coalesces(self, p: NodeRef, a: Seq<char>, b: Seq<char>)
        requires
            self.wf(),
            self.contains(p),
            self.len < u64::MAX,
        ensures
            self.append_text(p, a).append_text(p, b) == self.append_text(p, a + b),
            self.append_text(p, a).append_text(p, b).children == self.append_text(p, a).children,
            self.append_text(p, a).text_tail(p) matches Some(l) && self.append_text(p, a).append_text(
                p,
                b,
            ).data[l] == NodeDataView::Text(self.append_text(p, a).data[l]->Text_0 + b),
    {
        let t1 = self.append_text(p, a);
        let t2 = t1.append_text(p, b);
        let whole = self.append_text(p, a + b);
        match self.text_tail(p) {
            Some(l) => {
                self.lemma_child_position(p, self.children[p].len() - 1);
                let t0 = self.data[l]->Text_0;
                assert(t1.text_tail(p) == Some(l));
                assert((t0 + a) + b =~= t0 + (a + b));
                assert(t2.data =~= whole.data);
                assert(t2 =~= whole);
            },
            None => {
                let n = self.next_ref();
                self.lemma_create(NodeDataView::Text(a));
                let c1 = self.create(NodeDataView::Text(a));
                let c2 = self.create(NodeDataView::Text(a + b));
                assert(c1.children == c2.children);
                assert(c1.ancestors == c2.ancestors);
                let s = c1.children[p];
                assert(t1.children[p] == s.insert(s.len() as int, n));
                assert(t1.children[p].last() == n);
                assert(t1.text_tail(p) == Some(n));
                assert(t2.data =~= whole.data);
                assert(t2.ancestors =~= whole.ancestors);
                assert(t2 =~= whole);
            },
        }
    }
}

/// Whether no two attributes of the list have the same key.
pub open spec fn keys_distinct(attrs: Seq<AttributeView>) -> bool {
    forall|i: int, j: int|
        0 <= i < j < attrs.len() ==> !(#[trigger] attrs[i]).name.same_key((#[trigger] attrs[j]).name)
}

/// A merge leaves the attributes that the element had where they were, with
/// the values they had: what comes in is added behind them.
pub proof fn lemma_merge_keeps_existing(existing: Seq<AttributeView>, incoming: Seq<AttributeView>)
    ensures
        existing.len() <= merge_attrs(existing, incoming).len() <= existing.len() + incoming.len(),
        merge_attrs(existing, incoming).take(existing.len() as int) == existing,
    decreases incoming.len(),
{
    if incoming.len() > 0 {
        let a = incoming.first();
        let grown = if has_key(existing, a.name) {
            existing
        } else {
            existing.push(a)
        };
        let merged = merge_attrs(grown, incoming.drop_first());
        lemma_merge_keeps_existing(grown, incoming.drop_first());
        assert(merged.take(existing.len() as int) =~= merged.take(grown.len() as int).take(
            existing.len() as int,
        ));
        assert(grown.take(existing.len() as int) =~= existing);
    } else {
        assert(existing.take(existing.len() as int) =~= existing);
    }
}

/// After a merge the element has a key exactly when it had the key before or
/// the key came in.
pub proof fn lemma_merge_keys(
    existing: Seq<AttributeView>,
    incoming: Seq<AttributeView>,
    name: QualifiedNameView,
)
    ensures
        has_key(merge_attrs(existing, incoming), name) <==> has_key(existing, name) || has_key(
            incoming,
            name,
        ),
    decreases incoming.len(),
{
    if incoming.len() > 0 {
        let a = incoming.first();
        let rest = incoming.drop_first();
        let grown = if has_key(existing, a.name) {
            existing
        } else {
            existing.push(a)
        };
        lemma_merge_keys(grown, rest, name);
        if has_key(existing, name) {
            let i = choose|i: int| 0 <= i < existing.len() && (#[trigger] existing[i]).name.same_key(name);
            assert(grown[i].name.same_key(name));
        }
        if has_key(grown, name) && !has_key(existing, name) {
            let i = choose|i: int| 0 <= i < grown.len() && (#[trigger] grown[i]).name.same_key(name);
            if i < existing.len() {
                assert(existing[i].name.same_key(name));
            }
            assert(incoming[0].name.same_key(name));
        }
        if has_key(rest, name) {
            let i = choose|i: int| 0 <= i < rest.len() && (#[trigger] rest[i]).name.same_key(name);
            assert(incoming[i + 1].name.same_key(name));
        }
        if has_key(incoming, name) {
            let i = choose|i: int| 0 <= i < incoming.len() && (#[trigger] incoming[i]).name.same_key(name);
            if i == 0 {
                if has_key(existing, a.name) {
                    let k = choose|k: int|
                        0 <= k < existing.len() && (#[trigger] existing[k]).name.same_key(a.name);
                    assert(existing[k].name.same_key(name));
                } else {
                    assert(grown[existing.len() as int].name.same_key(name));
                }
            } else {
                assert(rest[i - 1].name.same_key(name));
            }
        }
    }
}

/// First write wins: an element whose attributes have distinct keys has
/// attributes with distinct keys after a merge, whatever comes in.
pub proof fn lemma_merge_keeps_keys_distinct(
    existing: Seq<AttributeView>,
    incoming: Seq<AttributeView>,
)
    requires
        keys_distinct(existing),
    ensures
        keys_distinct(merge_attrs(existing, incoming)),
    decreases incoming.len(),
{
    if incoming.len() > 0 {
        let a = incoming.first();
        let grown = if has_key(existing, a.name) {
            existing
        } else {
            existing.push(a)
        };
        assert(keys_distinct(grown)) by {
            assert forall|i: int, j: int| 0 <= i < j < grown.len() implies !(#[trigger] grown[i]).name.same_key(
                (#[trigger] grown[j]).name,
            ) by {
                if j < existing.len() {
                    assert(!existing[i].name.same_key(existing[j].name));
                } else {
                    assert(existing[i].name.same_key(a.name) ==> has_key(existing, a.name));
                }
            }
        }
        lemma_merge_keeps_keys_distinct(grown, incoming.drop_first());
    }
}

} // verus!
