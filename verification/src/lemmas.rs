//! Proofs that the operations of the model keep a tree well-formed, and of
//! what each does to the links.

use crate::handle::NodeRef;
use crate::model::Tree;
use vstd::prelude::*;

verus! {

impl Tree {
    /// A node that is not listed among the children of `p` is not a child
    /// of `p`: an orphan in particular.
    pub proof fn lemma_orphan_not_listed(self, p: NodeRef, c: NodeRef)
        requires
            self.wf(),
            self.contains(p),
            self.is_orphan(c),
        ensures
            !self.children[p].contains(c),
    {
        if self.children[p].contains(c) {
            let j = self.children[p].index_of(c);
            self.lemma_child_position(p, j);
        }
    }

    /// A child lies in the subtree of `r` exactly when it is `r` or its
    /// parent lies there.
    pub proof fn lemma_subtree_step(self, r: NodeRef, q: NodeRef, i: int)
        requires
            self.wf(),
            self.contains(q),
            0 <= i < self.children[q].len(),
        ensures
            self.ancestors[self.children[q][i]].contains(r) <==> self.in_subtree(r, q),
    {
        let c = self.children[q][i];
        self.lemma_child_position(q, i);
        let a = self.ancestors[c];
        let b = self.ancestors[q];
        assert(a == b.push(q));
        if a.contains(r) {
            let j = choose|j: int| 0 <= j < a.len() && a[j] == r;
            if j < b.len() {
                assert(b[j] == r);
            }
        }
        if self.in_subtree(r, q) {
            if q == r {
                assert(a[b.len() as int] == r);
            } else {
                let j = choose|j: int| 0 <= j < b.len() && b[j] == r;
                assert(a[j] == r);
            }
        }
    }

    /// Attaching an orphan keeps the arena well-formed, changes the links
    /// of the nodes at the seam only, and takes the node out of the orphans.
    pub proof fn lemma_attach(self, p: NodeRef, idx: int, c: NodeRef)
        requires
            self.wf(),
            self.can_attach(p, idx, c),
        ensures
            self.attach(p, idx, c).wf(),
            forall|h: NodeRef|
                self.contains(h) ==> #[trigger] self.attach(p, idx, c).links_of(h)
                    == self.attach_links(p, idx, c, h),
            forall|h: NodeRef|
                self.contains(h) ==> (#[trigger] self.attach(p, idx, c).is_orphan(h) <==> (
                self.is_orphan(h) && h != c)),
    {
        let t = self.attach(p, idx, c);
        self.lemma_attach_wf(p, idx, c);
        assert forall|h: NodeRef| self.contains(h) implies #[trigger] t.links_of(h)
            == self.attach_links(p, idx, c, h) by {
            self.lemma_attach_links(p, idx, c, h);
        }
        assert forall|h: NodeRef| self.contains(h) implies (#[trigger] t.is_orphan(h) <==> (
        self.is_orphan(h) && h != c)) by {
            if self.in_subtree(c, h) && h != c {
                assert(self.ancestors[h].len() > 0);
            }
        }
    }

    proof fn lemma_attach_wf(self, p: NodeRef, idx: int, c: NodeRef)
        requires
            self.wf(),
            self.can_attach(p, idx, c),
        ensures
            self.attach(p, idx, c).wf(),
    {
        reveal(Tree::wf);
        let t = self.attach(p, idx, c);
        let s = self.children[p];
        let s2 = s.insert(idx, c);
        let prefix = self.ancestors[p].push(p);
        self.lemma_orphan_not_listed(p, c);
        assert(s.no_duplicates());
        assert(s2.no_duplicates()) by {
            assert forall|i: int, j: int| 0 <= i < s2.len() && 0 <= j < s2.len() && i != j implies s2[i]
                != s2[j] by {
                let i0 = if i > idx { i - 1 } else { i };
                let j0 = if j > idx { j - 1 } else { j };
                if i != idx {
                    assert(s2[i] == s[i0]);
                    assert(s.contains(s[i0]));
                }
                if j != idx {
                    assert(s2[j] == s[j0]);
                    assert(s.contains(s[j0]));
                }
            }
        }
        assert forall|q: NodeRef| t.contains(q) implies (#[trigger] t.children[q]).no_duplicates() by {
            if q != p {
                assert(t.children[q] == self.children[q]);
            }
        }
        assert forall|q: NodeRef, i: int|
            t.contains(q) && 0 <= i < t.children[q].len() implies {
            let ch = #[trigger] t.children[q][i];
            t.contains(ch) && t.ancestors[ch] == t.ancestors[q].push(q)
        } by {
            let ch = t.children[q][i];
            if q == p && i == idx {
                assert(ch == c);
                assert(t.ancestors[c] =~= prefix);
                assert(t.ancestors[p] == self.ancestors[p]);
            } else {
                let i0 = if q == p && i > idx { i - 1 } else { i };
                assert(self.children[q][i0] == ch);
                self.lemma_child_position(q, i0);
                self.lemma_subtree_step(c, q, i0);
                assert(ch != c);
                if self.in_subtree(c, q) {
                    assert(t.ancestors[ch] =~= t.ancestors[q].push(q));
                }
            }
        }
        assert forall|x: NodeRef| t.contains(x) && (#[trigger] t.ancestors[x]).len() > 0 implies {
            let q = t.ancestors[x].last();
            t.contains(q) && t.children[q].contains(x)
        } by {
            if x == c {
                assert(t.ancestors[c] =~= prefix);
                assert(s2[idx] == c);
            } else {
                if self.in_subtree(c, x) {
                    assert(self.ancestors[x].len() > 0);
                }
                let q = self.ancestors[x].last();
                assert(t.ancestors[x].last() == q);
                let j = self.lemma_parent_lists_child(x);
                if q == p {
                    let j2 = if j < idx { j } else { j + 1 };
                    assert(s2[j2] == x);
                }
            }
        }
    }

    proof fn lemma_attach_links(self, p: NodeRef, idx: int, c: NodeRef, h: NodeRef)
        requires
            self.wf(),
            self.can_attach(p, idx, c),
            self.attach(p, idx, c).wf(),
            self.contains(h),
        ensures
            self.attach(p, idx, c).links_of(h) == self.attach_links(p, idx, c, h),
    {
        let t = self.attach(p, idx, c);
        let s = self.children[p];
        let s2 = s.insert(idx, c);
        self.lemma_orphan_not_listed(p, c);
        assert(t.children[p] == s2);
        assert(s2[idx] == c);
        if idx > 0 {
            self.lemma_child_position(p, idx - 1);
        }
        if idx < s.len() {
            self.lemma_child_position(p, idx);
        }
        if h != p {
            assert(t.children[h] == self.children[h]);
        }
        if h == c {
            t.lemma_child_position(p, idx);
            assert(t.ancestors[c].last() == p);
        } else if self.is_orphan(h) {
            assert(t.is_orphan(h));
            assert(!s.contains(h)) by {
                self.lemma_orphan_not_listed(p, h);
            }
        } else {
            if self.in_subtree(c, h) {
                assert(self.ancestors[h].len() > 0);
            }
            let q = self.ancestors[h].last();
            assert(t.ancestors[h].last() == q);
            let j = self.lemma_parent_lists_child(h);
            if q == p {
                let j2 = if j < idx { j } else { j + 1 };
                assert(s2[j2] == h);
                t.lemma_child_position(p, j2);
                if j2 > 0 && j2 - 1 != idx {
                    let k = if j2 - 1 < idx { j2 - 1 } else { j2 - 2 };
                    assert(s2[j2 - 1] == s[k]);
                }
                if j2 + 1 < s2.len() && j2 + 1 != idx {
                    let k = if j2 + 1 < idx { j2 + 1 } else { j2 };
                    assert(s2[j2 + 1] == s[k]);
                }
                assert(s.no_duplicates());
            } else {
                assert(t.children[q] == self.children[q]);
                assert(!s.contains(h)) by {
                    if s.contains(h) {
                        let k = s.index_of(h);
                        self.lemma_child_position(p, k);
                    }
                }
            }
        }
    }

    /// The parent of a node never lies in the node's own subtree.
    pub proof fn lemma_parent_outside_subtree(self, c: NodeRef)
        requires
            self.wf(),
            self.contains(c),
            !self.is_orphan(c),
        ensures
            !self.in_subtree(c, self.ancestors[c].last()),
    {
        let p = self.ancestors[c].last();
        let i = self.lemma_parent_lists_child(c);
        if self.ancestors[p].contains(c) {
            self.lemma_ancestor_depth(p, c);
        }
    }

    /// Detaching a node keeps the arena well-formed, changes the links of
    /// the node, its parent and its two neighbours only, and makes the node
    /// an orphan.
    pub proof fn lemma_detach(self, c: NodeRef)
        requires
            self.wf(),
            self.contains(c),
            !self.is_orphan(c),
        ensures
            self.detach(c).wf(),
            forall|h: NodeRef|
                self.contains(h) ==> #[trigger] self.detach(c).links_of(h) == self.detach_links(
                    c,
                    h,
                ),
            forall|h: NodeRef|
                self.contains(h) ==> (#[trigger] self.detach(c).is_orphan(h) <==> (self.is_orphan(
                    h,
                ) || h == c)),
    {
        let t = self.detach(c);
        self.lemma_detach_wf(c);
        assert forall|h: NodeRef| self.contains(h) implies #[trigger] t.links_of(h)
            == self.detach_links(c, h) by {
            self.lemma_detach_links(c, h);
        }
        assert forall|h: NodeRef| self.contains(h) implies (#[trigger] t.is_orphan(h) <==> (
        self.is_orphan(h) || h == c)) by {
            if h != c && self.ancestors[h].contains(c) {
                self.lemma_ancestor_depth(h, c);
            }
        }
    }

    proof fn lemma_detach_wf(self, c: NodeRef)
        requires
            self.wf(),
            self.contains(c),
            !self.is_orphan(c),
        ensures
            self.detach(c).wf(),
    {
        reveal(Tree::wf);
        let t = self.detach(c);
        let p = self.ancestors[c].last();
        let d = self.ancestors[c].len() as int;
        let s = self.children[p];
        let i = self.lemma_parent_lists_child(c);
        let s2 = s.remove(i);
        assert(t.children[p] == s2);
        assert(s.no_duplicates());
        assert(s2.no_duplicates()) by {
            assert forall|a: int, b: int| 0 <= a < s2.len() && 0 <= b < s2.len() && a != b implies s2[a]
                != s2[b] by {
                let a0 = if a >= i { a + 1 } else { a };
                let b0 = if b >= i { b + 1 } else { b };
                assert(s2[a] == s[a0]);
                assert(s2[b] == s[b0]);
            }
        }
        assert forall|q: NodeRef| t.contains(q) implies (#[trigger] t.children[q]).no_duplicates() by {
            if q != p {
                assert(t.children[q] == self.children[q]);
            }
        }
        assert forall|q: NodeRef, k: int|
            t.contains(q) && 0 <= k < t.children[q].len() implies {
            let ch = #[trigger] t.children[q][k];
            t.contains(ch) && t.ancestors[ch] == t.ancestors[q].push(q)
        } by {
            let ch = t.children[q][k];
            let k0 = if q == p && k >= i { k + 1 } else { k };
            assert(self.children[q][k0] == ch);
            self.lemma_child_position(q, k0);
            self.lemma_subtree_step(c, q, k0);
            assert(ch != c);
            if self.in_subtree(c, q) {
                if q != c {
                    self.lemma_ancestor_depth(q, c);
                }
                assert(t.ancestors[ch] =~= t.ancestors[q].push(q));
            }
        }
        assert forall|x: NodeRef| t.contains(x) && (#[trigger] t.ancestors[x]).len() > 0 implies {
            let q = t.ancestors[x].last();
            t.contains(q) && t.children[q].contains(x)
        } by {
            assert(x != c);
            let q = self.ancestors[x].last();
            let j = self.lemma_parent_lists_child(x);
            if self.in_subtree(c, x) {
                self.lemma_ancestor_depth(x, c);
                assert(t.ancestors[x].last() == q);
                assert(q != p);
                assert(t.children[q] == self.children[q]);
            } else {
                if q == p {
                    let j2 = if j < i { j } else { j - 1 };
                    assert(s2[j2] == x);
                }
            }
        }
    }

    proof fn lemma_detach_links(self, c: NodeRef, h: NodeRef)
        requires
            self.wf(),
            self.contains(c),
            !self.is_orphan(c),
            self.detach(c).wf(),
            self.contains(h),
        ensures
            self.detach(c).links_of(h) == self.detach_links(c, h),
    {
        let t = self.detach(c);
        let p = self.ancestors[c].last();
        let d = self.ancestors[c].len() as int;
        let s = self.children[p];
        let i = self.lemma_parent_lists_child(c);
        let s2 = s.remove(i);
        assert(t.children[p] == s2);
        assert(s.no_duplicates());
        self.lemma_parent_outside_subtree(c);
        if i > 0 {
            self.lemma_child_position(p, i - 1);
        }
        if i + 1 < s.len() {
            self.lemma_child_position(p, i + 1);
        }
        if h != p {
            assert(t.children[h] == self.children[h]);
        }
        if h == c {
            assert(t.is_orphan(c));
        } else if self.is_orphan(h) {
            assert(t.is_orphan(h));
            self.lemma_orphan_not_listed(p, h);
            if i > 0 {
                assert(s.contains(s[i - 1]));
            }
            if i + 1 < s.len() {
                assert(s.contains(s[i + 1]));
            }
        } else {
            let q = self.ancestors[h].last();
            let j = self.lemma_parent_lists_child(h);
            if self.in_subtree(c, h) {
                self.lemma_ancestor_depth(h, c);
                assert(t.ancestors[h].last() == q);
                assert(q != p);
                assert(t.children[q] == self.children[q]);
            } else if q == p {
                let j2 = if j < i { j } else { j - 1 };
                assert(s2[j2] == h);
                t.lemma_child_position(p, j2);
                if j2 > 0 {
                    let k = if j2 - 1 < i { j2 - 1 } else { j2 };
                    assert(s2[j2 - 1] == s[k]);
                }
                if j2 + 1 < s2.len() {
                    let k = if j2 + 1 < i { j2 + 1 } else { j2 + 2 };
                    assert(s2[j2 + 1] == s[k]);
                }
            } else {
                assert(t.children[q] == self.children[q]);
            }
        }
    }

    /// Moving the children of `old` under `new` keeps the arena
    /// well-formed, changes the links at the seam only, and changes no
    /// node's orphan state.
    pub proof fn lemma_adopt(self, old: NodeRef, new: NodeRef)
        requires
            self.wf(),
            self.can_adopt(old, new),
        ensures
            self.adopt(old, new).wf(),
            forall|h: NodeRef|
                self.contains(h) ==> #[trigger] self.adopt(old, new).links_of(h)
                    == self.adopt_links(old, new, h),
            forall|h: NodeRef|
                self.contains(h) ==> (#[trigger] self.adopt(old, new).is_orphan(h)
                    <==> self.is_orphan(h)),
    {
        let t = self.adopt(old, new);
        self.lemma_adopt_wf(old, new);
        assert forall|h: NodeRef| self.contains(h) implies #[trigger] t.links_of(h)
            == self.adopt_links(old, new, h) by {
            self.lemma_adopt_links(old, new, h);
        }
        assert forall|h: NodeRef| self.contains(h) implies (#[trigger] t.is_orphan(h)
            <==> self.is_orphan(h)) by {
            if self.ancestors[h].contains(old) {
                self.lemma_ancestor_depth(h, old);
            }
        }
    }

    /// The children of two different parents have no node in common.
    pub proof fn lemma_children_disjoint(self, a: NodeRef, b: NodeRef)
        requires
            self.wf(),
            self.contains(a),
            self.contains(b),
            a != b,
        ensures
            forall|x: NodeRef| !(self.children[a].contains(x) && self.children[b].contains(x)),
    {
        assert forall|x: NodeRef| !(self.children[a].contains(x) && self.children[b].contains(x)) by {
            if self.children[a].contains(x) && self.children[b].contains(x) {
                self.lemma_child_position(a, self.children[a].index_of(x));
                self.lemma_child_position(b, self.children[b].index_of(x));
            }
        }
    }

    proof fn lemma_adopt_wf(self, old: NodeRef, new: NodeRef)
        requires
            self.wf(),
            self.can_adopt(old, new),
        ensures
            self.adopt(old, new).wf(),
    {
        reveal(Tree::wf);
        let t = self.adopt(old, new);
        let d = self.ancestors[old].len() as int;
        let prefix = self.ancestors[new].push(new);
        let moved = self.children[old];
        let kept = self.children[new];
        let joined = kept + moved;
        assert(t.children[new] == joined);
        assert(t.children[old] == Seq::<NodeRef>::empty());
        self.lemma_children_disjoint(old, new);
        assert(joined.no_duplicates()) by {
            assert(kept.no_duplicates());
            assert(moved.no_duplicates());
            assert forall|a: int, b: int|
                0 <= a < joined.len() && 0 <= b < joined.len() && a != b implies joined[a]
                != joined[b] by {
                if a < kept.len() {
                    assert(kept.contains(joined[a]));
                } else {
                    assert(moved.contains(joined[a]));
                }
                if b < kept.len() {
                    assert(kept.contains(joined[b]));
                } else {
                    assert(moved.contains(joined[b]));
                }
            }
        }
        assert forall|q: NodeRef| t.contains(q) implies (#[trigger] t.children[q]).no_duplicates() by {
            if q != old && q != new {
                assert(t.children[q] == self.children[q]);
            }
        }
        assert forall|q: NodeRef, k: int|
            t.contains(q) && 0 <= k < t.children[q].len() implies {
            let ch = #[trigger] t.children[q][k];
            t.contains(ch) && t.ancestors[ch] == t.ancestors[q].push(q)
        } by {
            let ch = t.children[q][k];
            if q == new && k >= kept.len() {
                let k0 = k - kept.len();
                assert(ch == moved[k0]);
                self.lemma_child_position(old, k0);
                assert(self.ancestors[ch].contains(old)) by {
                    assert(self.ancestors[ch][d] == old);
                }
                assert(self.ancestors[ch].skip(d + 1) =~= Seq::<NodeRef>::empty());
                assert(t.ancestors[ch] =~= prefix);
            } else {
                assert(q != old);
                assert(self.children[q][k] == ch);
                self.lemma_child_position(q, k);
                self.lemma_subtree_step(old, q, k);
                if self.ancestors[q].contains(old) {
                    self.lemma_ancestor_depth(q, old);
                    assert(t.ancestors[ch] =~= t.ancestors[q].push(q));
                }
            }
        }
        assert forall|x: NodeRef| t.contains(x) && (#[trigger] t.ancestors[x]).len() > 0 implies {
            let q = t.ancestors[x].last();
            t.contains(q) && t.children[q].contains(x)
        } by {
            if self.ancestors[x].contains(old) {
                self.lemma_ancestor_depth(x, old);
                let q = self.ancestors[x].last();
                let j = self.lemma_parent_lists_child(x);
                if self.ancestors[x].len() == d + 1 {
                    assert(q == old);
                    assert(self.ancestors[x].skip(d + 1) =~= Seq::<NodeRef>::empty());
                    assert(t.ancestors[x] =~= prefix);
                    assert(joined[kept.len() + j] == x);
                } else {
                    assert(t.ancestors[x].last() == q);
                    assert(q != old) by {
                        if q == old {
                            self.lemma_ancestor_prefix(x, self.ancestors[x].len() - 1);
                        }
                    }
                    if q == new {
                        assert(joined[j] == x);
                    } else {
                        assert(t.children[q] == self.children[q]);
                    }
                }
            } else {
                let q = self.ancestors[x].last();
                let j = self.lemma_parent_lists_child(x);
                assert(q != old) by {
                    if q == old {
                        assert(self.ancestors[x][self.ancestors[x].len() - 1] == old);
                    }
                }
                if q == new {
                    assert(joined[j] == x);
                } else {
                    assert(t.children[q] == self.children[q]);
                }
            }
        }
    }

    proof fn lemma_adopt_links(self, old: NodeRef, new: NodeRef, h: NodeRef)
        requires
            self.wf(),
            self.can_adopt(old, new),
            self.adopt(old, new).wf(),
            self.contains(h),
        ensures
            self.adopt(old, new).links_of(h) == self.adopt_links(old, new, h),
    {
        let t = self.adopt(old, new);
        let d = self.ancestors[old].len() as int;
        let prefix = self.ancestors[new].push(new);
        let moved = self.children[old];
        let kept = self.children[new];
        let joined = kept + moved;
        assert(t.children[new] == joined);
        assert(t.children[old] == Seq::<NodeRef>::empty());
        self.lemma_children_disjoint(old, new);
        if h != old && h != new {
            assert(t.children[h] == self.children[h]);
        }
        if moved.len() > 0 {
            self.lemma_child_position(old, 0);
            assert(moved.contains(moved[0]));
        }
        if kept.len() > 0 {
            self.lemma_child_position(new, kept.len() - 1);
            assert(kept.contains(kept[kept.len() - 1]));
        }
        if self.is_orphan(h) {
            assert(t.is_orphan(h));
            self.lemma_orphan_not_listed(old, h);
            self.lemma_orphan_not_listed(new, h);
        } else {
            let q = self.ancestors[h].last();
            let j = self.lemma_parent_lists_child(h);
            if self.ancestors[h].contains(old) {
                self.lemma_ancestor_depth(h, old);
            }
            if q == old {
                assert(self.ancestors[h][d] == old);
                assert(self.ancestors[h].skip(d + 1) =~= Seq::<NodeRef>::empty());
                assert(t.ancestors[h] =~= prefix);
                assert(joined[kept.len() + j] == h);
                t.lemma_child_position(new, kept.len() + j);
                if j > 0 {
                    assert(joined[kept.len() + j - 1] == moved[j - 1]);
                }
                if j + 1 < moved.len() {
                    assert(joined[kept.len() + j + 1] == moved[j + 1]);
                }
                if j == 0 && kept.len() > 0 {
                    assert(joined[kept.len() - 1] == kept[kept.len() - 1]);
                }
                assert(moved.no_duplicates());
                assert(!kept.contains(h));
            } else {
                assert(t.ancestors[h].len() > 0 && t.ancestors[h].last() == q) by {
                    if self.ancestors[h].contains(old) {
                        if self.ancestors[h].len() == d + 1 {
                            assert(q == self.ancestors[h][d]);
                        }
                    }
                }
                assert(!moved.contains(h)) by {
                    if moved.contains(h) {
                        self.lemma_child_position(old, moved.index_of(h));
                    }
                }
                if q == new {
                    assert(joined[j] == h);
                    t.lemma_child_position(new, j);
                    if j > 0 {
                        assert(joined[j - 1] == kept[j - 1]);
                    }
                    if j + 1 < kept.len() {
                        assert(joined[j + 1] == kept[j + 1]);
                    } else if moved.len() > 0 {
                        assert(joined[j + 1] == moved[0]);
                    }
                    assert(kept.no_duplicates());
                } else {
                    assert(t.children[q] == self.children[q]);
                    assert(!kept.contains(h)) by {
                        if kept.contains(h) {
                            self.lemma_child_position(new, kept.index_of(h));
                        }
                    }
                }
            }
        }
    }

    /// A node without children is the ancestor of none, so moving its
    /// children changes nothing.
    pub proof fn lemma_adopt_nothing(self, old: NodeRef, new: NodeRef)
        requires
            self.wf(),
            self.contains(old),
            self.contains(new),
            self.children[old].len() == 0,
        ensures
            self.adopt(old, new) == self,
            !self.ancestors[new].contains(old),
    {
        reveal(Tree::wf);
        assert forall|x: NodeRef| self.contains(x) implies !(#[trigger] self.ancestors[x]).contains(
            old,
        ) by {
            if self.ancestors[x].contains(old) {
                self.lemma_ancestor_depth(x, old);
            }
        }
        if old != new {
            let t = self.adopt(old, new);
            assert(self.children[new] + self.children[old] =~= self.children[new]);
            assert(self.children[old] =~= Seq::<NodeRef>::empty());
            assert(self.children.dom().contains(old) && self.children.dom().contains(new));
            assert(t.children =~= self.children);
            assert(t.ancestors =~= self.ancestors);
        }
    }
}

} // verus!
