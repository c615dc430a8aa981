//! The records of an arena in their map, and the few ways in which the links
//! of records are rewritten. Nothing here knows of the shape of a tree: each
//! function says which links of which records it changes.

use crate::handle::NodeRef;
use crate::model::{seam_links, splice_links, unsplice_links};
use crate::node::{Links, Node, NodeData};
use std::collections::hash_map::Entry;
use std::collections::HashMap;
use vstd::prelude::*;
use vstd::std_specs::hash::*;

verus! {

broadcast use vstd::std_specs::hash::group_hash_axioms;

/// The links stored under a key.
pub(crate) fn links_at(nodes: &HashMap<u64, Node>, k: u64) -> (l: Links)
    requires
        nodes@.contains_key(k),
    ensures
        l == nodes@[k].links,
{
    let n = nodes.get(&k).unwrap();
    n.links
}

/// Replaces the links stored under a key; the data stays.
pub(crate) fn set_links(nodes: &mut HashMap<u64, Node>, k: u64, links: Links)
    requires
        old(nodes)@.contains_key(k),
    ensures
        final(nodes)@ == old(nodes)@.insert(k, Node { links, data: old(nodes)@[k].data }),
{
    let mut n = nodes.remove(&k).unwrap();
    n.links = links;
    nodes.insert(k, n);
}

/// Mutable access to the data stored under a key.
pub(crate) fn data_entry(nodes: &mut HashMap<u64, Node>, k: u64) -> (r: Option<&mut NodeData>)
    ensures
        match r {
            Some(data) => {
                &&& old(nodes)@.contains_key(k)
                &&& *data == old(nodes)@[k].data
                &&& final(nodes)@ == old(nodes)@.insert(
                    k,
                    Node { links: old(nodes)@[k].links, data: *final(data) },
                )
            },
            None => !old(nodes)@.contains_key(k) && final(nodes)@ == old(nodes)@,
        },
{
    match nodes.entry(k) {
        Entry::Occupied(e) => {
            let node = e.into_mut();
            Some(&mut node.data)
        },
        Entry::Vacant(_) => None,
    }
}

/// Splices the record of `c` into a chain below `p`, between `prev` and
/// `next`.
pub(crate) fn splice_in(
    nodes: &mut HashMap<u64, Node>,
    p: NodeRef,
    prev: Option<NodeRef>,
    next: Option<NodeRef>,
    c: NodeRef,
)
    requires
        old(nodes)@.contains_key(p.0),
        old(nodes)@.contains_key(c.0),
        prev matches Some(pv) ==> old(nodes)@.contains_key(pv.0) && pv != c && pv != p,
        next matches Some(nx) ==> old(nodes)@.contains_key(nx.0) && nx != c && nx != p,
        prev is Some ==> prev != next,
        c != p,
    ensures
        final(nodes)@.dom() == old(nodes)@.dom(),
        forall|k: u64| #[trigger]
            old(nodes)@.contains_key(k) ==> final(nodes)@[k] == (Node {
                links: splice_links(old(nodes)@[k].links, NodeRef(k), p, prev, next, c),
                data: old(nodes)@[k].data,
            }),
{
    let mut lc = links_at(nodes, c.0);
    lc.parent = if prev.is_none() {
        Some(p)
    } else {
        None
    };
    lc.previous_sibling = prev;
    lc.next_sibling = next;
    set_links(nodes, c.0, lc);
    match prev {
        Some(pv) => {
            let mut l = links_at(nodes, pv.0);
            l.next_sibling = Some(c);
            set_links(nodes, pv.0, l);
        },
        None => {
            let mut l = links_at(nodes, p.0);
            l.first_child = Some(c);
            set_links(nodes, p.0, l);
        },
    }
    match next {
        Some(nx) => {
            let mut l = links_at(nodes, nx.0);
            l.previous_sibling = Some(c);
            l.parent = None;
            set_links(nodes, nx.0, l);
        },
        None => {
            let mut l = links_at(nodes, p.0);
            l.last_child = Some(c);
            set_links(nodes, p.0, l);
        },
    }
}

/// Takes the record of `c` out of its chain. The parent is needed only
/// where `c` is an end of the chain.
pub(crate) fn unsplice(nodes: &mut HashMap<u64, Node>, c: NodeRef, parent: Option<NodeRef>, Ghost(p): Ghost<NodeRef>)
    requires
        old(nodes)@.contains_key(c.0),
        old(nodes)@.contains_key(p.0),
        c != p,
        old(nodes)@[c.0].links.previous_sibling is None || old(nodes)@[c.0].links.next_sibling is None
            ==> parent == Some(p),
        old(nodes)@[c.0].links.previous_sibling matches Some(pv) ==> old(nodes)@.contains_key(pv.0)
            && pv != c && pv != p,
        old(nodes)@[c.0].links.next_sibling matches Some(nx) ==> old(nodes)@.contains_key(nx.0)
            && nx != c && nx != p,
        old(nodes)@[c.0].links.previous_sibling is Some ==> old(nodes)@[c.0].links.previous_sibling
            != old(nodes)@[c.0].links.next_sibling,
    ensures
        final(nodes)@.dom() == old(nodes)@.dom(),
        forall|k: u64| #[trigger]
            old(nodes)@.contains_key(k) ==> final(nodes)@[k] == (Node {
                links: unsplice_links(
                    old(nodes)@[k].links,
                    NodeRef(k),
                    c,
                    p,
                    old(nodes)@[c.0].links,
                ),
                data: old(nodes)@[k].data,
            }),
{
    let lc = links_at(nodes, c.0);
    match lc.previous_sibling {
        Some(pv) => {
            let mut l = links_at(nodes, pv.0);
            l.next_sibling = lc.next_sibling;
            set_links(nodes, pv.0, l);
        },
        None => {
            let pr = parent.unwrap();
            let mut l = links_at(nodes, pr.0);
            l.first_child = lc.next_sibling;
            set_links(nodes, pr.0, l);
        },
    }
    match lc.next_sibling {
        Some(nx) => {
            let mut l = links_at(nodes, nx.0);
            l.previous_sibling = lc.previous_sibling;
            l.parent = lc.parent;
            set_links(nodes, nx.0, l);
        },
        None => {
            let pr = parent.unwrap();
            let mut l = links_at(nodes, pr.0);
            l.last_child = lc.previous_sibling;
            set_links(nodes, pr.0, l);
        },
    }
    let mut l = links_at(nodes, c.0);
    l.parent = None;
    l.previous_sibling = None;
    l.next_sibling = None;
    set_links(nodes, c.0, l);
}

/// Hands the chain from `first` to `last` over from `old_parent` to the end
/// of the children of `new_parent`, whose last child was `kept_last`.
pub(crate) fn seam(
    nodes: &mut HashMap<u64, Node>,
    old_parent: NodeRef,
    new_parent: NodeRef,
    first: NodeRef,
    last: NodeRef,
    kept_last: Option<NodeRef>,
)
    requires
        old(nodes)@.contains_key(old_parent.0),
        old(nodes)@.contains_key(new_parent.0),
        old(nodes)@.contains_key(first.0),
        kept_last matches Some(kl) ==> old(nodes)@.contains_key(kl.0) && kl != first && kl
            != new_parent,
        old_parent != new_parent,
        first != old_parent,
        first != new_parent,
    ensures
        final(nodes)@.dom() == old(nodes)@.dom(),
        forall|k: u64| #[trigger]
            old(nodes)@.contains_key(k) ==> final(nodes)@[k] == (Node {
                links: seam_links(
                    old(nodes)@[k].links,
                    NodeRef(k),
                    old_parent,
                    new_parent,
                    first,
                    last,
                    kept_last,
                ),
                data: old(nodes)@[k].data,
            }),
{
    let mut ln = links_at(nodes, new_parent.0);
    if kept_last.is_none() {
        ln.first_child = Some(first);
    }
    ln.last_child = Some(last);
    set_links(nodes, new_parent.0, ln);
    let mut lo = links_at(nodes, old_parent.0);
    lo.first_child = None;
    lo.last_child = None;
    set_links(nodes, old_parent.0, lo);
    let mut lf = links_at(nodes, first.0);
    lf.previous_sibling = kept_last;
    lf.parent = if kept_last.is_none() {
        Some(new_parent)
    } else {
        None
    };
    set_links(nodes, first.0, lf);
    match kept_last {
        Some(kl) => {
            let mut l = links_at(nodes, kl.0);
            l.next_sibling = Some(first);
            set_links(nodes, kl.0, l);
        },
        None => {},
    }
}

} // verus!
