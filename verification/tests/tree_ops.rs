use dom_arena::{
    Attribute, ElementData, Links, Node, NodeData, NodeFactory, NodeRef, QualifiedName, TreeError,
};

const HTML: &str = "http://www.w3.org/1999/xhtml";

fn name(local: &str) -> QualifiedName {
    QualifiedName::new(None, String::from(HTML), String::from(local))
}

fn element(local: &str) -> NodeData {
    NodeData::Element(ElementData { name: name(local), attrs: Vec::new(), template_contents: None })
}

fn text(content: &str) -> NodeData {
    NodeData::Text(String::from(content))
}

fn attr(ns: &str, local: &str, value: &str) -> Attribute {
    Attribute::new(
        QualifiedName::new(None, String::from(ns), String::from(local)),
        String::from(value),
    )
}

fn kids(tree: &NodeFactory, parent: NodeRef) -> Vec<NodeRef> {
    tree.children(parent).unwrap()
}

fn links(tree: &NodeFactory, h: NodeRef) -> Links {
    let n = tree.get_node(h).unwrap();
    Links {
        parent: n.parent(),
        previous_sibling: n.previous_sibling(),
        next_sibling: n.next_sibling(),
        first_child: n.first_child(),
        last_child: n.last_child(),
    }
}

fn no_links() -> Links {
    Links {
        parent: None,
        previous_sibling: None,
        next_sibling: None,
        first_child: None,
        last_child: None,
    }
}

/// All handles of an arena: they are issued in order from the first.
fn handles(tree: &NodeFactory) -> Vec<NodeRef> {
    let mut probe = NodeFactory::new();
    let mut all = Vec::new();
    while probe.len() < tree.len() {
        all.push(probe.new_node(NodeData::DocumentFragment));
    }
    all
}

/// Checks on every node what must hold after every operation.
fn check_shape(tree: &NodeFactory) {
    let all = handles(tree);
    for &p in &all {
        let cs = kids(tree, p);
        let lp = links(tree, p);
        assert_eq!(lp.first_child, cs.first().copied());
        assert_eq!(lp.last_child, cs.last().copied());
        for (i, &c) in cs.iter().enumerate() {
            let lc = links(tree, c);
            assert_eq!(lc.parent, if i == 0 { Some(p) } else { None });
            assert_eq!(lc.previous_sibling, if i == 0 { None } else { Some(cs[i - 1]) });
            assert_eq!(lc.next_sibling, cs.get(i + 1).copied());
            assert_eq!(tree.is_orphan(c), Ok(false));
            assert_eq!(tree.parent_of(c), Ok(Some(p)));
        }
    }
    for &a in &all {
        let la = links(tree, a);
        if tree.is_orphan(a) == Ok(true) {
            assert_eq!(la.parent, None);
            assert_eq!(la.previous_sibling, None);
            assert_eq!(la.next_sibling, None);
            assert_eq!(tree.parent_of(a), Ok(None));
        }
        for &b in &all {
            let lb = links(tree, b);
            assert_eq!(la.next_sibling == Some(b), lb.previous_sibling == Some(a));
            assert_eq!(la.parent == Some(b), kids(tree, b).first() == Some(&a));
        }
        // a walk along first-child and next-sibling links never comes back
        let mut stack = vec![a];
        let mut steps = 0u64;
        while let Some(x) = stack.pop() {
            let lx = links(tree, x);
            for next in [lx.first_child, lx.next_sibling].into_iter().flatten() {
                assert_ne!(next, a);
                stack.push(next);
            }
            steps += 1;
            assert!(steps <= tree.len());
        }
    }
}

fn family(n: usize) -> (NodeFactory, NodeRef, Vec<NodeRef>) {
    let mut tree = NodeFactory::new();
    let parent = tree.new_node(element("ul"));
    let mut children = Vec::new();
    for _ in 0..n {
        let c = tree.new_node(element("li"));
        assert_eq!(tree.append(parent, c), Ok(()));
        children.push(c);
    }
    (tree, parent, children)
}

#[test]
fn new_arena_is_empty() {
    let tree = NodeFactory::new();
    assert_eq!(tree.len(), 0);
    assert!(handles(&tree).is_empty());
}

#[test]
fn new_node_is_orphan_without_links() {
    let mut tree = NodeFactory::new();
    let a = tree.new_node(text("x"));
    assert!(tree.contains(a));
    assert_eq!(tree.len(), 1);
    assert_eq!(tree.is_orphan(a), Ok(true));
    assert_eq!(links(&tree, a), no_links());
    assert_eq!(tree.get_node(a).unwrap().data(), &text("x"));
    check_shape(&tree);
}

#[test]
fn handles_are_issued_in_increasing_order() {
    let mut tree = NodeFactory::new();
    let a = tree.new_node(text("a"));
    let b = tree.new_node(text("b"));
    let c = tree.new_node(text("c"));
    assert!(a < b && b < c);
    assert_eq!((a.id(), b.id(), c.id()), (0, 1, 2));
    assert_ne!(a, b);
    assert_eq!(a, a);
}

#[test]
fn node_new_has_no_links() {
    let n = Node::new(text("t"));
    assert_eq!(n.parent(), None);
    assert_eq!(n.previous_sibling(), None);
    assert_eq!(n.next_sibling(), None);
    assert_eq!(n.first_child(), None);
    assert_eq!(n.last_child(), None);
    assert_eq!(n.as_text(), Some(&String::from("t")));
    assert_eq!(n.as_comment(), None);
    assert_eq!(n.as_element(), None);
    assert_eq!(n.as_document(), None);
    assert_eq!(n.as_doctype(), None);
}

#[test]
fn append_text_then_comment_under_div() {
    let mut tree = NodeFactory::new();
    let div = tree.new_node(element("div"));
    let hi = tree.new_node(text("hi"));
    assert_eq!(tree.append(div, hi), Ok(()));
    let c = tree.new_node(NodeData::Comment(String::from("c")));
    assert_eq!(tree.append(div, c), Ok(()));

    assert_eq!(kids(&tree, div), vec![hi, c]);
    assert_eq!(tree.get_node(hi).unwrap().as_text(), Some(&String::from("hi")));
    assert_eq!(tree.get_node(c).unwrap().as_comment(), Some(&String::from("c")));
    assert_eq!(tree.get_node(hi).unwrap().parent(), Some(div));
    assert_eq!(tree.get_node(c).unwrap().parent(), None);
    assert_eq!(tree.get_node(c).unwrap().previous_sibling(), Some(hi));
    assert_eq!(tree.get_node(hi).unwrap().next_sibling(), Some(c));
    assert_eq!(tree.get_node(div).unwrap().first_child(), Some(hi));
    assert_eq!(tree.get_node(div).unwrap().last_child(), Some(c));
    assert_eq!(tree.parent_of(c), Ok(Some(div)));
    assert_eq!(tree.is_orphan(div), Ok(true));
    check_shape(&tree);
}

#[test]
fn append_first_child_sets_both_ends() {
    let (tree, p, cs) = family(1);
    assert_eq!(
        links(&tree, p),
        Links {
            parent: None,
            previous_sibling: None,
            next_sibling: None,
            first_child: Some(cs[0]),
            last_child: Some(cs[0])
        }
    );
    assert_eq!(links(&tree, cs[0]).parent, Some(p));
}

#[test]
fn append_unknown_handle() {
    let (big, _, cs) = family(3);
    let stranger = cs[2];
    let mut tree = NodeFactory::new();
    let a = tree.new_node(element("a"));
    assert!(big.contains(stranger));
    assert!(!tree.contains(stranger));
    assert_eq!(tree.append(a, stranger), Err(TreeError::UnknownHandle));
    assert_eq!(tree.append(stranger, a), Err(TreeError::UnknownHandle));
    assert_eq!(tree.get_node(stranger).err(), Some(TreeError::UnknownHandle));
    assert_eq!(tree.get_node_mut(stranger).err(), Some(TreeError::UnknownHandle));
    assert_eq!(tree.is_orphan(stranger), Err(TreeError::UnknownHandle));
    assert_eq!(tree.parent_of(stranger), Err(TreeError::UnknownHandle));
    assert_eq!(tree.children(stranger), Err(TreeError::UnknownHandle));
    assert_eq!(tree.remove_from_parent(stranger), Err(TreeError::UnknownHandle));
    assert_eq!(tree.reparent_children(a, stranger), Err(TreeError::UnknownHandle));
    assert_eq!(tree.reparent_children(stranger, a), Err(TreeError::UnknownHandle));
    assert_eq!(tree.append_before_sibling(stranger, a), Err(TreeError::UnknownHandle));
    assert_eq!(tree.append_after_sibling(a, stranger), Err(TreeError::UnknownHandle));
    assert_eq!(tree.push_text(stranger, "x"), Err(TreeError::UnknownHandle));
    assert_eq!(tree.replace_data(stranger, text("x")), Err(TreeError::UnknownHandle));
    assert_eq!(
        tree.merge_attributes_if_missing(stranger, Vec::new()),
        Err(TreeError::UnknownHandle)
    );
    check_shape(&tree);
}

#[test]
fn append_already_attached() {
    let (mut tree, p, cs) = family(2);
    let q = tree.new_node(element("ol"));
    assert_eq!(tree.append(q, cs[0]), Err(TreeError::AlreadyAttached));
    assert_eq!(tree.append(p, cs[1]), Err(TreeError::AlreadyAttached));
    assert_eq!(kids(&tree, p), cs);
    assert_eq!(kids(&tree, q), Vec::<NodeRef>::new());
    check_shape(&tree);
}

#[test]
fn append_rejects_cycle() {
    let mut tree = NodeFactory::new();
    let a = tree.new_node(element("a"));
    let b = tree.new_node(element("b"));
    let c = tree.new_node(element("c"));
    assert_eq!(tree.append(a, b), Ok(()));
    assert_eq!(tree.append(b, c), Ok(()));
    assert_eq!(tree.append(b, a), Err(TreeError::InvariantViolation));
    assert_eq!(tree.append(c, a), Err(TreeError::InvariantViolation));
    assert_eq!(tree.append(a, a), Err(TreeError::InvariantViolation));
    assert_eq!(kids(&tree, a), vec![b]);
    assert_eq!(kids(&tree, b), vec![c]);
    assert_eq!(kids(&tree, c), Vec::<NodeRef>::new());
    check_shape(&tree);
}

#[test]
fn append_subtree_under_other_root() {
    let (mut tree, p, cs) = family(2);
    let root = tree.new_node(element("body"));
    assert_eq!(tree.append(root, p), Ok(()));
    assert_eq!(kids(&tree, root), vec![p]);
    assert_eq!(kids(&tree, p), cs);
    assert_eq!(tree.append(cs[1], root), Err(TreeError::InvariantViolation));
    check_shape(&tree);
}

#[test]
fn insert_before_first_child_moves_parent_reference() {
    let (mut tree, p, cs) = family(2);
    let n = tree.new_node(element("li"));
    assert_eq!(tree.append_before_sibling(cs[0], n), Ok(()));
    assert_eq!(kids(&tree, p), vec![n, cs[0], cs[1]]);
    assert_eq!(links(&tree, n).parent, Some(p));
    assert_eq!(links(&tree, cs[0]).parent, None);
    assert_eq!(links(&tree, cs[0]).previous_sibling, Some(n));
    assert_eq!(links(&tree, p).first_child, Some(n));
    assert_eq!(links(&tree, p).last_child, Some(cs[1]));
    assert_eq!(tree.is_orphan(n), Ok(false));
    check_shape(&tree);
}

#[test]
fn insert_before_middle_child() {
    let (mut tree, p, cs) = family(3);
    let n = tree.new_node(element("li"));
    assert_eq!(tree.append_before_sibling(cs[2], n), Ok(()));
    assert_eq!(kids(&tree, p), vec![cs[0], cs[1], n, cs[2]]);
    assert_eq!(links(&tree, n).parent, None);
    assert_eq!(links(&tree, n).previous_sibling, Some(cs[1]));
    assert_eq!(links(&tree, n).next_sibling, Some(cs[2]));
    assert_eq!(links(&tree, cs[0]).parent, Some(p));
    check_shape(&tree);
}

#[test]
fn insert_before_errors() {
    let (mut tree, p, cs) = family(2);
    let n = tree.new_node(element("x"));
    // the reference sibling is an orphan
    assert_eq!(tree.append_before_sibling(p, n), Err(TreeError::NoParent));
    assert_eq!(tree.append_before_sibling(n, n), Err(TreeError::NoParent));
    // the new node is attached already
    assert_eq!(tree.append_before_sibling(cs[0], cs[1]), Err(TreeError::AlreadyAttached));
    assert_eq!(tree.append_before_sibling(cs[0], cs[0]), Err(TreeError::AlreadyAttached));
    // the new node is an ancestor of the sibling
    assert_eq!(tree.append_before_sibling(cs[0], p), Err(TreeError::InvariantViolation));
    assert_eq!(kids(&tree, p), cs);
    assert_eq!(tree.is_orphan(n), Ok(true));
    check_shape(&tree);
}

#[test]
fn insert_after_sibling_places_node_behind() {
    let (mut tree, p, cs) = family(2);
    let m = tree.new_node(element("m"));
    let e = tree.new_node(element("e"));
    assert_eq!(tree.append_after_sibling(cs[0], m), Ok(()));
    assert_eq!(tree.append_after_sibling(cs[1], e), Ok(()));
    assert_eq!(kids(&tree, p), vec![cs[0], m, cs[1], e]);
    assert_eq!(links(&tree, p).last_child, Some(e));
    assert_eq!(tree.append_after_sibling(p, cs[0]), Err(TreeError::AlreadyAttached));
    let o = tree.new_node(element("o"));
    assert_eq!(tree.append_after_sibling(p, o), Err(TreeError::NoParent));
    assert_eq!(tree.append_after_sibling(m, p), Err(TreeError::InvariantViolation));
    check_shape(&tree);
}

#[test]
fn detach_first_child_hands_parent_reference_on() {
    let (mut tree, p, cs) = family(3);
    assert_eq!(tree.remove_from_parent(cs[0]), Ok(()));
    assert_eq!(kids(&tree, p), vec![cs[1], cs[2]]);
    assert_eq!(links(&tree, cs[1]).parent, Some(p));
    assert_eq!(links(&tree, cs[1]).previous_sibling, None);
    assert_eq!(links(&tree, p).first_child, Some(cs[1]));
    assert_eq!(links(&tree, cs[0]), no_links());
    assert_eq!(tree.is_orphan(cs[0]), Ok(true));
    check_shape(&tree);
}

#[test]
fn detach_middle_child() {
    let (mut tree, p, cs) = family(3);
    assert_eq!(tree.remove_from_parent(cs[1]), Ok(()));
    assert_eq!(kids(&tree, p), vec![cs[0], cs[2]]);
    assert_eq!(links(&tree, cs[0]).next_sibling, Some(cs[2]));
    assert_eq!(links(&tree, cs[2]).previous_sibling, Some(cs[0]));
    assert_eq!(links(&tree, cs[2]).parent, None);
    assert_eq!(tree.is_orphan(cs[1]), Ok(true));
    check_shape(&tree);
}

#[test]
fn detach_last_child() {
    let (mut tree, p, cs) = family(3);
    assert_eq!(tree.remove_from_parent(cs[2]), Ok(()));
    assert_eq!(kids(&tree, p), vec![cs[0], cs[1]]);
    assert_eq!(links(&tree, p).last_child, Some(cs[1]));
    assert_eq!(links(&tree, cs[1]).next_sibling, None);
    check_shape(&tree);
}

#[test]
fn detach_only_child_empties_parent() {
    let (mut tree, p, cs) = family(1);
    assert_eq!(tree.remove_from_parent(cs[0]), Ok(()));
    assert_eq!(kids(&tree, p), Vec::<NodeRef>::new());
    assert_eq!(links(&tree, p).first_child, None);
    assert_eq!(links(&tree, p).last_child, None);
    assert_eq!(links(&tree, cs[0]).parent, None);
    check_shape(&tree);
}

#[test]
fn detach_orphan_changes_nothing() {
    let (mut tree, p, cs) = family(2);
    assert_eq!(tree.remove_from_parent(p), Ok(()));
    assert_eq!(kids(&tree, p), cs);
    assert_eq!(tree.is_orphan(p), Ok(true));
    check_shape(&tree);
}

#[test]
fn detach_keeps_subtree_below_node() {
    let (mut tree, p, cs) = family(2);
    let root = tree.new_node(element("body"));
    assert_eq!(tree.append(root, p), Ok(()));
    assert_eq!(tree.remove_from_parent(p), Ok(()));
    assert_eq!(kids(&tree, root), Vec::<NodeRef>::new());
    assert_eq!(kids(&tree, p), cs);
    // after the detach, the former ancestor may go below
    assert_eq!(tree.append(cs[0], root), Ok(()));
    assert_eq!(kids(&tree, cs[0]), vec![root]);
    check_shape(&tree);
}

#[test]
fn detach_then_append_elsewhere_round_trip() {
    // with n inserted under p, detached and appended under q ...
    let (mut tree, p, cs) = family(2);
    let q = tree.new_node(element("ol"));
    let n = tree.new_node(element("li"));
    assert_eq!(tree.append(p, n), Ok(()));
    assert_eq!(tree.remove_from_parent(n), Ok(()));
    assert_eq!(tree.append(q, n), Ok(()));
    // ... the arena is as if n had gone under q only
    let (mut other, parent2, children2) = family(2);
    let target2 = other.new_node(element("ol"));
    let node2 = other.new_node(element("li"));
    assert_eq!(other.append(target2, node2), Ok(()));
    assert_eq!((p, &cs, q, n), (parent2, &children2, target2, node2));
    for h in handles(&tree) {
        assert_eq!(links(&tree, h), links(&other, h));
        assert_eq!(kids(&tree, h), kids(&other, h));
        assert_eq!(tree.is_orphan(h), other.is_orphan(h));
    }
    assert_eq!(kids(&tree, p), cs);
    assert_eq!(kids(&tree, q), vec![n]);
    check_shape(&tree);
}

#[test]
fn detach_after_insert_before_restores_chain() {
    let (mut tree, p, cs) = family(3);
    let before: Vec<Links> = handles(&tree).iter().map(|&h| links(&tree, h)).collect();
    let n = tree.new_node(element("li"));
    assert_eq!(tree.append_before_sibling(cs[0], n), Ok(()));
    assert_eq!(tree.remove_from_parent(n), Ok(()));
    let after: Vec<Links> = handles(&tree).iter().map(|&h| links(&tree, h)).collect();
    assert_eq!(&after[..before.len()], &before[..]);
    assert_eq!(kids(&tree, p), cs);
    check_shape(&tree);
}

#[test]
fn reparent_children_into_empty_parent() {
    let (mut tree, p, cs) = family(3);
    let q = tree.new_node(element("ol"));
    assert_eq!(tree.reparent_children(p, q), Ok(()));
    assert_eq!(kids(&tree, p), Vec::<NodeRef>::new());
    assert_eq!(kids(&tree, q), cs);
    assert_eq!(links(&tree, cs[0]).parent, Some(q));
    assert_eq!(links(&tree, cs[1]).parent, None);
    assert_eq!(links(&tree, p).first_child, None);
    assert_eq!(links(&tree, p).last_child, None);
    assert_eq!(links(&tree, q).first_child, Some(cs[0]));
    assert_eq!(links(&tree, q).last_child, Some(cs[2]));
    check_shape(&tree);
}

#[test]
fn reparent_children_appends_after_existing() {
    let (mut tree, p, cs) = family(2);
    let q = tree.new_node(element("ol"));
    let x = tree.new_node(element("x"));
    let y = tree.new_node(element("y"));
    assert_eq!(tree.append(q, x), Ok(()));
    assert_eq!(tree.append(q, y), Ok(()));
    assert_eq!(tree.reparent_children(p, q), Ok(()));
    assert_eq!(kids(&tree, q), vec![x, y, cs[0], cs[1]]);
    assert_eq!(kids(&tree, p), Vec::<NodeRef>::new());
    assert_eq!(links(&tree, cs[0]).parent, None);
    assert_eq!(links(&tree, cs[0]).previous_sibling, Some(y));
    assert_eq!(links(&tree, y).next_sibling, Some(cs[0]));
    assert_eq!(links(&tree, x).parent, Some(q));
    check_shape(&tree);
}

#[test]
fn reparent_children_up_to_own_parent() {
    // hoisting: the children of a node go up behind the node itself
    let (mut tree, p, cs) = family(2);
    let a = tree.new_node(element("a"));
    let b = tree.new_node(element("b"));
    assert_eq!(tree.append(cs[1], a), Ok(()));
    assert_eq!(tree.append(cs[1], b), Ok(()));
    assert_eq!(tree.reparent_children(cs[1], p), Ok(()));
    assert_eq!(kids(&tree, p), vec![cs[0], cs[1], a, b]);
    assert_eq!(kids(&tree, cs[1]), Vec::<NodeRef>::new());
    assert_eq!(links(&tree, cs[1]).next_sibling, Some(a));
    assert_eq!(links(&tree, a).parent, None);
    check_shape(&tree);
}

#[test]
fn reparent_children_rejects_descendant_as_new_parent() {
    let (mut tree, p, cs) = family(2);
    let g = tree.new_node(element("g"));
    assert_eq!(tree.append(cs[0], g), Ok(()));
    assert_eq!(tree.reparent_children(p, cs[1]), Err(TreeError::InvariantViolation));
    assert_eq!(tree.reparent_children(p, g), Err(TreeError::InvariantViolation));
    assert_eq!(kids(&tree, p), cs);
    assert_eq!(kids(&tree, cs[0]), vec![g]);
    check_shape(&tree);
}

#[test]
fn reparent_children_onto_itself_or_of_childless_node() {
    let (mut tree, p, cs) = family(2);
    assert_eq!(tree.reparent_children(p, p), Ok(()));
    assert_eq!(kids(&tree, p), cs);
    // a node without children has none to move, wherever the target stands
    assert_eq!(tree.reparent_children(cs[0], cs[1]), Ok(()));
    assert_eq!(kids(&tree, cs[1]), Vec::<NodeRef>::new());
    assert_eq!(kids(&tree, p), cs);
    check_shape(&tree);
}

#[test]
fn merge_attributes_first_write_wins() {
    let mut tree = NodeFactory::new();
    let e = tree.new_node(NodeData::Element(ElementData {
        name: name("a"),
        attrs: vec![attr("", "href", "old")],
        template_contents: None,
    }));
    let incoming = vec![
        attr("", "href", "new"),
        attr("", "id", "first"),
        attr("", "id", "second"),
        attr("urn:x", "href", "other-namespace"),
    ];
    assert_eq!(tree.merge_attributes_if_missing(e, incoming), Ok(()));
    let got = tree.get_node(e).unwrap().as_element().unwrap().attrs.clone();
    assert_eq!(
        got,
        vec![
            attr("", "href", "old"),
            attr("", "id", "first"),
            attr("urn:x", "href", "other-namespace")
        ]
    );
    check_shape(&tree);
}

#[test]
fn merge_attributes_ignores_prefix_in_key() {
    let mut tree = NodeFactory::new();
    let e = tree.new_node(NodeData::Element(ElementData {
        name: name("svg"),
        attrs: vec![attr("urn:x", "href", "kept")],
        template_contents: None,
    }));
    let prefixed = Attribute::new(
        QualifiedName::new(Some(String::from("xlink")), String::from("urn:x"), String::from("href")),
        String::from("dropped"),
    );
    assert_eq!(tree.merge_attributes_if_missing(e, vec![prefixed]), Ok(()));
    let got = &tree.get_node(e).unwrap().as_element().unwrap().attrs;
    assert_eq!(got, &vec![attr("urn:x", "href", "kept")]);
}

#[test]
fn merge_attributes_on_non_element() {
    let mut tree = NodeFactory::new();
    let t = tree.new_node(text("t"));
    assert_eq!(
        tree.merge_attributes_if_missing(t, vec![attr("", "id", "x")]),
        Err(TreeError::NotAnElement)
    );
    assert_eq!(tree.get_node(t).unwrap().data(), &text("t"));
}

#[test]
fn element_has_attr_and_same_key() {
    let e = ElementData {
        name: name("a"),
        attrs: vec![attr("", "href", "x")],
        template_contents: None,
    };
    assert!(e.has_attr(&QualifiedName::new(Some(String::from("p")), String::new(), String::from("href"))));
    assert!(!e.has_attr(&QualifiedName::new(None, String::from("urn:x"), String::from("href"))));
    assert!(!e.has_attr(&QualifiedName::new(None, String::new(), String::from("id"))));
    assert!(name("a").same_key(&name("a")));
    assert!(!name("a").same_key(&name("b")));
    assert_eq!(name("a").duplicate(), name("a"));
    assert_eq!(attr("n", "l", "v").duplicate(), attr("n", "l", "v"));
}

#[test]
fn push_text_extends_text_nodes_only() {
    let mut tree = NodeFactory::new();
    let t = tree.new_node(text("ab"));
    let c = tree.new_node(NodeData::Comment(String::from("ab")));
    assert_eq!(tree.push_text(t, "cd"), Ok(true));
    assert_eq!(tree.push_text(c, "cd"), Ok(false));
    assert_eq!(tree.get_node(t).unwrap().data(), &text("abcd"));
    assert_eq!(tree.get_node(c).unwrap().data(), &NodeData::Comment(String::from("ab")));
}

#[test]
fn get_node_mut_rewrites_data_and_keeps_links() {
    let (mut tree, p, cs) = family(2);
    let before = links(&tree, cs[1]);
    *tree.get_node_mut(cs[1]).unwrap() = text("now text");
    assert_eq!(tree.get_node(cs[1]).unwrap().data(), &text("now text"));
    assert_eq!(links(&tree, cs[1]), before);
    assert_eq!(kids(&tree, p), cs);
    check_shape(&tree);
}

#[test]
fn replace_data_returns_previous() {
    let mut tree = NodeFactory::new();
    let t = tree.new_node(text("old"));
    assert_eq!(tree.replace_data(t, text("new")), Ok(text("old")));
    assert_eq!(tree.get_node(t).unwrap().data(), &text("new"));
}

#[test]
fn error_messages_differ() {
    let all = [
        TreeError::UnknownHandle,
        TreeError::AlreadyAttached,
        TreeError::NoParent,
        TreeError::NotAnElement,
        TreeError::NotATemplate,
        TreeError::InvariantViolation,
    ];
    for (i, a) in all.iter().enumerate() {
        assert!(!a.message().is_empty());
        for b in &all[i + 1..] {
            assert_ne!(a.message(), b.message());
        }
    }
    assert_eq!(TreeError::UnknownHandle.message(), "unknown node handle");
}

#[test]
fn many_operations_keep_the_shape() {
    let mut tree = NodeFactory::new();
    let nodes: Vec<NodeRef> = (0..12).map(|_| tree.new_node(element("n"))).collect();
    let mut seed: u64 = 0x2545_f491_4f6c_dd1d;
    let mut pick = |n: usize| -> usize {
        seed ^= seed << 13;
        seed ^= seed >> 7;
        seed ^= seed << 17;
        (seed % n as u64) as usize
    };
    for _ in 0..400 {
        let a = nodes[pick(nodes.len())];
        let b = nodes[pick(nodes.len())];
        let _ = match pick(5) {
            0 => tree.append(a, b),
            1 => tree.append_before_sibling(a, b),
            2 => tree.append_after_sibling(a, b),
            3 => tree.remove_from_parent(a),
            _ => tree.reparent_children(a, b),
        };
        check_shape(&tree);
    }
}
