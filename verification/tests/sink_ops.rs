use dom_arena::{
    Attribute, Doctype, DocumentData, Event, Failure, NodeData, NodeOrText, NodeRef,
    QualifiedName, Sink, TreeError,
};
use html5ever::tree_builder::QuirksMode;

fn qname(local: &str) -> QualifiedName {
    QualifiedName::new(None, String::from("http://www.w3.org/1999/xhtml"), String::from(local))
}

fn new_sink() -> Sink {
    Sink::new(QuirksMode::NoQuirks)
}

fn element(sink: &mut Sink, local: &str) -> NodeRef {
    sink.create_element(qname(local), Vec::new(), false).unwrap()
}

fn node(h: NodeRef) -> NodeOrText {
    NodeOrText::AppendNode(h)
}

fn txt(s: &str) -> NodeOrText {
    NodeOrText::AppendText(String::from(s))
}

fn kids(sink: &Sink, parent: NodeRef) -> Vec<NodeRef> {
    sink.tree().children(parent).unwrap()
}

fn data(sink: &Sink, h: NodeRef) -> NodeData {
    sink.tree().get_node(h).unwrap().data().clone()
}

fn text_data(s: &str) -> NodeData {
    NodeData::Text(String::from(s))
}

#[test]
fn new_sink_holds_only_the_document() {
    let sink = new_sink();
    let doc = sink.get_document();
    assert_eq!(sink.len(), 1);
    assert_eq!(
        data(&sink, doc),
        NodeData::Document(DocumentData { _quirks_mode: QuirksMode::NoQuirks })
    );
    assert_eq!(kids(&sink, doc), Vec::<NodeRef>::new());
    assert_eq!(sink.tree().is_orphan(doc), Ok(true));
}

#[test]
fn created_nodes_are_unattached() {
    let mut sink = new_sink();
    let e = element(&mut sink, "div");
    let t = sink.create_text(String::from("t")).unwrap();
    let c = sink.create_comment(String::from("c")).unwrap();
    let p = sink.create_pi(String::from("xml"), String::from("version")).unwrap();
    for h in [e, t, c, p] {
        assert_eq!(sink.tree().is_orphan(h), Ok(true));
    }
    assert!(e < t && t < c && c < p);
    assert_eq!(data(&sink, t), text_data("t"));
    assert_eq!(data(&sink, c), NodeData::Comment(String::from("c")));
    assert_eq!(
        data(&sink, p),
        NodeData::ProcessingInstruction(String::from("xml"), String::from("version"))
    );
    assert_eq!(sink.elem_name(e), Ok(&qname("div")));
    assert_eq!(kids(&sink, sink.get_document()), Vec::<NodeRef>::new());
}

#[test]
fn text_runs_coalesce() {
    let mut sink = new_sink();
    let div = element(&mut sink, "div");
    assert_eq!(sink.append(div, txt("ab")), Ok(()));
    assert_eq!(sink.append(div, txt("cd")), Ok(()));
    let cs = kids(&sink, div);
    assert_eq!(cs.len(), 1);
    assert_eq!(data(&sink, cs[0]), text_data("abcd"));
    assert_eq!(sink.len(), 3);
}

#[test]
fn text_after_non_text_child_makes_new_node() {
    let mut sink = new_sink();
    let div = element(&mut sink, "div");
    assert_eq!(sink.append(div, txt("ab")), Ok(()));
    let br = element(&mut sink, "br");
    assert_eq!(sink.append(div, node(br)), Ok(()));
    assert_eq!(sink.append(div, txt("cd")), Ok(()));
    let cs = kids(&sink, div);
    assert_eq!(cs.len(), 3);
    assert_eq!(data(&sink, cs[0]), text_data("ab"));
    assert_eq!(cs[1], br);
    assert_eq!(data(&sink, cs[2]), text_data("cd"));
}

#[test]
fn text_joins_an_appended_text_node() {
    let mut sink = new_sink();
    let div = element(&mut sink, "div");
    let t = sink.create_text(String::from("ab")).unwrap();
    assert_eq!(sink.append(div, node(t)), Ok(()));
    assert_eq!(sink.append(div, txt("cd")), Ok(()));
    assert_eq!(kids(&sink, div), vec![t]);
    assert_eq!(data(&sink, t), text_data("abcd"));
}

#[test]
fn append_text_unknown_parent() {
    let mut big = new_sink();
    let _ = element(&mut big, "a");
    let stranger = element(&mut big, "b");
    let unknown = Err(TreeError::UnknownHandle);
    let failed = |event| Some(Failure { event, error: TreeError::UnknownHandle });

    let mut sink = new_sink();
    assert_eq!(sink.append(stranger, txt("x")), unknown);
    assert_eq!(sink.get_failure(), failed(Event::Append));
    assert_eq!(sink.len(), 1);

    let mut sink = new_sink();
    assert_eq!(sink.append_before_sibling(stranger, txt("x")), unknown);
    assert_eq!(sink.get_failure(), failed(Event::AppendBeforeSibling));

    let mut sink = new_sink();
    let doc = sink.get_document();
    assert_eq!(sink.append_based_on_parent_node(stranger, doc, txt("x")), unknown);
    assert_eq!(sink.get_failure(), failed(Event::AppendBasedOnParentNode));

    let mut sink = new_sink();
    assert_eq!(sink.get_template_contents(stranger), Err(TreeError::UnknownHandle));
    assert_eq!(sink.get_failure(), failed(Event::GetTemplateContents));

    let mut sink = new_sink();
    assert_eq!(sink.add_attrs_if_missing(stranger, Vec::new()), unknown);
    assert_eq!(sink.get_failure(), failed(Event::AddAttrsIfMissing));

    let mut sink = new_sink();
    assert_eq!(sink.remove_from_parent(stranger), unknown);
    assert_eq!(sink.get_failure(), failed(Event::RemoveFromParent));

    let mut sink = new_sink();
    assert_eq!(sink.reparent_children(doc, stranger), unknown);
    assert_eq!(sink.get_failure(), failed(Event::ReparentChildren));

    let sink = new_sink();
    assert_eq!(sink.elem_name(stranger), Err(TreeError::UnknownHandle));
    assert_eq!(sink.get_failure(), None);
    assert_eq!(sink.len(), 1);
}

fn pair() -> (Sink, NodeRef, NodeRef, NodeRef) {
    let mut sink = new_sink();
    let a = element(&mut sink, "a");
    let b = element(&mut sink, "b");
    let c = element(&mut sink, "c");
    assert_eq!(sink.append(a, node(b)), Ok(()));
    (sink, a, b, c)
}

#[test]
fn append_node_errors_pass_through() {
    let (mut sink, a, b, _) = pair();
    assert_eq!(sink.append(a, node(b)), Err(TreeError::AlreadyAttached));
    assert_eq!(kids(&sink, a), vec![b]);
    let (mut sink, a, b, _) = pair();
    assert_eq!(sink.append(b, node(a)), Err(TreeError::InvariantViolation));
    let (mut sink, a, b, _) = pair();
    assert_eq!(sink.append_before_sibling(a, node(b)), Err(TreeError::AlreadyAttached));
    let (mut sink, a, _, c) = pair();
    assert_eq!(sink.append_before_sibling(a, node(c)), Err(TreeError::NoParent));
    let (mut sink, a, b, _) = pair();
    assert_eq!(sink.append_before_sibling(a, txt("x")), Err(TreeError::NoParent));
    assert_eq!(sink.len(), 4);
    assert_eq!(kids(&sink, a), vec![b]);
}

#[test]
fn first_refusal_ends_the_session() {
    let (mut sink, a, b, c) = pair();
    assert_eq!(sink.get_failure(), None);
    assert_eq!(sink.append(b, node(a)), Err(TreeError::InvariantViolation));
    let failure = Failure { event: Event::Append, error: TreeError::InvariantViolation };
    assert_eq!(sink.get_failure(), Some(failure));
    // every later event is refused with the same error and changes nothing
    let refused = Err(TreeError::InvariantViolation);
    assert_eq!(sink.append(a, node(c)), refused);
    assert_eq!(sink.append(a, txt("x")), refused);
    assert_eq!(sink.append_before_sibling(b, node(c)), refused);
    assert_eq!(sink.append_based_on_parent_node(b, a, node(c)), refused);
    assert_eq!(sink.remove_from_parent(b), refused);
    assert_eq!(sink.reparent_children(a, c), refused);
    assert_eq!(sink.add_attrs_if_missing(a, Vec::new()), refused);
    assert_eq!(sink.set_quirks_mode(QuirksMode::Quirks), refused);
    assert_eq!(
        sink.append_doctype_to_document(String::new(), String::new(), String::new()),
        refused
    );
    assert_eq!(sink.create_element(qname("d"), Vec::new(), true), Err(TreeError::InvariantViolation));
    assert_eq!(sink.create_text(String::new()), Err(TreeError::InvariantViolation));
    assert_eq!(sink.create_comment(String::new()), Err(TreeError::InvariantViolation));
    assert_eq!(sink.create_pi(String::new(), String::new()), Err(TreeError::InvariantViolation));
    assert_eq!(sink.get_template_contents(a), Err(TreeError::InvariantViolation));
    assert_eq!(sink.get_failure(), Some(failure));
    assert_eq!(sink.len(), 4);
    assert_eq!(kids(&sink, a), vec![b]);
    assert_eq!(kids(&sink, sink.get_document()), Vec::<NodeRef>::new());
    assert_eq!(
        data(&sink, sink.get_document()),
        NodeData::Document(DocumentData { _quirks_mode: QuirksMode::NoQuirks })
    );
    assert_eq!(sink.finish().err(), Some(failure));
}

#[test]
fn text_before_sibling_joins_previous_text() {
    let mut sink = new_sink();
    let div = element(&mut sink, "div");
    assert_eq!(sink.append(div, txt("ab")), Ok(()));
    let b = element(&mut sink, "b");
    assert_eq!(sink.append(div, node(b)), Ok(()));
    assert_eq!(sink.append_before_sibling(b, txt("cd")), Ok(()));
    let cs = kids(&sink, div);
    assert_eq!(cs.len(), 2);
    assert_eq!(data(&sink, cs[0]), text_data("abcd"));
    assert_eq!(cs[1], b);
}

#[test]
fn text_before_first_sibling_makes_new_node() {
    let mut sink = new_sink();
    let div = element(&mut sink, "div");
    let b = element(&mut sink, "b");
    assert_eq!(sink.append(div, node(b)), Ok(()));
    assert_eq!(sink.append_before_sibling(b, txt("x")), Ok(()));
    let cs = kids(&sink, div);
    assert_eq!(cs.len(), 2);
    assert_eq!(data(&sink, cs[0]), text_data("x"));
    assert_eq!(cs[1], b);
    assert_eq!(sink.tree().get_node(cs[0]).unwrap().parent(), Some(div));
    assert_eq!(sink.tree().get_node(b).unwrap().parent(), None);
    // text does not join the text behind it
    assert_eq!(sink.append_before_sibling(cs[0], txt("y")), Ok(()));
    let cs = kids(&sink, div);
    assert_eq!(cs.len(), 3);
    assert_eq!(data(&sink, cs[0]), text_data("y"));
    assert_eq!(data(&sink, cs[1]), text_data("x"));
}

#[test]
fn node_before_sibling() {
    let mut sink = new_sink();
    let div = element(&mut sink, "div");
    let a = element(&mut sink, "a");
    let b = element(&mut sink, "b");
    assert_eq!(sink.append(div, node(b)), Ok(()));
    assert_eq!(sink.append_before_sibling(b, node(a)), Ok(()));
    assert_eq!(kids(&sink, div), vec![a, b]);
}

#[test]
fn foster_parenting_picks_by_orphan_state() {
    let mut sink = new_sink();
    let body = element(&mut sink, "body");
    let table = element(&mut sink, "table");
    let prev = element(&mut sink, "div");
    assert_eq!(sink.append(body, node(prev)), Ok(()));
    // the table is not in the tree yet: the child goes into the previous element
    let x = element(&mut sink, "x");
    assert_eq!(sink.append_based_on_parent_node(table, prev, node(x)), Ok(()));
    assert_eq!(kids(&sink, prev), vec![x]);
    // once the table has a parent, the child goes before the table
    assert_eq!(sink.append(body, node(table)), Ok(()));
    let y = element(&mut sink, "y");
    assert_eq!(sink.append_based_on_parent_node(table, prev, node(y)), Ok(()));
    assert_eq!(kids(&sink, body), vec![prev, y, table]);
    assert_eq!(sink.append_based_on_parent_node(table, prev, txt("t")), Ok(()));
    let cs = kids(&sink, body);
    assert_eq!(cs.len(), 4);
    assert_eq!(data(&sink, cs[2]), text_data("t"));
    assert_eq!(cs[3], table);
}

#[test]
fn doctype_goes_under_the_document() {
    let mut sink = new_sink();
    assert_eq!(
        sink.append_doctype_to_document(
            String::from("html"),
            String::from("pub"),
            String::from("sys")
        ),
        Ok(())
    );
    let doc = sink.get_document();
    let cs = kids(&sink, doc);
    assert_eq!(cs.len(), 1);
    assert_eq!(
        data(&sink, cs[0]),
        NodeData::Doctype(Doctype {
            name: String::from("html"),
            public_id: String::from("pub"),
            system_id: String::from("sys"),
        })
    );
    assert_eq!(sink.tree().get_node(cs[0]).unwrap().parent(), Some(doc));
    assert_eq!(
        sink.tree().get_node(cs[0]).unwrap().as_doctype().map(|d| d.name.as_str()),
        Some("html")
    );
}

#[test]
fn attributes_merge_if_missing() {
    let mut sink = new_sink();
    let a = |l: &str, v: &str| {
        Attribute::new(QualifiedName::new(None, String::new(), String::from(l)), String::from(v))
    };
    let e = sink.create_element(qname("a"), vec![a("href", "1"), a("id", "2")], false).unwrap();
    assert_eq!(sink.add_attrs_if_missing(e, vec![a("id", "3"), a("class", "4")]), Ok(()));
    let got = sink.tree().get_node(e).unwrap().as_element().unwrap().attrs.clone();
    assert_eq!(got, vec![a("href", "1"), a("id", "2"), a("class", "4")]);
    let doc = sink.get_document();
    assert_eq!(sink.add_attrs_if_missing(doc, vec![a("id", "3")]), Err(TreeError::NotAnElement));
    assert_eq!(
        sink.get_failure(),
        Some(Failure { event: Event::AddAttrsIfMissing, error: TreeError::NotAnElement })
    );
}

#[test]
fn remove_and_reparent() {
    let mut sink = new_sink();
    let p = element(&mut sink, "p");
    let q = element(&mut sink, "q");
    let a = element(&mut sink, "a");
    let b = element(&mut sink, "b");
    let c = element(&mut sink, "c");
    for h in [a, b, c] {
        assert_eq!(sink.append(p, node(h)), Ok(()));
    }
    assert_eq!(sink.reparent_children(p, q), Ok(()));
    assert_eq!(kids(&sink, p), Vec::<NodeRef>::new());
    assert_eq!(kids(&sink, q), vec![a, b, c]);
    assert_eq!(sink.tree().get_node(a).unwrap().parent(), Some(q));
    assert_eq!(sink.remove_from_parent(b), Ok(()));
    assert_eq!(kids(&sink, q), vec![a, c]);
    assert_eq!(sink.tree().is_orphan(b), Ok(true));
    assert_eq!(sink.remove_from_parent(b), Ok(()));
    assert_eq!(sink.reparent_children(q, a), Err(TreeError::InvariantViolation));
    assert_eq!(
        sink.get_failure(),
        Some(Failure { event: Event::ReparentChildren, error: TreeError::InvariantViolation })
    );
}

#[test]
fn template_contents() {
    let mut sink = new_sink();
    let plain = element(&mut sink, "div");
    let template = sink.create_element(qname("template"), Vec::new(), true).unwrap();
    let contents = sink.get_template_contents(template).unwrap();
    assert_ne!(contents, template);
    assert!(contents < template);
    assert_eq!(data(&sink, contents), NodeData::DocumentFragment);
    assert_eq!(sink.tree().is_orphan(contents), Ok(true));
    assert_eq!(sink.tree().is_orphan(template), Ok(true));
    assert_eq!(sink.elem_name(contents), Err(TreeError::NotAnElement));
    // the contents take children like any other node
    assert_eq!(sink.append(contents, txt("inside")), Ok(()));
    assert_eq!(kids(&sink, contents).len(), 1);
    assert_eq!(kids(&sink, template), Vec::<NodeRef>::new());
    assert_eq!(sink.get_failure(), None);
    assert_eq!(sink.get_template_contents(plain), Err(TreeError::NotATemplate));
    assert_eq!(
        sink.get_failure(),
        Some(Failure { event: Event::GetTemplateContents, error: TreeError::NotATemplate })
    );
}

#[test]
fn template_contents_of_non_element() {
    let mut sink = new_sink();
    let doc = sink.get_document();
    assert_eq!(sink.get_template_contents(doc), Err(TreeError::NotAnElement));
    assert_eq!(
        sink.finish().err(),
        Some(Failure { event: Event::GetTemplateContents, error: TreeError::NotAnElement })
    );
}

#[test]
fn quirks_mode_is_stored() {
    let mut sink = new_sink();
    assert_eq!(sink.set_quirks_mode(QuirksMode::Quirks), Ok(()));
    let doc = sink.get_document();
    assert_eq!(
        sink.tree().get_node(doc).unwrap().as_document().map(|d| d.quirks_mode()),
        Some(QuirksMode::Quirks)
    );
    assert_eq!(sink.set_quirks_mode(QuirksMode::LimitedQuirks), Ok(()));
    assert_eq!(
        data(&sink, doc),
        NodeData::Document(DocumentData { _quirks_mode: QuirksMode::LimitedQuirks })
    );
    assert_eq!(kids(&sink, doc), Vec::<NodeRef>::new());
}

#[test]
fn document_data_clone_keeps_mode() {
    let d = DocumentData { _quirks_mode: QuirksMode::LimitedQuirks };
    let copy = d.clone();
    assert_eq!(copy.quirks_mode(), QuirksMode::LimitedQuirks);
    assert_ne!(copy.quirks_mode(), QuirksMode::Quirks);
    let n = NodeData::Document(d);
    assert_eq!(n.clone(), n);
}

#[test]
fn same_node_is_identity() {
    let mut sink = new_sink();
    let a = sink.create_text(String::from("same")).unwrap();
    let b = sink.create_text(String::from("same")).unwrap();
    assert!(sink.same_node(a, a));
    assert!(!sink.same_node(a, b));
}

#[test]
fn finish_hands_out_the_tree() {
    let mut sink = new_sink();
    let doc = sink.get_document();
    let html = element(&mut sink, "html");
    assert_eq!(sink.append(doc, node(html)), Ok(()));
    assert_eq!(sink.append(html, txt("hi")), Ok(()));
    let (tree, root) = sink.finish().ok().unwrap();
    assert_eq!(root, doc);
    assert_eq!(tree.children(root), Ok(vec![html]));
    let cs = tree.children(html).unwrap();
    assert_eq!(tree.get_node(cs[0]).unwrap().as_text().map(|s| s.as_str()), Some("hi"));
    assert_eq!(tree.len(), 3);
}
