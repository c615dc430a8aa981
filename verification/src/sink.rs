//! The adapter between a parser's structural events and the arena.

use crate::error::TreeError;
use crate::handle::NodeRef;
use crate::model::{last_of, Tree};
use crate::node::{
    attrs_view, Attribute, Doctype, DoctypeView, DocumentData, ElementData, ElementDataView,
    NodeData, NodeDataView, QualifiedName,
};
use crate::tree::NodeFactory;
use html5ever::tree_builder::QuirksMode;
use vstd::prelude::*;

verus! {

/// What the parser hands over to be placed in the tree: a node that exists
/// already, or text.
#[derive(Debug, Clone, PartialEq)]
pub enum NodeOrText {
    AppendNode(NodeRef),
    AppendText(String),
}

impl Tree {
    /// The node that new text under `p` is joined to: the last child of
    /// `p`, where that is a text node.
    pub open spec fn text_tail(self, p: NodeRef) -> Option<NodeRef> {
        match last_of(self.children[p]) {
            Some(l) => if self.data[l] is Text {
                Some(l)
            } else {
                None
            },
            None => None,
        }
    }

    /// The arena after `text` was appended under `p`: joined to the text
    /// node that ends the children of `p`, or else as a new text node behind
    /// them.
    pub open spec fn append_text(self, p: NodeRef, text: Seq<char>) -> Tree {
        match self.text_tail(p) {
            Some(l) => self.extend_text(l, text),
            None => self.create(NodeDataView::Text(text)).append(p, self.next_ref()),
        }
    }

    /// The node that new text before `s` is joined to: the previous sibling
    /// of `s`, where that is a text node.
    pub open spec fn text_before(self, s: NodeRef) -> Option<NodeRef> {
        match self.links_of(s).previous_sibling {
            Some(l) => if self.data[l] is Text {
                Some(l)
            } else {
                None
            },
            None => None,
        }
    }

    /// The arena after `text` was inserted before the attached node `s`:
    /// joined to the text node that precedes `s`, or else as a new text node
    /// between the two.
    pub open spec fn insert_text_before(self, s: NodeRef, text: Seq<char>) -> Tree {
        match self.text_before(s) {
            Some(l) => self.extend_text(l, text),
            None => self.create(NodeDataView::Text(text)).insert_before(s, self.next_ref()),
        }
    }

    /// The outcome of appending text under `p`.
    pub open spec fn check_append_text(self, p: NodeRef) -> Result<(), TreeError> {
        if self.contains(p) {
            Ok(())
        } else {
            Err(TreeError::UnknownHandle)
        }
    }

    /// The outcome of inserting text before `s`.
    pub open spec fn check_insert_text(self, s: NodeRef) -> Result<(), TreeError> {
        if !self.contains(s) {
            Err(TreeError::UnknownHandle)
        } else if self.is_orphan(s) {
            Err(TreeError::NoParent)
        } else {
            Ok(())
        }
    }

    /// The outcome of placing `child` as the last child of `p`.
    pub open spec fn check_append_child(self, p: NodeRef, child: NodeOrText) -> Result<
        (),
        TreeError,
    > {
        match child {
            NodeOrText::AppendNode(c) => self.check_append(p, c),
            NodeOrText::AppendText(_) => self.check_append_text(p),
        }
    }

    /// The arena after `child` was placed as the last child of `p`.
    pub open spec fn append_child(self, p: NodeRef, child: NodeOrText) -> Tree {
        match child {
            NodeOrText::AppendNode(c) => self.append(p, c),
            NodeOrText::AppendText(text) => self.append_text(p, text@),
        }
    }

    /// The outcome of placing `child` immediately before `s`.
    pub open spec fn check_insert_child(self, s: NodeRef, child: NodeOrText) -> Result<
        (),
        TreeError,
    > {
        match child {
            NodeOrText::AppendNode(c) => self.check_insert(s, c),
            NodeOrText::AppendText(_) => self.check_insert_text(s),
        }
    }

    /// The arena after `child` was placed immediately before `s`.
    pub open spec fn insert_child_before(self, s: NodeRef, child: NodeOrText) -> Tree {
        match child {
            NodeOrText::AppendNode(c) => self.insert_before(s, c),
            NodeOrText::AppendText(text) => self.insert_text_before(s, text@),
        }
    }

    /// The outcome of placing `child` before `element` where `element` has
    /// a parent, and else as the last child of `prev`.
    pub open spec fn check_foster(self, element: NodeRef, prev: NodeRef, child: NodeOrText) -> Result<
        (),
        TreeError,
    > {
        if !self.contains(element) {
            Err(TreeError::UnknownHandle)
        } else if self.is_orphan(element) {
            self.check_append_child(prev, child)
        } else {
            self.check_insert_child(element, child)
        }
    }

    /// The arena after `child` was placed before `element` where `element`
    /// has a parent, and else as the last child of `prev`.
    pub open spec fn foster(self, element: NodeRef, prev: NodeRef, child: NodeOrText) -> Tree {
        if self.is_orphan(element) {
            self.append_child(prev, child)
        } else {
            self.insert_child_before(element, child)
        }
    }

    /// The arena after an element was created. A template element comes
    /// with a document fragment of its own, created just before it, as the
    /// root of its contents.
    pub open spec fn create_element(
        self,
        name: QualifiedName,
        attrs: Seq<Attribute>,
        template: bool,
    ) -> Tree {
        if template {
            self.create(NodeDataView::DocumentFragment).create(
                NodeDataView::Element(
                    ElementDataView {
                        name: name@,
                        attrs: attrs_view(attrs),
                        template_contents: Some(self.next_ref()),
                    },
                ),
            )
        } else {
            self.create(
                NodeDataView::Element(
                    ElementDataView {
                        name: name@,
                        attrs: attrs_view(attrs),
                        template_contents: None,
                    },
                ),
            )
        }
    }

    /// The handle of the element that `create_element` makes.
    pub open spec fn created_element(self, template: bool) -> NodeRef {
        if template {
            NodeRef::at(self.len + 1)
        } else {
            self.next_ref()
        }
    }

    /// The template contents of `h`, or why it has none.
    pub open spec fn template_contents(self, h: NodeRef) -> Result<NodeRef, TreeError> {
        if !self.contains(h) {
            Err(TreeError::UnknownHandle)
        } else {
            match self.data[h] {
                NodeDataView::Element(e) => match e.template_contents {
                    Some(contents) => Ok(contents),
                    None => Err(TreeError::NotATemplate),
                },
                _ => Err(TreeError::NotAnElement),
            }
        }
    }
}

/// The structural events that the arena may refuse.
#[derive(Debug, Clone, Copy, PartialEq, Eq, Structural)]
pub enum Event {
    Append,
    AppendBeforeSibling,
    AppendBasedOnParentNode,
    AddAttrsIfMissing,
    RemoveFromParent,
    ReparentChildren,
    GetTemplateContents,
}

/// The event that ended a session, and why the arena refused it.
#[derive(Debug, Clone, Copy, PartialEq, Eq, Structural)]
pub struct Failure {
    pub event: Event,
    pub error: TreeError,
}

/// Receives the structural events of a parser and carries each out on the
/// arena it owns. The arena alone knows which nodes are orphans.
///
/// The first event that the arena refuses ends the session: the sink keeps
/// it as its failure, refuses every later event with the same error and
/// leaves the tree as it was before the refused event.
pub struct Sink {
    node_tree: NodeFactory,
    document: NodeRef,
    failure: Option<Failure>,
}

impl View for Sink {
    type V = Tree;

    closed spec fn view(&self) -> Tree {
        self.node_tree@
    }
}

impl Sink {
    /// The handle of the document node.
    pub closed spec fn document(&self) -> NodeRef {
        self.document
    }

    /// The refused event that ended the session, if one did.
    pub closed spec fn failure(&self) -> Option<Failure> {
        self.failure
    }

    /// What an event returns whose outcome on a running session is
    /// `outcome`: after a failure, the error of that failure.
    pub open spec fn gate<T>(&self, outcome: Result<T, TreeError>) -> Result<T, TreeError> {
        match self.failure() {
            Some(f) => Err(f.error),
            None => outcome,
        }
    }

    /// The failure of the session after an event with the given outcome:
    /// the first refusal stays.
    pub open spec fn failure_after<T>(&self, event: Event, outcome: Result<T, TreeError>) -> Option<
        Failure,
    > {
        match self.failure() {
            Some(f) => Some(f),
            None => match outcome {
                Ok(_) => None,
                Err(error) => Some(Failure { event, error }),
            },
        }
    }

    /// The invariant of the sink: its arena is well-formed and the document
    /// handle addresses a document node.
    pub closed spec fn wf(&self) -> bool {
        &&& self.node_tree.wf()
        &&& self@.contains(self.document)
        &&& self@.data[self.document] is Document
    }

    /// What the invariant says of the tree.
    pub proof fn lemma_wf(&self)
        requires
            self.wf(),
        ensures
            self@.wf(),
            self@.contains(self.document()),
            self@.data[self.document()] is Document,
    {
        self.node_tree.lemma_wf();
    }

    /// A sink whose arena holds the document node and nothing else.
    pub fn new(quirks_mode: QuirksMode) -> (sink: Sink)
        ensures
            sink.wf(),
            sink.failure() is None,
            sink@ == Tree::empty().create(NodeDataView::Document(quirks_mode)),
            sink.document() == Tree::empty().next_ref(),
    {
        let mut node_tree = NodeFactory::new();
        let document = node_tree.new_node(
            NodeData::Document(DocumentData { _quirks_mode: quirks_mode }),
        );
        Sink { node_tree, document, failure: None }
    }

    /// The arena, for reading.
    pub fn tree(&self) -> (tree: &NodeFactory)
        requires
            self.wf(),
        ensures
            tree.wf(),
            tree@ == self@,
    {
        &self.node_tree
    }

    /// The number of handles issued so far.
    pub fn len(&self) -> (n: u64)
        ensures
            n == self@.len,
    {
        self.node_tree.len()
    }

    /// The refused event that ended the session, if one did.
    pub fn get_failure(&self) -> (failure: Option<Failure>)
        ensures
            failure == self.failure(),
    {
        self.failure
    }

    /// Ends the session. A session that no refusal ended hands out the
    /// arena with the handle of its document node; another one says which
    /// event was refused, and why.
    pub fn finish(self) -> (r: Result<(NodeFactory, NodeRef), Failure>)
        requires
            self.wf(),
        ensures
            match r {
                Ok(done) => self.failure() is None && done.0.wf() && done.0@ == self@ && done.1
                    == self.document(),
                Err(f) => self.failure() == Some(f),
            },
    {
        match self.failure {
            Some(f) => Err(f),
            None => Ok((self.node_tree, self.document)),
        }
    }

    /// The handle of the document node.
    pub fn get_document(&self) -> (document: NodeRef)
        ensures
            document == self.document(),
    {
        self.document
    }

    /// Whether two handles address the same node.
    pub fn same_node(&self, x: NodeRef, y: NodeRef) -> (same: bool)
        ensures
            same == (x == y),
    {
        x == y
    }

    /// Keeps the first refusal as the failure of the session.
    fn settle<T>(&mut self, event: Event, outcome: &Result<T, TreeError>)
        requires
            old(self).failure() is None,
        ensures
            final(self).node_tree == old(self).node_tree,
            final(self).document == old(self).document,
            final(self).failure() == old(self).failure_after(event, *outcome),
    {
        match outcome {
            Ok(_) => {},
            Err(error) => {
                self.failure = Some(Failure { event, error: *error });
            },
        }
    }

    /// Creates a node with the given data; it is attached nowhere.
    fn create(&mut self, data: NodeData) -> (r: Result<NodeRef, TreeError>)
        requires
            old(self).wf(),
            old(self)@.len < u64::MAX,
        ensures
            final(self).wf(),
            final(self).document() == old(self).document(),
            final(self).failure() == old(self).failure(),
            r == old(self).gate(Ok::<NodeRef, TreeError>(old(self)@.next_ref())),
            r is Ok ==> final(self)@ == old(self)@.create(data@),
            r is Err ==> final(self)@ == old(self)@,
    {
        match self.failure {
            Some(f) => Err(f.error),
            None => Ok(self.node_tree.new_node(data)),
        }
    }

    /// Creates an element; it is attached nowhere. A template element
    /// receives a document fragment as the root of its contents.
    pub fn create_element(&mut self, name: QualifiedName, attrs: Vec<Attribute>, template: bool) -> (r:
        Result<NodeRef, TreeError>)
        requires
            old(self).wf(),
            old(self)@.len + 2 <= u64::MAX,
        ensures
            final(self).wf(),
            final(self).document() == old(self).document(),
            final(self).failure() == old(self).failure(),
            r == old(self).gate(Ok::<NodeRef, TreeError>(old(self)@.created_element(template))),
            r is Ok ==> final(self)@ == old(self)@.create_element(name, attrs@, template),
            r is Err ==> final(self)@ == old(self)@,
    {
        match self.failure {
            Some(f) => Err(f.error),
            None => {
                let template_contents = if template {
                    Some(self.node_tree.new_node(NodeData::DocumentFragment))
                } else {
                    None
                };
                Ok(
                    self.node_tree.new_node(
                        NodeData::Element(ElementData { name, attrs, template_contents }),
                    ),
                )
            },
        }
    }

    /// Creates a text node; it is attached nowhere.
    pub fn create_text(&mut self, text: String) -> (r: Result<NodeRef, TreeError>)
        requires
            old(self).wf(),
            old(self)@.len < u64::MAX,
        ensures
            final(self).wf(),
            final(self).document() == old(self).document(),
            final(self).failure() == old(self).failure(),
            r == old(self).gate(Ok::<NodeRef, TreeError>(old(self)@.next_ref())),
            r is Ok ==> final(self)@ == old(self)@.create(NodeDataView::Text(text@)),
            r is Err ==> final(self)@ == old(self)@,
    {
        self.create(NodeData::Text(text))
    }

    /// Creates a comment node; it is attached nowhere.
    pub fn create_comment(&mut self, text: String) -> (r: Result<NodeRef, TreeError>)
        requires
            old(self).wf(),
            old(self)@.len < u64::MAX,
        ensures
            final(self).wf(),
            final(self).document() == old(self).document(),
            final(self).failure() == old(self).failure(),
            r == old(self).gate(Ok::<NodeRef, TreeError>(old(self)@.next_ref())),
            r is Ok ==> final(self)@ == old(self)@.create(NodeDataView::Comment(text@)),
            r is Err ==> final(self)@ == old(self)@,
    {
        self.create(NodeData::Comment(text))
    }

    /// Creates a processing instruction node; it is attached nowhere.
    pub fn create_pi(&mut self, target: String, data: String) -> (r: Result<NodeRef, TreeError>)
        requires
            old(self).wf(),
            old(self)@.len < u64::MAX,
        ensures
            final(self).wf(),
            final(self).document() == old(self).document(),
            final(self).failure() == old(self).failure(),
            r == old(self).gate(Ok::<NodeRef, TreeError>(old(self)@.next_ref())),
            r is Ok ==> final(self)@ == old(self)@.create(
                NodeDataView::ProcessingInstruction(target@, data@),
            ),
            r is Err ==> final(self)@ == old(self)@,
    {
        self.create(NodeData::ProcessingInstruction(target, data))
    }

    /// Appends text under `parent`, joining it to a text node that ends the
    /// children of `parent`.
    fn append_text(&mut self, parent: NodeRef, text: String) -> (r: Result<(), TreeError>)
        requires
            old(self).wf(),
            old(self)@.len < u64::MAX,
        ensures
            final(self).wf(),
            final(self).document == old(self).document,
            final(self).failure == old(self).failure,
            r == old(self)@.check_append_text(parent),
            r is Ok ==> final(self)@ == old(self)@.append_text(parent, text@),
            r is Err ==> final(self)@ == old(self)@,
    {
        let ghost t = self@;
        let last = match self.node_tree.get_node(parent) {
            Err(e) => {
                return Err(e);
            },
            Ok(node) => node.last_child(),
        };
        proof {
            self.node_tree.lemma_wf();
            if t.children[parent].len() > 0 {
                t.lemma_child_position(parent, t.children[parent].len() - 1);
            }
        }
        let joined = match last {
            Some(l) => match self.node_tree.push_text(l, text.as_str()) {
                Ok(extended) => extended,
                Err(_) => false,
            },
            None => false,
        };
        if !joined {
            let node = self.node_tree.new_node(NodeData::Text(text));
            proof {
                t.lemma_create(NodeDataView::Text(text@));
                let t1 = t.create(NodeDataView::Text(text@));
                if t1.ancestors[parent].contains(node) {
                    t1.lemma_ancestor_depth(parent, node);
                }
            }
            let r = self.node_tree.append(parent, node);
            assert(r is Ok);
        }
        Ok(())
    }

    /// Inserts text before `sibling`, joining it to a text node that
    /// precedes `sibling`.
    fn insert_text_before(&mut self, sibling: NodeRef, text: String) -> (r: Result<(), TreeError>)
        requires
            old(self).wf(),
            old(self)@.len < u64::MAX,
        ensures
            final(self).wf(),
            final(self).document == old(self).document,
            final(self).failure == old(self).failure,
            r == old(self)@.check_insert_text(sibling),
            r is Ok ==> final(self)@ == old(self)@.insert_text_before(sibling, text@),
            r is Err ==> final(self)@ == old(self)@,
    {
        let ghost t = self@;
        let previous = match self.node_tree.get_node(sibling) {
            Err(e) => {
                return Err(e);
            },
            Ok(node) => node.previous_sibling(),
        };
        match self.node_tree.is_orphan(sibling) {
            Ok(false) => {},
            _ => {
                return Err(TreeError::NoParent);
            },
        }
        proof {
            self.node_tree.lemma_wf();
            let i = t.lemma_parent_lists_child(sibling);
            if i > 0 {
                t.lemma_child_position(t.ancestors[sibling].last(), i - 1);
            }
        }
        let joined = match previous {
            Some(l) => match self.node_tree.push_text(l, text.as_str()) {
                Ok(extended) => extended,
                Err(_) => false,
            },
            None => false,
        };
        if !joined {
            let node = self.node_tree.new_node(NodeData::Text(text));
            proof {
                t.lemma_create(NodeDataView::Text(text@));
                let t1 = t.create(NodeDataView::Text(text@));
                if t1.ancestors[sibling].contains(node) {
                    t1.lemma_ancestor_depth(sibling, node);
                }
            }
            let r = self.node_tree.append_before_sibling(sibling, node);
            assert(r is Ok);
        }
        Ok(())
    }

    /// Places `child` as the last child of `parent`, on a running session.
    fn append_now(&mut self, parent: NodeRef, child: NodeOrText) -> (r: Result<(), TreeError>)
        requires
            old(self).wf(),
            old(self)@.len < u64::MAX,
        ensures
            final(self).wf(),
            final(self).document == old(self).document,
            final(self).failure == old(self).failure,
            r == old(self)@.check_append_child(parent, child),
            r is Ok ==> final(self)@ == old(self)@.append_child(parent, child),
            r is Err ==> final(self)@ == old(self)@,
    {
        match child {
            NodeOrText::AppendNode(node) => {
                self.node_tree.append(parent, node)
            },
            NodeOrText::AppendText(text) => self.append_text(parent, text),
        }
    }

    /// Places `child` immediately before `sibling`, on a running session.
    fn insert_now(&mut self, sibling: NodeRef, child: NodeOrText) -> (r: Result<(), TreeError>)
        requires
            old(self).wf(),
            old(self)@.len < u64::MAX,
        ensures
            final(self).wf(),
            final(self).document == old(self).document,
            final(self).failure == old(self).failure,
            r == old(self)@.check_insert_child(sibling, child),
            r is Ok ==> final(self)@ == old(self)@.insert_child_before(sibling, child),
            r is Err ==> final(self)@ == old(self)@,
    {
        match child {
            NodeOrText::AppendNode(node) => self.node_tree.append_before_sibling(sibling, node),
            NodeOrText::AppendText(text) => self.insert_text_before(sibling, text),
        }
    }

    /// Places `child` as the last child of `parent`. Text is joined to a
    /// text node that ends the children of `parent`, not put beside it.
    pub fn append(&mut self, parent: NodeRef, child: NodeOrText) -> (r: Result<(), TreeError>)
        requires
            old(self).wf(),
            old(self)@.len < u64::MAX,
        ensures
            final(self).wf(),
            final(self).document() == old(self).document(),
            r == old(self).gate(old(self)@.check_append_child(parent, child)),
            final(self).failure() == old(self).failure_after(
                Event::Append,
                old(self)@.check_append_child(parent, child),
            ),
            r is Ok ==> final(self)@ == old(self)@.append_child(parent, child),
            r is Err ==> final(self)@ == old(self)@,
    {
        match self.failure {
            Some(f) => Err(f.error),
            None => {
                let r = self.append_now(parent, child);
                self.settle(Event::Append, &r);
                r
            },
        }
    }

    /// Places `child` immediately before `sibling`. Text is joined to a
    /// text node that precedes `sibling`, not put beside it.
    pub fn append_before_sibling(&mut self, sibling: NodeRef, child: NodeOrText) -> (r: Result<
        (),
        TreeError,
    >)
        requires
            old(self).wf(),
            old(self)@.len < u64::MAX,
        ensures
            final(self).wf(),
            final(self).document() == old(self).document(),
            r == old(self).gate(old(self)@.check_insert_child(sibling, child)),
            final(self).failure() == old(self).failure_after(
                Event::AppendBeforeSibling,
                old(self)@.check_insert_child(sibling, child),
            ),
            r is Ok ==> final(self)@ == old(self)@.insert_child_before(sibling, child),
            r is Err ==> final(self)@ == old(self)@,
    {
        match self.failure {
            Some(f) => Err(f.error),
            None => {
                let r = self.insert_now(sibling, child);
                self.settle(Event::AppendBeforeSibling, &r);
                r
            },
        }
    }

    /// Places `child` before `element` where `element` has a parent, and
    /// else as the last child of `prev_element`.
    pub fn append_based_on_parent_node(
        &mut self,
        element: NodeRef,
        prev_element: NodeRef,
        child: NodeOrText,
    ) -> (r: Result<(), TreeError>)
        requires
            old(self).wf(),
            old(self)@.len < u64::MAX,
        ensures
            final(self).wf(),
            final(self).document() == old(self).document(),
            r == old(self).gate(old(self)@.check_foster(element, prev_element, child)),
            final(self).failure() == old(self).failure_after(
                Event::AppendBasedOnParentNode,
                old(self)@.check_foster(element, prev_element, child),
            ),
            r is Ok ==> final(self)@ == old(self)@.foster(element, prev_element, child),
            r is Err ==> final(self)@ == old(self)@,
    {
        match self.failure {
            Some(f) => Err(f.error),
            None => {
                let r = match self.node_tree.is_orphan(element) {
                    Err(e) => Err(e),
                    Ok(true) => self.append_now(prev_element, child),
                    Ok(false) => self.insert_now(element, child),
                };
                self.settle(Event::AppendBasedOnParentNode, &r);
                r
            },
        }
    }

    /// Creates a doctype node and appends it to the document.
    pub fn append_doctype_to_document(&mut self, name: String, public_id: String, system_id: String) -> (r:
        Result<(), TreeError>)
        requires
            old(self).wf(),
            old(self)@.len < u64::MAX,
        ensures
            final(self).wf(),
            final(self).document() == old(self).document(),
            final(self).failure() == old(self).failure(),
            r == old(self).gate(Ok::<(), TreeError>(())),
            r is Ok ==> final(self)@ == old(self)@.create(
                NodeDataView::Doctype(
                    DoctypeView { name: name@, public_id: public_id@, system_id: system_id@ },
                ),
            ).append(old(self).document(), old(self)@.next_ref()),
            r is Err ==> final(self)@ == old(self)@,
    {
        if let Some(f) = self.failure {
            return Err(f.error);
        }
        let ghost t = self@;
        let ghost data = NodeDataView::Doctype(
            DoctypeView { name: name@, public_id: public_id@, system_id: system_id@ },
        );
        proof {
            self.node_tree.lemma_wf();
        }
        let node = self.node_tree.new_node(NodeData::Doctype(Doctype { name, public_id, system_id }));
        proof {
            t.lemma_create(data);
            let t1 = t.create(data);
            if t1.ancestors[self.document].contains(node) {
                t1.lemma_ancestor_depth(self.document, node);
            }
        }
        let r = self.node_tree.append(self.document, node);
        assert(r is Ok);
        Ok(())
    }

    /// Merges `attrs` into the attributes of the element `target`; an
    /// attribute whose key the element has already is dropped.
    pub fn add_attrs_if_missing(&mut self, target: NodeRef, attrs: Vec<Attribute>) -> (r: Result<
        (),
        TreeError,
    >)
        requires
            old(self).wf(),
        ensures
            final(self).wf(),
            final(self).document() == old(self).document(),
            r == old(self).gate(old(self)@.check_element(target)),
            final(self).failure() == old(self).failure_after(
                Event::AddAttrsIfMissing,
                old(self)@.check_element(target),
            ),
            r is Ok ==> final(self)@ == old(self)@.merge_attributes(target, attrs_view(attrs@)),
            r is Err ==> final(self)@ == old(self)@,
    {
        match self.failure {
            Some(f) => Err(f.error),
            None => {
                let r = self.node_tree.merge_attributes_if_missing(target, attrs);
                self.settle(Event::AddAttrsIfMissing, &r);
                r
            },
        }
    }

    /// Detaches `target` from its parent, if it has one.
    pub fn remove_from_parent(&mut self, target: NodeRef) -> (r: Result<(), TreeError>)
        requires
            old(self).wf(),
        ensures
            final(self).wf(),
            final(self).document() == old(self).document(),
            r == old(self).gate(old(self)@.check_known(target)),
            final(self).failure() == old(self).failure_after(
                Event::RemoveFromParent,
                old(self)@.check_known(target),
            ),
            r is Ok ==> final(self)@ == old(self)@.remove(target),
            r is Err ==> final(self)@ == old(self)@,
    {
        match self.failure {
            Some(f) => Err(f.error),
            None => {
                let r = self.node_tree.remove_from_parent(target);
                self.settle(Event::RemoveFromParent, &r);
                r
            },
        }
    }

    /// Moves the children of `node` behind the children of `new_parent`.
    pub fn reparent_children(&mut self, node: NodeRef, new_parent: NodeRef) -> (r: Result<
        (),
        TreeError,
    >)
        requires
            old(self).wf(),
        ensures
            final(self).wf(),
            final(self).document() == old(self).document(),
            r == old(self).gate(old(self)@.check_reparent(node, new_parent)),
            final(self).failure() == old(self).failure_after(
                Event::ReparentChildren,
                old(self)@.check_reparent(node, new_parent),
            ),
            r is Ok ==> final(self)@ == old(self)@.adopt(node, new_parent),
            r is Err ==> final(self)@ == old(self)@,
    {
        match self.failure {
            Some(f) => Err(f.error),
            None => {
                let r = self.node_tree.reparent_children(node, new_parent);
                self.settle(Event::ReparentChildren, &r);
                r
            },
        }
    }

    /// The root of the contents of a template element. The tree stays as
    /// it is.
    pub fn get_template_contents(&mut self, target: NodeRef) -> (r: Result<NodeRef, TreeError>)
        requires
            old(self).wf(),
        ensures
            final(self).wf(),
            final(self).document() == old(self).document(),
            final(self)@ == old(self)@,
            r == old(self).gate(old(self)@.template_contents(target)),
            final(self).failure() == old(self).failure_after(
                Event::GetTemplateContents,
                old(self)@.template_contents(target),
            ),
    {
        match self.failure {
            Some(f) => Err(f.error),
            None => {
                let r = match self.node_tree.get_node(target) {
                    Err(e) => Err(e),
                    Ok(node) => match node.data() {
                        NodeData::Element(e) => match e.template_contents {
                            Some(contents) => Ok(contents),
                            None => Err(TreeError::NotATemplate),
                        },
                        _ => Err(TreeError::NotAnElement),
                    },
                };
                self.settle(Event::GetTemplateContents, &r);
                r
            },
        }
    }

    /// The name of an element.
    pub fn elem_name(&self, target: NodeRef) -> (r: Result<&QualifiedName, TreeError>)
        requires
            self.wf(),
        ensures
            match r {
                Ok(name) => {
                    &&& self@.check_element(target) is Ok
                    &&& self@.data[target] matches NodeDataView::Element(e)
                    &&& e.name == name@
                },
                Err(e) => self@.check_element(target) == Err::<(), TreeError>(e),
            },
    {
        match self.node_tree.get_node(target) {
            Err(e) => Err(e),
            Ok(node) => match node.data() {
                NodeData::Element(e) => Ok(&e.name),
                _ => Err(TreeError::NotAnElement),
            },
        }
    }

    /// Records the compatibility mode on the document node.
    pub fn set_quirks_mode(&mut self, mode: QuirksMode) -> (r: Result<(), TreeError>)
        requires
            old(self).wf(),
        ensures
            final(self).wf(),
            final(self).document() == old(self).document(),
            final(self).failure() == old(self).failure(),
            r == old(self).gate(Ok::<(), TreeError>(())),
            r is Ok ==> final(self)@ == old(self)@.set_data(
                old(self).document(),
                NodeDataView::Document(mode),
            ),
            r is Err ==> final(self)@ == old(self)@,
    {
        if let Some(f) = self.failure {
            return Err(f.error);
        }
        let r = self.node_tree.replace_data(
            self.document,
            NodeData::Document(DocumentData { _quirks_mode: mode }),
        );
        Ok(())
    }
}

} // verus!
