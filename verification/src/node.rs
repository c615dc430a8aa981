//! The data of nodes and their records.

use crate::handle::NodeRef;
use html5ever::tree_builder::QuirksMode;
use vstd::prelude::*;

verus! {

/// `html5ever::tree_builder::QuirksMode`, the document compatibility mode
/// decided by the parser, declared as an opaque type: the arena stores and
/// returns a mode without looking inside.
#[verifier::external_type_specification]
#[verifier::external_body]
pub struct ExQuirksMode(QuirksMode);

/// `<QuirksMode as Clone>::clone`. The mode is an enumeration without fields
/// that derives `Copy` and `Clone`; the claim is that a clone is the mode it
/// was made from.
pub assume_specification[ <QuirksMode as Clone>::clone ](mode: &QuirksMode) -> (copy: QuirksMode)
    ensures
        copy == *mode,
;

/// A namespace-qualified name of an element or attribute.
#[derive(Debug, Clone, PartialEq, Eq)]
pub struct QualifiedName {
    pub prefix: Option<String>,
    pub ns: String,
    pub local: String,
}

pub struct QualifiedNameView {
    pub prefix: Option<Seq<char>>,
    pub ns: Seq<char>,
    pub local: Seq<char>,
}

impl View for QualifiedName {
    type V = QualifiedNameView;

    open spec fn view(&self) -> QualifiedNameView {
        QualifiedNameView {
            prefix: match self.prefix {
                Some(p) => Some(p@),
                None => None,
            },
            ns: self.ns@,
            local: self.local@,
        }
    }
}

impl QualifiedNameView {
    /// Two names share a key when namespace and local name agree; the
    /// prefix plays no part.
    pub open spec fn same_key(self, other: QualifiedNameView) -> bool {
        self.ns == other.ns && self.local == other.local
    }
}

impl QualifiedName {
    pub fn new(prefix: Option<String>, ns: String, local: String) -> (name: QualifiedName)
        ensures
            name.prefix == prefix,
            name.ns == ns,
            name.local == local,
    {
        QualifiedName { prefix, ns, local }
    }

    /// Whether the two names agree on namespace and local name.
    pub fn same_key(&self, other: &QualifiedName) -> (same: bool)
        ensures
            same == self@.same_key(other@),
    {
        self.ns == other.ns && self.local == other.local
    }

    /// A copy of the name.
    pub fn duplicate(&self) -> (copy: QualifiedName)
        ensures
            copy@ == self@,
    {
        let prefix = match &self.prefix {
            Some(p) => Some(p.clone()),
            None => None,
        };
        QualifiedName { prefix, ns: self.ns.clone(), local: self.local.clone() }
    }
}

/// One attribute of an element.
#[derive(Debug, Clone, PartialEq, Eq)]
pub struct Attribute {
    pub name: QualifiedName,
    pub value: String,
}

pub struct AttributeView {
    pub name: QualifiedNameView,
    pub value: Seq<char>,
}

impl View for Attribute {
    type V = AttributeView;

    open spec fn view(&self) -> AttributeView {
        AttributeView { name: self.name@, value: self.value@ }
    }
}

impl Attribute {
    pub fn new(name: QualifiedName, value: String) -> (attr: Attribute)
        ensures
            attr.name == name,
            attr.value == value,
    {
        Attribute { name, value }
    }

    /// A copy of the attribute.
    pub fn duplicate(&self) -> (copy: Attribute)
        ensures
            copy@ == self@,
    {
        Attribute { name: self.name.duplicate(), value: self.value.clone() }
    }
}

/// The views of a list of attributes, in order.
pub open spec fn attrs_view(attrs: Seq<Attribute>) -> Seq<AttributeView> {
    Seq::new(attrs.len(), |i: int| attrs[i]@)
}

/// Whether some attribute of the list has the key of `name`.
pub open spec fn has_key(attrs: Seq<AttributeView>, name: QualifiedNameView) -> bool {
    exists|i: int| 0 <= i < attrs.len() && (#[trigger] attrs[i]).name.same_key(name)
}

/// The attributes of an element after `incoming` was merged into
/// `existing`: each incoming attribute, in order, is added at the end unless
/// an attribute with its key is already there. The first to claim a key
/// keeps it.
pub open spec fn merge_attrs(
    existing: Seq<AttributeView>,
    incoming: Seq<AttributeView>,
) -> Seq<AttributeView>
    decreases incoming.len(),
{
    if incoming.len() == 0 {
        existing
    } else {
        let a = incoming.first();
        let grown = if has_key(existing, a.name) {
            existing
        } else {
            existing.push(a)
        };
        merge_attrs(grown, incoming.drop_first())
    }
}

/// Data specific to element nodes.
#[derive(Debug, Clone, PartialEq)]
pub struct ElementData {
    /// The namespace and local name of the element.
    pub name: QualifiedName,
    /// The attributes of the element.
    pub attrs: Vec<Attribute>,
    /// For a template element, the root of its detached contents.
    pub template_contents: Option<NodeRef>,
}

pub struct ElementDataView {
    pub name: QualifiedNameView,
    pub attrs: Seq<AttributeView>,
    pub template_contents: Option<NodeRef>,
}

impl View for ElementData {
    type V = ElementDataView;

    open spec fn view(&self) -> ElementDataView {
        ElementDataView {
            name: self.name@,
            attrs: attrs_view(self.attrs@),
            template_contents: self.template_contents,
        }
    }
}

impl ElementData {
    /// Whether the element has an attribute with the key of `name`.
    pub fn has_attr(&self, name: &QualifiedName) -> (found: bool)
        ensures
            found == has_key(self@.attrs, name@),
    {
        let mut i: usize = 0;
        while i < self.attrs.len()
            invariant
                i <= self.attrs.len(),
                forall|j: int| 0 <= j < i ==> !(#[trigger] self@.attrs[j]).name.same_key(name@),
            decreases self.attrs.len() - i,
        {
            if self.attrs[i].name.same_key(name) {
                assert(self@.attrs[i as int].name.same_key(name@));
                return true;
            }
            i += 1;
        }
        false
    }

    /// Adds each of `attrs` whose key the element does not have yet.
    pub fn add_attrs_if_missing(&mut self, attrs: &Vec<Attribute>)
        ensures
            final(self)@ == (ElementDataView {
                attrs: merge_attrs(old(self)@.attrs, attrs_view(attrs@)),
                ..old(self)@
            }),
    {
        let ghost incoming = attrs_view(attrs@);
        let mut i: usize = 0;
        assert(incoming.skip(0) =~= incoming);
        while i < attrs.len()
            invariant
                i <= attrs.len(),
                incoming == attrs_view(attrs@),
                self.name == old(self).name,
                self.template_contents == old(self).template_contents,
                merge_attrs(self@.attrs, incoming.skip(i as int)) == merge_attrs(
                    old(self)@.attrs,
                    incoming,
                ),
            decreases attrs.len() - i,
        {
            let ghost before = self@.attrs;
            let ghost rest = incoming.skip(i as int);
            if !self.has_attr(&attrs[i].name) {
                let copy = attrs[i].duplicate();
                self.attrs.push(copy);
                assert(self@.attrs =~= before.push(attrs[i as int]@));
            }
            proof {
                assert(rest.drop_first() =~= incoming.skip(i + 1));
            }
            i += 1;
        }
    }
}

/// Data specific to document nodes.
#[derive(Debug, Clone, PartialEq)]
pub struct DocumentData {
    pub _quirks_mode: QuirksMode,
}

impl DocumentData {
    /// The quirks mode of the document, as determined by the parser.
    pub fn quirks_mode(&self) -> (mode: QuirksMode)
        ensures
            mode == self._quirks_mode,
    {
        self._quirks_mode
    }
}

/// Data specific to doctype nodes.
#[derive(Debug, Clone, PartialEq)]
pub struct Doctype {
    /// The name of the doctype.
    pub name: String,
    /// The public identifier of the doctype.
    pub public_id: String,
    /// The system identifier of the doctype.
    pub system_id: String,
}

pub struct DoctypeView {
    pub name: Seq<char>,
    pub public_id: Seq<char>,
    pub system_id: Seq<char>,
}

impl View for Doctype {
    type V = DoctypeView;

    open spec fn view(&self) -> DoctypeView {
        DoctypeView { name: self.name@, public_id: self.public_id@, system_id: self.system_id@ }
    }
}

/// Node data specific to the node type.
#[derive(Debug, Clone, PartialEq)]
pub enum NodeData {
    /// Element node
    Element(ElementData),
    /// Text node
    Text(String),
    /// Comment node
    Comment(String),
    /// Processing instruction node: target, then data
    ProcessingInstruction(String, String),
    /// Doctype node
    Doctype(Doctype),
    /// Document node
    Document(DocumentData),
    /// Document fragment node
    DocumentFragment,
}

pub enum NodeDataView {
    Element(ElementDataView),
    Text(Seq<char>),
    Comment(Seq<char>),
    ProcessingInstruction(Seq<char>, Seq<char>),
    Doctype(DoctypeView),
    Document(QuirksMode),
    DocumentFragment,
}

impl View for NodeData {
    type V = NodeDataView;

    open spec fn view(&self) -> NodeDataView {
        match self {
            NodeData::Element(e) => NodeDataView::Element(e@),
            NodeData::Text(s) => NodeDataView::Text(s@),
            NodeData::Comment(s) => NodeDataView::Comment(s@),
            NodeData::ProcessingInstruction(t, d) => NodeDataView::ProcessingInstruction(t@, d@),
            NodeData::Doctype(d) => NodeDataView::Doctype(d@),
            NodeData::Document(d) => NodeDataView::Document(d._quirks_mode),
            NodeData::DocumentFragment => NodeDataView::DocumentFragment,
        }
    }
}

/// The references one node holds to its neighbours.
#[derive(Debug, Clone, Copy, PartialEq, Eq, Structural)]
pub struct Links {
    /// The parent, held by the first child of a parent only.
    pub parent: Option<NodeRef>,
    pub previous_sibling: Option<NodeRef>,
    pub next_sibling: Option<NodeRef>,
    pub first_child: Option<NodeRef>,
    pub last_child: Option<NodeRef>,
}

impl Links {
    /// The links of a node that stands alone.
    pub open spec fn none() -> Links {
        Links {
            parent: None,
            previous_sibling: None,
            next_sibling: None,
            first_child: None,
            last_child: None,
        }
    }
}

/// One record of the arena: the node's data and its links into the tree.
#[derive(Debug, PartialEq)]
pub struct Node {
    pub(crate) links: Links,
    pub(crate) data: NodeData,
}

impl Node {
    /// The links of this record.
    pub open(crate) spec fn links(&self) -> Links {
        self.links
    }

    /// The data of this record.
    pub open(crate) spec fn spec_data(&self) -> NodeData {
        self.data
    }

    /// A record with the given data and no links.
    pub fn new(data: NodeData) -> (node: Node)
        ensures
            node.links() == Links::none(),
            node.spec_data() == data,
    {
        Node {
            links: Links {
                parent: None,
                previous_sibling: None,
                next_sibling: None,
                first_child: None,
                last_child: None,
            },
            data,
        }
    }

    /// The parent, if this node is the first child of one.
    pub fn parent(&self) -> (r: Option<NodeRef>)
        ensures
            r == self.links().parent,
    {
        self.links.parent
    }

    pub fn previous_sibling(&self) -> (r: Option<NodeRef>)
        ensures
            r == self.links().previous_sibling,
    {
        self.links.previous_sibling
    }

    pub fn next_sibling(&self) -> (r: Option<NodeRef>)
        ensures
            r == self.links().next_sibling,
    {
        self.links.next_sibling
    }

    pub fn first_child(&self) -> (r: Option<NodeRef>)
        ensures
            r == self.links().first_child,
    {
        self.links.first_child
    }

    pub fn last_child(&self) -> (r: Option<NodeRef>)
        ensures
            r == self.links().last_child,
    {
        self.links.last_child
    }

    #[verifier::when_used_as_spec(spec_data_ref)]
    pub fn data(&self) -> (r: &NodeData)
        ensures
            *r == self.spec_data(),
    {
        &self.data
    }

    pub open(crate) spec fn spec_data_ref(&self) -> &NodeData {
        &self.data
    }

    /// If this node is a document, return a reference to document-specific data.
    pub fn as_document(&self) -> (r: Option<&DocumentData>)
        ensures
            r == (match self.spec_data() {
                NodeData::Document(d) => Some(&d),
                _ => None,
            }),
    {
        match &self.data {
            NodeData::Document(value) => Some(value),
            _ => None,
        }
    }

    /// If this node is an element, return a reference to element-specific data.
    pub fn as_element(&self) -> (r: Option<&ElementData>)
        ensures
            r == (match self.spec_data() {
                NodeData::Element(e) => Some(&e),
                _ => None,
            }),
    {
        match &self.data {
            NodeData::Element(value) => Some(value),
            _ => None,
        }
    }

    /// If this node is a text node, return a reference to its contents.
    pub fn as_text(&self) -> (r: Option<&String>)
        ensures
            r == (match self.spec_data() {
                NodeData::Text(s) => Some(&s),
                _ => None,
            }),
    {
        match &self.data {
            NodeData::Text(value) => Some(value),
            _ => None,
        }
    }

    /// If this node is a comment, return a reference to its contents.
    pub fn as_comment(&self) -> (r: Option<&String>)
        ensures
            r == (match self.spec_data() {
                NodeData::Comment(s) => Some(&s),
                _ => None,
            }),
    {
        match &self.data {
            NodeData::Comment(value) => Some(value),
            _ => None,
        }
    }

    /// If this node is a doctype, return a reference to doctype-specific data.
    pub fn as_doctype(&self) -> (r: Option<&Doctype>)
        ensures
            r == (match self.spec_data() {
                NodeData::Doctype(d) => Some(&d),
                _ => None,
            }),
    {
        match &self.data {
            NodeData::Doctype(value) => Some(value),
            _ => None,
        }
    }
}

} // verus!
