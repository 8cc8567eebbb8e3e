//! The in-memory form of an XML document.

use vstd::prelude::*;
use vstd::string::StringExecFns;

verus! {

/// The version of XML that a document declares.
#[derive(Clone, Copy, Debug, PartialEq, Eq, Structural)]
pub enum XmlVersion {
    Version10,
    Version11,
}

/// A qualified name: a local name, with an optional prefix and namespace URI.
#[derive(Clone, Debug)]
pub struct XmlName {
    pub local_name: String,
    pub namespace: Option<String>,
    pub prefix: Option<String>,
}

/// An attribute of a node.
#[derive(Clone, Debug)]
pub struct XmlAttribute {
    pub name: XmlName,
    pub value: String,
}

/// A binding of a namespace prefix to a URI.
#[derive(Clone, Debug)]
pub struct XmlNamespace {
    pub prefix: String,
    pub uri: String,
}

/// An element with a name, attributes and children. A node belongs to the
/// list of children that holds it; its parent is found by the path that
/// leads to it from the document.
#[derive(Debug)]
pub struct XmlNode {
    /// The qualified name of the element.
    pub name: XmlName,
    /// The attributes in the order in which they stand; a name may occur
    /// more than once.
    pub attributes: Vec<XmlAttribute>,
    /// The bindings of prefixes that are visible at the node. A tree that is
    /// read holds them in the order of their prefixes, each prefix once.
    /// Nothing keeps a tree that is built by hand to that: where a prefix
    /// occurs more than once, the printer goes by its last binding.
    pub namespace: Vec<XmlNamespace>,
    /// The children in document order.
    pub elements: Vec<XmlElement>,
}

/// One item of a document or of a node's content.
#[derive(Debug)]
pub enum XmlElement {
    Text(String),
    Node(XmlNode),
    Whitespace(String),
    Comment(String),
    CData(String),
}

/// A parsed document: its declaration and its top-level elements.
#[derive(Debug)]
pub struct XmlDocument {
    pub version: XmlVersion,
    pub encoding: String,
    pub standalone: Option<bool>,
    pub elements: Vec<XmlElement>,
}

/// The mathematical value of an [`XmlName`].
pub struct NameView {
    pub local_name: Seq<char>,
    pub namespace: Option<Seq<char>>,
    pub prefix: Option<Seq<char>>,
}

/// The mathematical value of an [`XmlAttribute`].
pub struct AttributeView {
    pub name: NameView,
    pub value: Seq<char>,
}

/// The mathematical value of an [`XmlNamespace`].
pub struct NamespaceView {
    pub prefix: Seq<char>,
    pub uri: Seq<char>,
}

/// The mathematical value of an [`XmlNode`].
pub struct NodeView {
    pub name: NameView,
    pub attributes: Seq<AttributeView>,
    pub namespace: Seq<NamespaceView>,
    pub elements: Seq<ElementView>,
}

/// The mathematical value of an [`XmlElement`].
pub enum ElementView {
    Text(Seq<char>),
    Node(NodeView),
    Whitespace(Seq<char>),
    Comment(Seq<char>),
    CData(Seq<char>),
}

/// The mathematical value of an [`XmlDocument`].
pub struct DocumentView {
    pub version: XmlVersion,
    pub encoding: Seq<char>,
    pub standalone: Option<bool>,
    pub elements: Seq<ElementView>,
}

/// The characters of the string, if there is one.
pub open spec fn option_text(s: Option<String>) -> Option<Seq<char>> {
    match s {
        Some(s) => Some(s@),
        None => None,
    }
}

impl View for XmlName {
    type V = NameView;

    open spec fn view(&self) -> NameView {
        NameView {
            local_name: self.local_name@,
            namespace: option_text(self.namespace),
            prefix: option_text(self.prefix),
        }
    }
}

impl View for XmlAttribute {
    type V = AttributeView;

    open spec fn view(&self) -> AttributeView {
        AttributeView { name: self.name@, value: self.value@ }
    }
}

impl View for XmlNamespace {
    type V = NamespaceView;

    open spec fn view(&self) -> NamespaceView {
        NamespaceView { prefix: self.prefix@, uri: self.uri@ }
    }
}

/// The mathematical value of an element.
pub open spec fn element_view(e: XmlElement) -> ElementView
    decreases e,
{
    match e {
        XmlElement::Text(s) => ElementView::Text(s@),
        XmlElement::Node(n) => ElementView::Node(node_view(n)),
        XmlElement::Whitespace(s) => ElementView::Whitespace(s@),
        XmlElement::Comment(s) => ElementView::Comment(s@),
        XmlElement::CData(s) => ElementView::CData(s@),
    }
}

/// The mathematical value of a node.
pub open spec fn node_view(n: XmlNode) -> NodeView
    decreases n,
{
    NodeView {
        name: n.name@,
        attributes: n.attributes@.map_values(|a: XmlAttribute| a@),
        namespace: n.namespace@.map_values(|b: XmlNamespace| b@),
        elements: elements_view(n.elements@),
    }
}

/// The mathematical values of the elements, in order.
pub open spec fn elements_view(es: Seq<XmlElement>) -> Seq<ElementView>
    decreases es,
{
    Seq::new(es.len(), |i: int| if 0 <= i < es.len() { element_view(es[i]) } else { ElementView::Text(Seq::empty()) })
}

impl View for XmlElement {
    type V = ElementView;

    open spec fn view(&self) -> ElementView {
        element_view(*self)
    }
}

impl View for XmlNode {
    type V = NodeView;

    open spec fn view(&self) -> NodeView {
        node_view(*self)
    }
}

impl View for XmlDocument {
    type V = DocumentView;

    open spec fn view(&self) -> DocumentView {
        DocumentView {
            version: self.version,
            encoding: self.encoding@,
            standalone: self.standalone,
            elements: elements_view(self.elements@),
        }
    }
}

/// The text that an element holds: its own content for a text element, the
/// text of all descendants in document order for a node, nothing otherwise.
pub open spec fn element_text(e: ElementView) -> Seq<char>
    decreases e,
{
    match e {
        ElementView::Text(s) => s,
        ElementView::Node(n) => content_text(n.elements, n.elements.len() as int),
        _ => Seq::empty(),
    }
}

/// The text of the first `n` elements of `es`, in order.
pub open spec fn content_text(es: Seq<ElementView>, n: int) -> Seq<char>
    decreases es, n,
{
    if n <= 0 || n > es.len() {
        Seq::empty()
    } else {
        content_text(es, n - 1) + element_text(es[n - 1])
    }
}

impl NameView {
    /// The name with nothing set.
    pub open spec fn empty() -> NameView {
        NameView { local_name: Seq::empty(), namespace: None, prefix: None }
    }
}

impl NodeView {
    /// The node with an empty name and no content.
    pub open spec fn empty() -> NodeView {
        NodeView {
            name: NameView::empty(),
            attributes: Seq::empty(),
            namespace: Seq::empty(),
            elements: Seq::empty(),
        }
    }

    /// The text of all descendants, in document order.
    pub open spec fn text(self) -> Seq<char> {
        content_text(self.elements, self.elements.len() as int)
    }
}

impl XmlNode {
    /// Appends to `string` the text of all descendants, in document order.
    pub fn text(&self, string: &mut String)
        ensures
            final(string)@ == old(string)@ + self@.text(),
        decreases self,
    {
        let n = self.elements.len();
        let mut i: usize = 0;
        while i < n
            invariant
                n == self.elements.len(),
                i <= n,
                string@ == old(string)@ + content_text(self@.elements, i as int),
            decreases n - i,
        {
            self.elements[i].text(string);
            i += 1;
        }
    }

    /// A node with an empty name and no attributes, namespaces or children.
    pub fn empty() -> (node: XmlNode)
        ensures
            node@ == NodeView::empty(),
    {
        let node = XmlNode {
            name: XmlName { local_name: String::new(), namespace: None, prefix: None },
            attributes: Vec::new(),
            namespace: Vec::new(),
            elements: Vec::new(),
        };
        assert(node@.attributes =~= Seq::empty());
        assert(node@.namespace =~= Seq::empty());
        assert(node@.elements =~= Seq::empty());
        node
    }
}

impl XmlElement {
    /// Appends to `string` the text that this element holds.
    pub fn text(&self, string: &mut String)
        ensures
            final(string)@ == old(string)@ + element_text(self@),
        decreases self,
    {
        match self {
            XmlElement::Text(text) => string.append(text.as_str()),
            XmlElement::Node(node) => node.text(string),
            XmlElement::Whitespace(_) => {},
            XmlElement::Comment(_) => {},
            XmlElement::CData(_) => {},
        }
    }
}

/// The node that a path leads to from index `from` of the path on: each
/// index of the path picks a child, which must be a node.
pub open spec fn descend(elements: Seq<ElementView>, path: Seq<usize>, from: int) -> Option<NodeView>
    decreases path.len() - from,
{
    if from < 0 || from >= path.len() {
        None
    } else if path[from] >= elements.len() {
        None
    } else {
        match elements[path[from] as int] {
            ElementView::Node(n) => if from + 1 == path.len() {
                Some(n)
            } else {
                descend(n.elements, path, from + 1)
            },
            _ => None,
        }
    }
}

impl DocumentView {
    /// The node that a path leads to from the top-level elements.
    pub open spec fn node_at(self, path: Seq<usize>) -> Option<NodeView> {
        descend(self.elements, path, 0)
    }

    /// The parent of the node that a path leads to: the node that the path
    /// without its last index leads to. A top-level node has none.
    pub open spec fn parent_at(self, path: Seq<usize>) -> Option<NodeView> {
        if self.node_at(path) is Some && path.len() >= 2 {
            self.node_at(path.drop_last())
        } else {
            None
        }
    }
}

/// A node is a child of its parent: where a path leads to a node that has
/// a parent, the last index of the path picks that node among the
/// children of the parent.
pub proof fn lemma_child_of_parent(elements: Seq<ElementView>, path: Seq<usize>, from: int)
    requires
        0 <= from,
        from + 2 <= path.len(),
        descend(elements, path, from) is Some,
    ensures
        descend(elements, path.drop_last(), from) is Some,
        path.last() < descend(elements, path.drop_last(), from)->Some_0.elements.len(),
        descend(elements, path.drop_last(), from)->Some_0.elements[path.last() as int] == ElementView::Node(
            descend(elements, path, from)->Some_0,
        ),
    decreases path.len() - from,
{
    let short = path.drop_last();
    assert(short[from] == path[from]);
    let n = elements[path[from] as int]->Node_0;
    if from + 2 < path.len() {
        lemma_child_of_parent(n.elements, path, from + 1);
    } else {
        assert(descend(n.elements, path, from + 1) is Some);
    }
}

impl XmlDocument {
    /// The node that the first `to` indices of the path lead to.
    fn node_upto(&self, path: &Vec<usize>, to: usize) -> (r: Option<&XmlNode>)
        requires
            to <= path@.len(),
        ensures
            match r {
                Some(node) => self@.node_at(path@.take(to as int)) == Some(node@),
                None => self@.node_at(path@.take(to as int)) is None,
            },
    {
        let ghost short = path@.take(to as int);
        let mut elements = &self.elements;
        let mut i: usize = 0;
        while i < to
            invariant
                i <= to <= path@.len(),
                short == path@.take(to as int),
                descend(elements_view(elements@), short, i as int) == descend(self@.elements, short, 0),
            decreases to - i,
        {
            let index = path[i];
            assert(short[i as int] == index);
            if index >= elements.len() {
                return None;
            }
            match &elements[index] {
                XmlElement::Node(node) => {
                    assert(elements_view(elements@)[index as int] == ElementView::Node(node@));
                    if i + 1 == to {
                        return Some(node);
                    }
                    elements = &node.elements;
                },
                _ => {
                    assert(!(elements_view(elements@)[index as int] is Node));
                    return None;
                },
            }
            i += 1;
        }
        None
    }

    /// The node that a path leads to from the top-level elements: each
    /// index of the path picks a child, which must be a node.
    pub fn node_at(&self, path: &Vec<usize>) -> (r: Option<&XmlNode>)
        ensures
            match r {
                Some(node) => self@.node_at(path@) == Some(node@),
                None => self@.node_at(path@) is None,
            },
    {
        assert(path@.take(path@.len() as int) =~= path@);
        self.node_upto(path, path.len())
    }

    /// The parent of the node that a path leads to. A top-level node has
    /// none.
    pub fn parent_at(&self, path: &Vec<usize>) -> (r: Option<&XmlNode>)
        ensures
            match r {
                Some(node) => self@.parent_at(path@) == Some(node@),
                None => self@.parent_at(path@) is None,
            },
    {
        if path.len() < 2 {
            return None;
        }
        assert(path@.take(path@.len() - 1) =~= path@.drop_last());
        match self.node_at(path) {
            Some(_) => {
                proof {
                    lemma_child_of_parent(self@.elements, path@, 0);
                }
                self.node_upto(path, path.len() - 1)
            },
            None => None,
        }
    }
}

} // verus!
