//! The node model: the closed set of node kinds and their payloads.

use vstd::prelude::*;
use crate::arena::NodeHandle;
use crate::element::{
    attrs_view, element_attrs, element_tag, Attribute, AttributeView, QualName, QualNameView,
};
use crate::policy::{policy_of_tag, ContentPolicy};
use crate::stylesheet::{StyleSheet, StyleSheetView};

verus! {

/// A `DOCTYPE` with name, public id and system id.
#[derive(Debug, Clone, PartialEq, Eq, Hash)]
pub struct Doctype {
    pub name: String,
    pub public_id: String,
    pub system_id: String,
}

/// The mathematical value of a [`Doctype`].
#[verifier::ext_equal]
pub struct DoctypeView {
    pub name: Seq<char>,
    pub public_id: Seq<char>,
    pub system_id: Seq<char>,
}

impl View for Doctype {
    type V = DoctypeView;

    open spec fn view(&self) -> DoctypeView {
        DoctypeView { name: self.name@, public_id: self.public_id@, system_id: self.system_id@ }
    }
}

/// The different kinds of nodes in the tree.
#[derive(Debug)]
pub enum Node {
    /// The document itself, the root of the tree, with its doctype.
    Document(Option<Doctype>),
    /// A text node.
    Text(String),
    /// A comment.
    Comment(String),
    /// An element: the only kind of node with a parent and children.
    Element {
        /// The typed element with its attributes.
        elem: html_tags::ElementOwned,
        qualified_name: QualName,
        /// The attributes in the order in which they were set.
        attrs: Vec<Attribute>,
        parent: NodeHandle,
        children: Vec<NodeHandle>,
    },
    /// The stylesheet of a style-bearing element.
    StyleSheet(StyleSheet),
    /// A processing instruction.
    ProcessingInstruction { target: String, contents: String },
}

/// The mathematical value of an element node.
#[verifier::ext_equal]
pub struct ElementView {
    /// The tag of the typed element.
    pub tag: Seq<char>,
    /// The attributes of the typed element, by local name.
    pub typed_attrs: Map<Seq<char>, Seq<char>>,
    pub qualified_name: QualNameView,
    pub attrs: Seq<AttributeView>,
    pub parent: NodeHandle,
    pub children: Seq<NodeHandle>,
}

impl ElementView {
    /// The content policy of the element.
    pub open spec fn policy(self) -> ContentPolicy {
        policy_of_tag(self.tag)
    }
}

/// The mathematical value of a [`Node`].
#[verifier::ext_equal]
pub enum NodeView {
    Document(Option<DoctypeView>),
    Text(Seq<char>),
    Comment(Seq<char>),
    Element(ElementView),
    StyleSheet(StyleSheetView),
    ProcessingInstruction { target: Seq<char>, contents: Seq<char> },
}

impl View for Node {
    type V = NodeView;

    open spec fn view(&self) -> NodeView {
        match *self {
            Node::Document(doctype) => NodeView::Document(
                match doctype {
                    Some(d) => Some(d@),
                    None => None,
                },
            ),
            Node::Text(contents) => NodeView::Text(contents@),
            Node::Comment(contents) => NodeView::Comment(contents@),
            Node::Element { elem, qualified_name, attrs, parent, children } => NodeView::Element(
                ElementView {
                    tag: element_tag(elem),
                    typed_attrs: element_attrs(elem),
                    qualified_name: qualified_name@,
                    attrs: attrs_view(attrs@),
                    parent,
                    children: children@,
                },
            ),
            Node::StyleSheet(sheet) => NodeView::StyleSheet(sheet@),
            Node::ProcessingInstruction { target, contents } => NodeView::ProcessingInstruction {
                target: target@,
                contents: contents@,
            },
        }
    }
}

} // verus!
