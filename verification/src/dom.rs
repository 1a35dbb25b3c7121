//! The tree builder: the event sink that a tree-construction algorithm drives.

use vstd::prelude::*;
use crate::arena::{
    arena_contents, arena_get, arena_get_mut, arena_insert, arena_keys, arena_len, arena_new,
    handle_eq, Arena, NodeHandle, MAX_NODES,
};
use crate::element::{attrs_view, merge_attrs, typed_element, Attribute, QualName};
use crate::node::{Doctype, DoctypeView, Node, NodeView};
use crate::policy::{classify, lemma_policy_tags, ContentPolicy};
use crate::stylesheet::StyleSheet;
use crate::tree::{
    append_step, attrs_step, detach_step, differs_from, doctype_step, document_step, element_step,
    is_root_element, leaf_step, lemma_prefix_lacks_next, lemma_push_contains,
    lemma_push_no_duplicates, lemma_take_next, lemma_wf_detached, lemma_wf_extend,
    lemma_wf_grow, lemma_wf_node_appended, lemma_wf_reparented, lemma_wf_style_text_appended,
    lemma_wf_text_appended, missing_anchor, node_ok, placed, reparent_step, reparented_upto,
    sibling_step, style_text_appended, with_children, with_merged_attrs, with_parent, without,
    TreeView,
};

verus! {

/// What an operation reports when it refuses or relaxes what was asked of it.
#[derive(Clone, Copy, Debug, PartialEq, Eq, Structural)]
pub enum Diagnostic {
    /// A handle names no live node.
    UnresolvedHandle,
    /// The target is a live node, but not an element.
    NotAnElement,
    /// A style- or script-bearing element was given content that it does not
    /// take.
    ContentRefused,
    /// The target has no parent that holds children.
    NoParent,
    /// The target is not among the children of its parent.
    NotAChild,
    /// The sibling to insert before is not among the children; the new entry
    /// went to the end of the list.
    SiblingNotFound,
    /// Both handles name the same node where two nodes are needed.
    SameNode,
    /// The operation is not supported.
    Unsupported,
}

/// What `append` takes: an existing node, or text to put in place.
#[derive(Debug)]
pub enum NodeOrText {
    AppendNode(NodeHandle),
    AppendText(String),
}

/// The mathematical value of a [`NodeOrText`].
pub enum NodeOrTextView {
    AppendNode(NodeHandle),
    AppendText(Seq<char>),
}

impl View for NodeOrText {
    type V = NodeOrTextView;

    open spec fn view(&self) -> NodeOrTextView {
        match *self {
            NodeOrText::AppendNode(node) => NodeOrTextView::AppendNode(node),
            NodeOrText::AppendText(text) => NodeOrTextView::AppendText(text@),
        }
    }
}

/// The rendering mode that a parser reports for a document.
#[derive(Clone, Copy, Debug, PartialEq, Eq, Structural)]
pub enum QuirksMode {
    Quirks,
    LimitedQuirks,
    NoQuirks,
}

/// The tree under construction: the node store and the document's handle.
#[derive(Debug)]
pub struct Dom {
    map: Arena,
    document: Option<NodeHandle>,
}

/// The index of the first entry of the list that equals `target`.
fn find_first(list: &Vec<NodeHandle>, target: NodeHandle) -> (at: Option<usize>)
    ensures
        match at {
            Some(i) => list@.index_of_first(target) == Some(i as int),
            None => list@.index_of_first(target) is None,
        },
{
    let mut i: usize = 0;
    while i < list.len()
        invariant
            i <= list.len(),
            forall|j: int| 0 <= j < i ==> list@[j] != target,
        decreases list.len() - i,
    {
        if handle_eq(list[i], target) {
            proof {
                list@.index_of_first_ensures(target);
            }
            return Some(i);
        }
        i += 1;
    }
    proof {
        list@.index_of_first_ensures(target);
    }
    None
}

/// The entries of the list that differ from `target`, in order, and whether
/// `target` was among the entries.
fn without_handle(list: &Vec<NodeHandle>, target: NodeHandle) -> (out: (Vec<NodeHandle>, bool))
    ensures
        out.0@ == without(list@, target),
        out.1 == list@.contains(target),
{
    let mut kept: Vec<NodeHandle> = Vec::new();
    let mut found = false;
    let ghost keep = differs_from(target);
    let mut i: usize = 0;
    assert(list@.take(0) =~= Seq::<NodeHandle>::empty());
    while i < list.len()
        invariant
            i <= list.len(),
            keep == differs_from(target),
            kept@ == list@.take(i as int).filter(keep),
            found == list@.take(i as int).contains(target),
        decreases list.len() - i,
    {
        let entry = list[i];
        proof {
            lemma_take_next(list@, i as int, target);
            list@.take(i as int).lemma_filter_push(entry, keep);
        }
        if handle_eq(entry, target) {
            found = true;
        } else {
            kept.push(entry);
        }
        i += 1;
    }
    assert(list@.take(list.len() as int) =~= list@);
    (kept, found)
}

/// A copy of a list of handles.
fn copy_handles(list: &Vec<NodeHandle>) -> (copy: Vec<NodeHandle>)
    ensures
        copy@ == list@,
{
    let mut copy: Vec<NodeHandle> = Vec::new();
    let mut i: usize = 0;
    while i < list.len()
        invariant
            i <= list.len(),
            copy@ == list@.take(i as int),
        decreases list.len() - i,
    {
        copy.push(list[i]);
        assert(list@.take(i + 1) =~= list@.take(i as int).push(list@[i as int]));
        i += 1;
    }
    assert(list@.take(list.len() as int) =~= list@);
    copy
}

impl Default for Dom {
    /// An empty tree, without a document node.
    fn default() -> (dom: Dom)
        ensures
            dom@.wf(),
            dom@.nodes.dom() == Set::<NodeHandle>::empty(),
            dom@.document is None,
    {
        Dom::new()
    }
}

impl View for Dom {
    type V = TreeView;

    closed spec fn view(&self) -> TreeView {
        TreeView {
            nodes: Map::new(
                |h: NodeHandle| arena_contents(self.map).contains_key(h),
                |h: NodeHandle| arena_contents(self.map)[h]@,
            ),
            document: self.document,
        }
    }
}

impl Dom {
    /// An empty tree, without a document node.
    pub fn new() -> (dom: Dom)
        ensures
            dom@.wf(),
            dom@.nodes.dom() == Set::<NodeHandle>::empty(),
            dom@.document is None,
    {
        let dom = Dom { map: arena_new(), document: None };
        assert(dom@.nodes.dom() =~= Set::<NodeHandle>::empty());
        dom
    }

    /// The number of nodes in the store.
    pub fn len(&self) -> (n: usize)
        ensures
            n == self@.nodes.len(),
    {
        assert(self@.nodes.dom() =~= arena_contents(self.map).dom());
        arena_len(&self.map)
    }

    /// Whether the store has room for `extra` more nodes.
    pub fn has_room(&self, extra: usize) -> (room: bool)
        ensures
            room == self@.has_room(extra as nat),
    {
        let n: usize = self.len();
        n <= MAX_NODES && extra <= MAX_NODES - n
    }

    /// The handle of the document node, if it was created. Nothing is
    /// created here.
    pub fn document(&self) -> (document: Option<NodeHandle>)
        ensures
            document == self@.document,
    {
        self.document
    }

    /// The handles of all nodes of the store, each once, in no particular
    /// order.
    pub fn handles(&self) -> (all: Vec<NodeHandle>)
        ensures
            all@.no_duplicates(),
            all@.to_set() == self@.nodes.dom(),
    {
        assert(self@.nodes.dom() =~= arena_contents(self.map).dom());
        arena_keys(&self.map)
    }

    /// The handles of the elements whose parent is the document: the roots
    /// of the tree, each once, in no particular order.
    pub fn root_elements(&self) -> (roots: Vec<NodeHandle>)
        ensures
            roots@.no_duplicates(),
            forall|h: NodeHandle|
                roots@.contains(h) <==> is_root_element(self@, h),
    {
        let all = self.handles();
        let mut roots: Vec<NodeHandle> = Vec::new();
        let document = match self.document {
            Some(document) => document,
            None => {
                return roots;
            },
        };
        let mut i: usize = 0;
        while i < all.len()
            invariant
                i <= all.len(),
                all@.no_duplicates(),
                all@.to_set() == self@.nodes.dom(),
                self@.document == Some(document),
                roots@.no_duplicates(),
                forall|h: NodeHandle|
                    roots@.contains(h) <==> all@.take(i as int).contains(h) && is_root_element(
                        self@,
                        h,
                    ),
            decreases all.len() - i,
        {
            let handle = all[i];
            let ghost before = roots@;
            let is_root = match arena_get(&self.map, handle) {
                Some(Node::Element { parent, .. }) => handle_eq(*parent, document),
                _ => false,
            };
            proof {
                assert(all@.to_set().contains(handle));
                lemma_prefix_lacks_next(all@, i as int);
            }
            if is_root {
                proof {
                    lemma_push_no_duplicates(before, handle);
                }
                roots.push(handle);
            }
            proof {
                assert forall|h: NodeHandle|
                    roots@.contains(h) <==> all@.take(i + 1).contains(h) && is_root_element(
                        self@,
                        h,
                    ) by {
                    lemma_take_next(all@, i as int, h);
                    lemma_push_contains(before, handle, h);
                }
            }
            i += 1;
        }
        proof {
            assert(all@.take(all.len() as int) =~= all@);
            assert forall|h: NodeHandle| is_root_element(self@, h) implies all@.contains(h) by {
                assert(all@.to_set().contains(h));
            }
        }
        roots
    }

    /// Resolves a handle: the node that it names, or nothing for a handle
    /// that names no live node.
    pub fn get(&self, handle: NodeHandle) -> (found: Option<&Node>)
        ensures
            found is Some <==> self@.nodes.contains_key(handle),
            found matches Some(node) ==> node@ == self@.nodes[handle],
    {
        arena_get(&self.map, handle)
    }

    /// Stores a node under a fresh handle.
    fn allocate(&mut self, node: Node) -> (handle: NodeHandle)
        requires
            old(self)@.nodes.dom().finite(),
            old(self)@.has_room(1),
        ensures
            !old(self)@.nodes.contains_key(handle),
            final(self)@.nodes == old(self)@.nodes.insert(handle, node@),
            final(self)@.document == old(self)@.document,
    {
        proof {
            assert(self@.nodes.dom() =~= arena_contents(self.map).dom());
        }
        let handle = arena_insert(&mut self.map, node);
        proof {
            assert(self@.nodes =~= old(self)@.nodes.insert(handle, node@));
        }
        handle
    }

    /// Puts `entry` among the children of the element `parent`: before the
    /// first occurrence of the anchor, or at the end.
    fn place_child(&mut self, parent: NodeHandle, anchor: Option<NodeHandle>, entry: NodeHandle) -> (raised:
        Option<Diagnostic>)
        requires
            old(self)@.nodes.contains_key(parent),
            old(self)@.nodes[parent] is Element,
        ensures
            final(self)@.nodes == with_children(
                old(self)@.nodes,
                parent,
                placed(old(self)@.nodes[parent]->Element_0.children, anchor, entry),
            ),
            raised == missing_anchor(old(self)@.nodes[parent]->Element_0.children, anchor),
            final(self)@.document == old(self)@.document,
    {
        let at = match anchor {
            Some(sibling) => match arena_get(&self.map, parent) {
                Some(Node::Element { children, .. }) => find_first(children, sibling),
                _ => None,
            },
            None => None,
        };
        proof {
            if let Some(sibling) = anchor {
                self@.nodes[parent]->Element_0.children.index_of_first_ensures(sibling);
            }
        }
        match arena_get_mut(&mut self.map, parent) {
            Some(Node::Element { children, .. }) => {
                match at {
                    Some(i) => children.insert(i, entry),
                    None => children.push(entry),
                }
            },
            _ => {},
        }
        proof {
            let pre = old(self)@.nodes;
            let list = pre[parent]->Element_0.children;
            assert(self@.nodes =~= with_children(pre, parent, placed(list, anchor, entry)));
        }
        match (anchor, at) {
            (Some(_), None) => Some(Diagnostic::SiblingNotFound),
            _ => None,
        }
    }

    /// Makes `parent` the parent of `child`, if `child` is an element.
    fn set_parent(&mut self, child: NodeHandle, parent: NodeHandle)
        ensures
            final(self)@.nodes == with_parent(old(self)@.nodes, child, parent),
            final(self)@.document == old(self)@.document,
    {
        match arena_get_mut(&mut self.map, child) {
            Some(Node::Element { parent: slot, .. }) => {
                *slot = parent;
            },
            _ => {},
        }
        proof {
            assert(self@.nodes =~= with_parent(old(self)@.nodes, child, parent));
        }
    }

    /// Appends `child` to `parent`: before the first occurrence of the anchor
    /// among the children, or at the end.
    fn append_at(&mut self, parent: NodeHandle, child: NodeOrText, anchor: Option<NodeHandle>) -> (raised:
        Option<Diagnostic>)
        requires
            old(self)@.wf(),
            child is AppendText ==> old(self)@.has_room(1),
        ensures
            final(self)@.wf(),
            append_step(old(self)@, final(self)@, parent, child@, anchor, raised),
    {
        let ghost pre = self@.nodes;
        let policy = match arena_get(&self.map, parent) {
            Some(Node::Element { elem, .. }) => classify(elem),
            Some(_) => {
                return Some(Diagnostic::NotAnElement);
            },
            None => {
                return Some(Diagnostic::UnresolvedHandle);
            },
        };
        match child {
            NodeOrText::AppendNode(node) => {
                match policy {
                    ContentPolicy::Normal => {
                        if arena_get(&self.map, node).is_none() {
                            return Some(Diagnostic::UnresolvedHandle);
                        }
                        let raised = self.place_child(parent, anchor, node);
                        self.set_parent(node, parent);
                        proof {
                            lemma_wf_node_appended(pre, self@.document, parent, node, anchor);
                        }
                        raised
                    },
                    _ => Some(Diagnostic::ContentRefused),
                }
            },
            NodeOrText::AppendText(text) => {
                match policy {
                    ContentPolicy::Normal => {
                        let fresh = self.allocate(Node::Text(text));
                        let raised = self.place_child(parent, anchor, fresh);
                        proof {
                            lemma_wf_text_appended(
                                pre,
                                self@.document,
                                parent,
                                text@,
                                anchor,
                                fresh,
                            );
                        }
                        raised
                    },
                    ContentPolicy::StyleCapturing => {
                        self.extend_style(parent, text.as_str());
                        None
                    },
                    ContentPolicy::ScriptSuppressing => None,
                }
            },
        }
    }

    /// Adds `text` to the source of the stylesheet of a style-bearing element.
    fn extend_style(&mut self, parent: NodeHandle, text: &str)
        requires
            old(self)@.wf(),
            old(self)@.nodes.contains_key(parent),
            old(self)@.nodes[parent] is Element,
            old(self)@.nodes[parent]->Element_0.policy() == ContentPolicy::StyleCapturing,
        ensures
            final(self)@.wf(),
            final(self)@.document == old(self)@.document,
            final(self)@.nodes == style_text_appended(old(self)@.nodes, parent, text@),
    {
        let ghost pre = self@.nodes;
        let sheet = match arena_get(&self.map, parent) {
            Some(Node::Element { children, .. }) => children[0],
            _ => parent,
        };
        match arena_get_mut(&mut self.map, sheet) {
            Some(Node::StyleSheet(unit)) => {
                unit.append_source(text);
            },
            _ => {},
        }
        proof {
            assert(self@.nodes =~= style_text_appended(pre, parent, text@));
            lemma_wf_style_text_appended(pre, self@.document, parent, text@);
        }
    }

    /// The handle of the document node. The first call creates the node;
    /// every later call returns the same handle and creates nothing.
    pub fn get_document(&mut self) -> (document: NodeHandle)
        requires
            old(self)@.wf(),
            old(self)@.document is None ==> old(self)@.has_room(1),
        ensures
            final(self)@.wf(),
            document_step(old(self)@, final(self)@, document),
    {
        match self.document {
            Some(document) => document,
            None => {
                let ghost pre = self@.nodes;
                let document = self.allocate(Node::Document(None));
                self.document = Some(document);
                proof {
                    assert forall|h: NodeHandle| #[trigger]
                        self@.nodes.contains_key(h) && self@.nodes[h]
                            is Document implies h == document by {
                        if h != document {
                            assert(pre.contains_key(h));
                        }
                    }
                    lemma_wf_grow(pre, self@.nodes, self@.document);
                }
                document
            },
        }
    }

    /// A new text node. No other node changes.
    pub fn create_text(&mut self, contents: String) -> (handle: NodeHandle)
        requires
            old(self)@.wf(),
            old(self)@.has_room(1),
        ensures
            final(self)@.wf(),
            leaf_step(old(self)@, final(self)@, NodeView::Text(contents@), handle),
    {
        let ghost pre = self@.nodes;
        let handle = self.allocate(Node::Text(contents));
        proof {
            lemma_wf_extend(pre, self@.nodes, self@.document);
        }
        handle
    }

    /// A new comment node. No other node changes.
    pub fn create_comment(&mut self, contents: String) -> (handle: NodeHandle)
        requires
            old(self)@.wf(),
            old(self)@.has_room(1),
        ensures
            final(self)@.wf(),
            leaf_step(old(self)@, final(self)@, NodeView::Comment(contents@), handle),
    {
        let ghost pre = self@.nodes;
        let handle = self.allocate(Node::Comment(contents));
        proof {
            lemma_wf_extend(pre, self@.nodes, self@.document);
        }
        handle
    }

    /// A new processing instruction. No other node changes.
    pub fn create_pi(&mut self, target: String, contents: String) -> (handle: NodeHandle)
        requires
            old(self)@.wf(),
            old(self)@.has_room(1),
        ensures
            final(self)@.wf(),
            leaf_step(
                old(self)@,
                final(self)@,
                NodeView::ProcessingInstruction { target: target@, contents: contents@ },
                handle,
            ),
    {
        let ghost pre = self@.nodes;
        let handle = self.allocate(Node::ProcessingInstruction { target, contents });
        proof {
            lemma_wf_extend(pre, self@.nodes, self@.document);
        }
        handle
    }

    /// Appends `child` at the end of the children of `parent`.
    ///
    /// A parent that is no live element refuses, and so does a style- or
    /// script-bearing parent that is given a node, or a normal parent that is
    /// given a handle of no live node. Text for a style-bearing parent goes to
    /// the source of its stylesheet, which is parsed anew; text for a
    /// script-bearing parent is dropped; text for a normal parent becomes a
    /// new text node. A refusal changes nothing.
    pub fn append(&mut self, parent: NodeHandle, child: NodeOrText) -> (raised: Option<Diagnostic>)
        requires
            old(self)@.wf(),
            child is AppendText ==> old(self)@.has_room(1),
        ensures
            final(self)@.wf(),
            append_step(old(self)@, final(self)@, parent, child@, None, raised),
    {
        self.append_at(parent, child, None)
    }

    /// Appends `child` to the children of `element`, immediately before the
    /// first occurrence of `prev_sibling`. Where `prev_sibling` is not among
    /// the children, the new entry goes to the end of the list and
    /// `SiblingNotFound` is reported. Everything else is as in `append`.
    pub fn append_based_on_parent_node(
        &mut self,
        element: NodeHandle,
        prev_sibling: NodeHandle,
        child: NodeOrText,
    ) -> (raised: Option<Diagnostic>)
        requires
            old(self)@.wf(),
            child is AppendText ==> old(self)@.has_room(1),
        ensures
            final(self)@.wf(),
            append_step(old(self)@, final(self)@, element, child@, Some(prev_sibling), raised),
    {
        self.append_at(element, child, Some(prev_sibling))
    }

    /// Appends `child` immediately before `sibling` among the children of
    /// the parent of `sibling`. A sibling that is no live element has no
    /// parent to look in: `NoParent` is reported and nothing changes.
    /// Everything else is as in `append_based_on_parent_node`.
    pub fn append_before_sibling(&mut self, sibling: NodeHandle, child: NodeOrText) -> (raised: Option<
        Diagnostic,
    >)
        requires
            old(self)@.wf(),
            child is AppendText ==> old(self)@.has_room(1),
        ensures
            final(self)@.wf(),
            sibling_step(old(self)@, final(self)@, sibling, child@, raised),
    {
        let parent = match arena_get(&self.map, sibling) {
            Some(Node::Element { parent, .. }) => *parent,
            _ => {
                return Some(Diagnostic::NoParent);
            },
        };
        self.append_at(parent, child, Some(sibling))
    }

    /// A new element with the given name and attributes.
    ///
    /// The typed element is made for the local name and gets each attribute
    /// in turn. The element's parent is the document, which is created where
    /// the tree has none. A style-bearing element gets one child, a new
    /// stylesheet whose source is the value of the `style` attribute, or
    /// empty; every other element starts without children.
    pub fn create_element(&mut self, name: QualName, attrs: Vec<Attribute>) -> (handle: NodeHandle)
        requires
            old(self)@.wf(),
            old(self)@.has_room(3),
        ensures
            final(self)@.wf(),
            element_step(old(self)@, final(self)@, name@, attrs_view(attrs@), handle),
    {
        let (elem, style_attr) = typed_element(name.local.as_str(), &attrs);
        let parent = self.get_document();
        let ghost base = self@.nodes;
        let policy = classify(&elem);
        proof {
            lemma_policy_tags();
        }
        let children = match policy {
            ContentPolicy::StyleCapturing => {
                let seed = match style_attr {
                    Some(value) => value,
                    None => String::new(),
                };
                let sheet = self.allocate(Node::StyleSheet(StyleSheet::new(seed)));
                let mut children = Vec::new();
                children.push(sheet);
                children
            },
            _ => Vec::new(),
        };
        let ghost mid = self@.nodes;
        let handle = self.allocate(
            Node::Element { elem, qualified_name: name, attrs, parent, children },
        );
        proof {
            lemma_wf_grow(base, self@.nodes, self@.document);
        }
        handle
    }

    /// Sets the doctype of the document, which is created where the tree has
    /// none. A doctype that was set before is replaced.
    pub fn append_doctype_to_document(&mut self, name: String, public_id: String, system_id: String)
        requires
            old(self)@.wf(),
            old(self)@.document is None ==> old(self)@.has_room(1),
        ensures
            final(self)@.wf(),
            doctype_step(
                old(self)@,
                final(self)@,
                DoctypeView { name: name@, public_id: public_id@, system_id: system_id@ },
            ),
    {
        let document = self.get_document();
        let ghost base = self@.nodes;
        match arena_get_mut(&mut self.map, document) {
            Some(node) => {
                *node = Node::Document(Some(Doctype { name, public_id, system_id }));
            },
            None => {},
        }
        proof {
            let post = base.insert(
                document,
                NodeView::Document(
                    Some(DoctypeView { name: name@, public_id: public_id@, system_id: system_id@ }),
                ),
            );
            assert(self@.nodes =~= post);
            lemma_wf_extend(base, post, self@.document);
        }
    }

    /// Adds each attribute to the element `target`, unless the element has an
    /// attribute of that local name already: what was set first stays. A
    /// target that is no live element refuses.
    pub fn add_attrs_if_missing(&mut self, target: NodeHandle, attrs: Vec<Attribute>) -> (raised:
        Option<Diagnostic>)
        requires
            old(self)@.wf(),
        ensures
            final(self)@.wf(),
            attrs_step(old(self)@, final(self)@, target, attrs_view(attrs@), raised),
    {
        let ghost pre = self@.nodes;
        proof {
            if pre.contains_key(target) {
                assert(node_ok(pre, pre[target]));
            }
        }
        let raised = match arena_get_mut(&mut self.map, target) {
            Some(Node::Element { elem, attrs: list, .. }) => {
                merge_attrs(elem, list, &attrs);
                None
            },
            Some(_) => Some(Diagnostic::NotAnElement),
            None => Some(Diagnostic::UnresolvedHandle),
        };
        proof {
            if raised is None {
                let post = with_merged_attrs(pre, target, attrs_view(attrs@));
                assert(self@.nodes =~= post);
                assert(node_ok(post, post[target])) by {
                    let e = pre[target]->Element_0;
                    assert(pre.contains_key(e.parent));
                    assert forall|i: int| 0 <= i < e.children.len() implies post.contains_key(
                        #[trigger] e.children[i],
                    ) by {
                        assert(pre.contains_key(e.children[i]));
                    }
                    if e.policy() == ContentPolicy::StyleCapturing {
                        assert(pre.contains_key(e.children[0]));
                    }
                }
                lemma_wf_extend(pre, post, self@.document);
            } else {
                assert(self@.nodes =~= pre);
            }
        }
        raised
    }

    /// The qualified name of an element.
    pub fn elem_name(&self, target: NodeHandle) -> (name: &QualName)
        requires
            self@.nodes.contains_key(target),
            self@.nodes[target] is Element,
        ensures
            name@ == self@.nodes[target]->Element_0.qualified_name,
    {
        match arena_get(&self.map, target) {
            Some(Node::Element { qualified_name, .. }) => qualified_name,
            _ => vstd::pervasive::unreached(),
        }
    }

    /// The contents of a template element are not kept: the operation is not
    /// supported, for any target.
    pub fn get_template_contents(&self, target: NodeHandle) -> (contents: Result<NodeHandle, Diagnostic>)
        ensures
            contents is Err,
            contents->Err_0 == Diagnostic::Unsupported,
    {
        Err(Diagnostic::Unsupported)
    }

    /// The tree does not record a quirks mode: the operation is not
    /// supported, and the tree stays as it is.
    pub fn set_quirks_mode(&mut self, mode: QuirksMode) -> (raised: Diagnostic)
        ensures
            raised == Diagnostic::Unsupported,
            *final(self) == *old(self),
    {
        Diagnostic::Unsupported
    }

    /// Takes `target` out of the children of its parent. The node and its
    /// descendants stay in the store.
    ///
    /// Only an element names a parent: for any other target, and for an
    /// element whose parent is the document, `NoParent` is reported. A target
    /// that is not among the children of its parent is reported as
    /// `NotAChild`. Nothing changes where a diagnostic is reported.
    pub fn remove_from_parent(&mut self, target: NodeHandle) -> (raised: Option<Diagnostic>)
        requires
            old(self)@.wf(),
        ensures
            final(self)@.wf(),
            detach_step(old(self)@, final(self)@, target, raised),
    {
        let ghost pre = self@.nodes;
        let parent = match arena_get(&self.map, target) {
            Some(Node::Element { parent, .. }) => *parent,
            Some(_) => {
                return Some(Diagnostic::NoParent);
            },
            None => {
                return Some(Diagnostic::UnresolvedHandle);
            },
        };
        let (kept, found) = match arena_get(&self.map, parent) {
            Some(Node::Element { children, .. }) => without_handle(children, target),
            _ => {
                return Some(Diagnostic::NoParent);
            },
        };
        if !found {
            return Some(Diagnostic::NotAChild);
        }
        match arena_get_mut(&mut self.map, parent) {
            Some(Node::Element { children, .. }) => {
                *children = kept;
            },
            _ => {},
        }
        proof {
            let list = pre[parent]->Element_0.children;
            let post = with_children(pre, parent, without(list, target));
            assert(self@.nodes =~= post);
            lemma_wf_detached(pre, self@.document, parent, target);
        }
        None
    }

    /// Moves the children of `node` to the end of the children of
    /// `new_parent`, in their order, and makes `new_parent` the parent of each
    /// moved element. `node` is left without children.
    ///
    /// Both must be live, normal elements, and different ones; else nothing
    /// changes and a diagnostic is reported.
    pub fn reparent_children(&mut self, node: NodeHandle, new_parent: NodeHandle) -> (raised: Option<
        Diagnostic,
    >)
        requires
            old(self)@.wf(),
        ensures
            final(self)@.wf(),
            reparent_step(old(self)@, final(self)@, node, new_parent, raised),
    {
        let ghost pre = self@.nodes;
        let from_policy = match arena_get(&self.map, node) {
            Some(Node::Element { elem, .. }) => Some(classify(elem)),
            Some(_) => None,
            None => {
                return Some(Diagnostic::UnresolvedHandle);
            },
        };
        let to_policy = match arena_get(&self.map, new_parent) {
            Some(Node::Element { elem, .. }) => Some(classify(elem)),
            Some(_) => None,
            None => {
                return Some(Diagnostic::UnresolvedHandle);
            },
        };
        match (from_policy, to_policy) {
            (Some(ContentPolicy::Normal), Some(ContentPolicy::Normal)) => {},
            (Some(_), Some(_)) => {
                return Some(Diagnostic::ContentRefused);
            },
            _ => {
                return Some(Diagnostic::NotAnElement);
            },
        }
        if handle_eq(node, new_parent) {
            return Some(Diagnostic::SameNode);
        }
        let moved = match arena_get(&self.map, node) {
            Some(Node::Element { children, .. }) => copy_handles(children),
            _ => Vec::new(),
        };
        match arena_get_mut(&mut self.map, node) {
            Some(Node::Element { children, .. }) => {
                children.clear();
            },
            _ => {},
        }
        match arena_get_mut(&mut self.map, new_parent) {
            Some(Node::Element { children, .. }) => {
                let mut tail = copy_handles(&moved);
                children.append(&mut tail);
            },
            _ => {},
        }
        proof {
            assert(moved@.take(0) =~= Seq::<NodeHandle>::empty());
            assert(self@.nodes =~= reparented_upto(pre, node, new_parent, 0));
        }
        let mut i: usize = 0;
        while i < moved.len()
            invariant
                i <= moved.len(),
                pre.contains_key(node),
                pre[node] is Element,
                moved@ == pre[node]->Element_0.children,
                self@.nodes == reparented_upto(pre, node, new_parent, i as int),
                self@.document == old(self)@.document,
            decreases moved.len() - i,
        {
            let ghost before = self@.nodes;
            self.set_parent(moved[i], new_parent);
            proof {
                assert forall|h: NodeHandle|
                    moved@.take(i + 1).contains(h) <==> (h == moved@[i as int] || moved@.take(
                        i as int,
                    ).contains(h)) by {
                    lemma_take_next(moved@, i as int, h);
                }
                assert(self@.nodes =~= reparented_upto(pre, node, new_parent, i + 1));
            }
            i += 1;
        }
        proof {
            lemma_wf_reparented(pre, self@.document, node, new_parent);
        }
        None
    }

    /// Whether two handles name the same node.
    pub fn same_node(&self, x: NodeHandle, y: NodeHandle) -> (same: bool)
        ensures
            same == (x == y),
    {
        handle_eq(x, y)
    }

    /// Ends the construction and hands the tree out.
    pub fn finish(self) -> (dom: Dom)
        ensures
            dom == self,
    {
        self
    }
}

} // verus!
