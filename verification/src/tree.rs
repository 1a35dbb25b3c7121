//! The mathematical model of the tree: the values of its nodes by handle,
//! the invariant of the tree, and what each operation makes of a tree.

use vstd::prelude::*;
use crate::arena::{NodeHandle, MAX_NODES};
use crate::dom::{Diagnostic, NodeOrTextView};
use crate::element::{
    attrs_applied, attrs_merged, style_attr_value, tag_for, AttributeView, QualNameView,
};
use crate::node::{DoctypeView, ElementView, NodeView};
use crate::policy::{policy_of_tag, ContentPolicy};
use crate::stylesheet::{parsed_css, StyleSheetView};

verus! {

/// The mathematical value of a tree: the values of its nodes by handle, and
/// the handle of the document node, once it was created.
#[verifier::ext_equal]
pub struct TreeView {
    pub nodes: Map<NodeHandle, NodeView>,
    pub document: Option<NodeHandle>,
}

impl TreeView {
    /// The invariant of the tree. Every operation keeps it.
    pub open spec fn wf(self) -> bool {
        tree_wf(self.nodes, self.document)
    }

    /// Whether the store has room for `extra` more nodes.
    pub open spec fn has_room(self, extra: nat) -> bool {
        self.nodes.len() + extra <= MAX_NODES
    }
}

/// What must hold of an element in a tree: its typed attributes are those of
/// its attribute list, its parent is a live element or the document, its
/// children are live, a style-bearing element has its stylesheet as only
/// child, and a script-bearing element has no child.
pub open spec fn element_ok(nodes: Map<NodeHandle, NodeView>, e: ElementView) -> bool {
    &&& e.typed_attrs == attrs_applied(e.attrs)
    &&& nodes.contains_key(e.parent)
    &&& (nodes[e.parent] is Element || nodes[e.parent] is Document)
    &&& forall|i: int| 0 <= i < e.children.len() ==> nodes.contains_key(#[trigger] e.children[i])
    &&& e.policy() == ContentPolicy::StyleCapturing ==> e.children.len() == 1
        && nodes[e.children[0]] is StyleSheet
    &&& e.policy() == ContentPolicy::ScriptSuppressing ==> e.children.len() == 0
}

/// What must hold of a node in a tree.
pub open spec fn node_ok(nodes: Map<NodeHandle, NodeView>, node: NodeView) -> bool {
    match node {
        NodeView::Element(e) => element_ok(nodes, e),
        NodeView::StyleSheet(sheet) => sheet.consistent(),
        _ => true,
    }
}

/// The well-formedness of a tree, stated over the values of its nodes: the
/// store is finite, the document handle names the one document node, and
/// every node is in order.
pub open spec fn tree_wf(nodes: Map<NodeHandle, NodeView>, document: Option<NodeHandle>) -> bool {
    &&& nodes.dom().finite()
    &&& document matches Some(d) ==> nodes.contains_key(d) && nodes[d] is Document
    &&& forall|h: NodeHandle| #[trigger]
        nodes.contains_key(h) && nodes[h] is Document ==> document == Some(h)
    &&& forall|h: NodeHandle| #[trigger] nodes.contains_key(h) ==> node_ok(nodes, nodes[h])
}

/// The tree in which the element `h` has the given children.
pub open spec fn with_children(
    nodes: Map<NodeHandle, NodeView>,
    h: NodeHandle,
    children: Seq<NodeHandle>,
) -> Map<NodeHandle, NodeView> {
    nodes.insert(h, NodeView::Element(ElementView { children, ..nodes[h]->Element_0 }))
}

/// The tree in which `h`, if it is an element, has the given parent.
pub open spec fn with_parent(
    nodes: Map<NodeHandle, NodeView>,
    h: NodeHandle,
    parent: NodeHandle,
) -> Map<NodeHandle, NodeView> {
    if nodes.contains_key(h) && nodes[h] is Element {
        nodes.insert(h, NodeView::Element(ElementView { parent, ..nodes[h]->Element_0 }))
    } else {
        nodes
    }
}

/// The children list with a new entry: before the first occurrence of the
/// anchor if there is one, else at the end.
pub open spec fn placed(
    children: Seq<NodeHandle>,
    anchor: Option<NodeHandle>,
    entry: NodeHandle,
) -> Seq<NodeHandle> {
    match anchor {
        Some(sibling) => match children.index_of_first(sibling) {
            Some(i) => children.insert(i, entry),
            None => children.push(entry),
        },
        None => children.push(entry),
    }
}

/// The diagnostic for an anchor that is not among the children.
pub open spec fn missing_anchor(children: Seq<NodeHandle>, anchor: Option<NodeHandle>) -> Option<
    Diagnostic,
> {
    match anchor {
        Some(sibling) => if children.contains(sibling) {
            None
        } else {
            Some(Diagnostic::SiblingNotFound)
        },
        None => None,
    }
}

/// What appending `child` to `parent` reports. Every diagnostic but
/// `SiblingNotFound` is a refusal.
pub open spec fn append_diagnostic(
    nodes: Map<NodeHandle, NodeView>,
    parent: NodeHandle,
    child: NodeOrTextView,
    anchor: Option<NodeHandle>,
) -> Option<Diagnostic> {
    if !nodes.contains_key(parent) {
        Some(Diagnostic::UnresolvedHandle)
    } else if !(nodes[parent] is Element) {
        Some(Diagnostic::NotAnElement)
    } else {
        let e = nodes[parent]->Element_0;
        match child {
            NodeOrTextView::AppendNode(node) => if e.policy() != ContentPolicy::Normal {
                Some(Diagnostic::ContentRefused)
            } else if !nodes.contains_key(node) {
                Some(Diagnostic::UnresolvedHandle)
            } else {
                missing_anchor(e.children, anchor)
            },
            NodeOrTextView::AppendText(_) => if e.policy() == ContentPolicy::Normal {
                missing_anchor(e.children, anchor)
            } else {
                None
            },
        }
    }
}

/// Whether a report says that the operation was refused.
pub open spec fn is_refusal(raised: Option<Diagnostic>) -> bool {
    raised is Some && raised != Some(Diagnostic::SiblingNotFound)
}

/// The tree after the existing node `child` was put among the children of the
/// normal element `parent`: the list has the new entry, and the child, if it
/// is an element, has `parent` as its parent.
pub open spec fn node_appended(
    nodes: Map<NodeHandle, NodeView>,
    parent: NodeHandle,
    child: NodeHandle,
    anchor: Option<NodeHandle>,
) -> Map<NodeHandle, NodeView> {
    with_parent(
        with_children(nodes, parent, placed(nodes[parent]->Element_0.children, anchor, child)),
        child,
        parent,
    )
}

/// The tree after `text` was put, as the fresh text node `fresh`, among the
/// children of the normal element `parent`.
pub open spec fn text_appended(
    nodes: Map<NodeHandle, NodeView>,
    parent: NodeHandle,
    text: Seq<char>,
    anchor: Option<NodeHandle>,
    fresh: NodeHandle,
) -> Map<NodeHandle, NodeView> {
    with_children(
        nodes.insert(fresh, NodeView::Text(text)),
        parent,
        placed(nodes[parent]->Element_0.children, anchor, fresh),
    )
}

/// The tree after `text` was added to the source of the stylesheet of the
/// style-bearing element `parent`.
pub open spec fn style_text_appended(
    nodes: Map<NodeHandle, NodeView>,
    parent: NodeHandle,
    text: Seq<char>,
) -> Map<NodeHandle, NodeView> {
    let sheet = nodes[parent]->Element_0.children[0];
    let source = nodes[sheet]->StyleSheet_0.source + text;
    nodes.insert(
        sheet,
        NodeView::StyleSheet(StyleSheetView { source, rules: parsed_css(source) }),
    )
}

/// The parent that an element names, and nothing for a handle that names no
/// live element.
pub open spec fn parent_of(nodes: Map<NodeHandle, NodeView>, h: NodeHandle) -> Option<NodeHandle> {
    if nodes.contains_key(h) && nodes[h] is Element {
        Some(nodes[h]->Element_0.parent)
    } else {
        None
    }
}

/// The tree with a document node under `document`, which is added, without a
/// doctype, where the tree had none.
pub open spec fn with_document(
    nodes: Map<NodeHandle, NodeView>,
    had: Option<NodeHandle>,
    document: NodeHandle,
) -> Map<NodeHandle, NodeView> {
    if had is Some {
        nodes
    } else {
        nodes.insert(document, NodeView::Document(None))
    }
}

/// How the document handle comes about: it is the one that the tree had, or
/// else a handle that was not live before.
pub open spec fn document_ensured(
    nodes: Map<NodeHandle, NodeView>,
    had: Option<NodeHandle>,
    document: NodeHandle,
) -> bool {
    match had {
        Some(d) => document == d,
        None => !nodes.contains_key(document),
    }
}

/// The source that the stylesheet of a new style-bearing element starts
/// with: the value of its last `style` attribute, or nothing.
pub open spec fn seed_source(attrs: Seq<AttributeView>) -> Seq<char> {
    match style_attr_value(attrs) {
        Some(value) => value,
        None => Seq::empty(),
    }
}

/// What `create_element` leaves. `base` is the tree before the call, with its
/// document node; `post` is the tree after it.
pub open spec fn element_created(
    base: Map<NodeHandle, NodeView>,
    post: Map<NodeHandle, NodeView>,
    document: NodeHandle,
    name: QualNameView,
    attrs: Seq<AttributeView>,
    handle: NodeHandle,
) -> bool {
    &&& !base.contains_key(handle)
    &&& post.contains_key(handle)
    &&& post[handle] matches NodeView::Element(e)
    &&& tag_for(name.local, e.tag)
    &&& e.policy() == policy_of_tag(name.local)
    &&& e.typed_attrs == attrs_applied(attrs)
    &&& e.qualified_name == name
    &&& e.attrs == attrs
    &&& e.parent == document
    &&& if e.policy() == ContentPolicy::StyleCapturing {
        let source = seed_source(attrs);
        &&& e.children.len() == 1
        &&& e.children[0] != handle
        &&& !base.contains_key(e.children[0])
        &&& post == base.insert(
            e.children[0],
            NodeView::StyleSheet(StyleSheetView { source, rules: parsed_css(source) }),
        ).insert(handle, NodeView::Element(e))
    } else {
        &&& e.children.len() == 0
        &&& post == base.insert(handle, NodeView::Element(e))
    }
}

/// What `add_attrs_if_missing` reports.
pub open spec fn element_diagnostic(nodes: Map<NodeHandle, NodeView>, target: NodeHandle) -> Option<
    Diagnostic,
> {
    if !nodes.contains_key(target) {
        Some(Diagnostic::UnresolvedHandle)
    } else if !(nodes[target] is Element) {
        Some(Diagnostic::NotAnElement)
    } else {
        None
    }
}

/// The tree in which the element `h` has the incoming attributes that it
/// lacked.
pub open spec fn with_merged_attrs(
    nodes: Map<NodeHandle, NodeView>,
    h: NodeHandle,
    incoming: Seq<AttributeView>,
) -> Map<NodeHandle, NodeView> {
    let e = nodes[h]->Element_0;
    let attrs = attrs_merged(e.attrs, incoming);
    nodes.insert(
        h,
        NodeView::Element(ElementView { attrs, typed_attrs: attrs_applied(attrs), ..e }),
    )
}

/// The list without the entries that equal `target`.
pub open spec fn without(children: Seq<NodeHandle>, target: NodeHandle) -> Seq<NodeHandle> {
    children.filter(differs_from(target))
}

/// The test for a handle other than `target`.
pub open spec fn differs_from(target: NodeHandle) -> spec_fn(NodeHandle) -> bool {
    |c: NodeHandle| c != target
}

/// What `remove_from_parent` reports.
pub open spec fn detach_diagnostic(nodes: Map<NodeHandle, NodeView>, target: NodeHandle) -> Option<
    Diagnostic,
> {
    if !nodes.contains_key(target) {
        Some(Diagnostic::UnresolvedHandle)
    } else {
        match parent_of(nodes, target) {
            Some(parent) => if !(nodes.contains_key(parent) && nodes[parent] is Element) {
                Some(Diagnostic::NoParent)
            } else if !nodes[parent]->Element_0.children.contains(target) {
                Some(Diagnostic::NotAChild)
            } else {
                None
            },
            None => Some(Diagnostic::NoParent),
        }
    }
}

/// What `reparent_children` reports.
pub open spec fn reparent_diagnostic(
    nodes: Map<NodeHandle, NodeView>,
    from: NodeHandle,
    to: NodeHandle,
) -> Option<Diagnostic> {
    if !nodes.contains_key(from) || !nodes.contains_key(to) {
        Some(Diagnostic::UnresolvedHandle)
    } else if !(nodes[from] is Element) || !(nodes[to] is Element) {
        Some(Diagnostic::NotAnElement)
    } else if nodes[from]->Element_0.policy() != ContentPolicy::Normal
        || nodes[to]->Element_0.policy() != ContentPolicy::Normal {
        Some(Diagnostic::ContentRefused)
    } else if from == to {
        Some(Diagnostic::SameNode)
    } else {
        None
    }
}

/// The tree after the children of `from` were moved to the end of the
/// children of `to`, where the first `done` of them have been told of their
/// new parent.
pub open spec fn reparented_upto(
    nodes: Map<NodeHandle, NodeView>,
    from: NodeHandle,
    to: NodeHandle,
    done: int,
) -> Map<NodeHandle, NodeView> {
    let moved = nodes[from]->Element_0.children;
    Map::new(
        |h: NodeHandle| nodes.contains_key(h),
        |h: NodeHandle|
            match nodes[h] {
                NodeView::Element(e) => NodeView::Element(
                    ElementView {
                        children: if h == from {
                            Seq::empty()
                        } else if h == to {
                            e.children + moved
                        } else {
                            e.children
                        },
                        parent: if moved.take(done).contains(h) {
                            to
                        } else {
                            e.parent
                        },
                        ..e
                    },
                ),
                other => other,
            },
    )
}

/// The tree after the children of `from` were moved to the end of the
/// children of `to`: `from` has no children, `to` has its own and then the
/// moved ones, and each moved element has `to` as its parent.
pub open spec fn reparented(
    nodes: Map<NodeHandle, NodeView>,
    from: NodeHandle,
    to: NodeHandle,
) -> Map<NodeHandle, NodeView> {
    reparented_upto(nodes, from, to, nodes[from]->Element_0.children.len() as int)
}

/// What a performed append leaves: `post` is the tree that `pre` becomes.
pub open spec fn append_result(
    pre: Map<NodeHandle, NodeView>,
    post: Map<NodeHandle, NodeView>,
    parent: NodeHandle,
    child: NodeOrTextView,
    anchor: Option<NodeHandle>,
) -> bool {
    match child {
        NodeOrTextView::AppendNode(node) => post == node_appended(pre, parent, node, anchor),
        NodeOrTextView::AppendText(text) => match pre[parent]->Element_0.policy() {
            ContentPolicy::Normal => exists|fresh: NodeHandle|
                !pre.contains_key(fresh) && post == text_appended(
                    pre,
                    parent,
                    text,
                    anchor,
                    fresh,
                ),
            ContentPolicy::StyleCapturing => post == style_text_appended(pre, parent, text),
            ContentPolicy::ScriptSuppressing => post == pre,
        },
    }
}

/// Whether `h` is a root of the tree: an element whose parent is the
/// document.
pub open spec fn is_root_element(tree: TreeView, h: NodeHandle) -> bool {
    &&& tree.nodes.contains_key(h)
    &&& tree.nodes[h] matches NodeView::Element(e)
    &&& tree.document == Some(e.parent)
}

/// What `get_document` makes of a tree: the document is there, under the
/// handle that is returned, and nothing else has changed.
pub open spec fn document_step(pre: TreeView, post: TreeView, document: NodeHandle) -> bool {
    &&& post.document == Some(document)
    &&& document_ensured(pre.nodes, pre.document, document)
    &&& post.nodes == with_document(pre.nodes, pre.document, document)
}

/// What the creation of a text node, a comment or a processing instruction
/// makes of a tree: the node is there under a fresh handle, and nothing else
/// has changed.
pub open spec fn leaf_step(pre: TreeView, post: TreeView, node: NodeView, handle: NodeHandle) -> bool {
    &&& post.document == pre.document
    &&& !pre.nodes.contains_key(handle)
    &&& post.nodes == pre.nodes.insert(handle, node)
}

/// What `create_element` makes of a tree.
pub open spec fn element_step(
    pre: TreeView,
    post: TreeView,
    name: QualNameView,
    attrs: Seq<AttributeView>,
    handle: NodeHandle,
) -> bool {
    &&& post.document matches Some(document)
    &&& document_ensured(pre.nodes, pre.document, document)
    &&& element_created(
        with_document(pre.nodes, pre.document, document),
        post.nodes,
        document,
        name,
        attrs,
        handle,
    )
}

/// What an append makes of a tree, and what it reports. A refusal changes
/// nothing.
pub open spec fn append_step(
    pre: TreeView,
    post: TreeView,
    parent: NodeHandle,
    child: NodeOrTextView,
    anchor: Option<NodeHandle>,
    raised: Option<Diagnostic>,
) -> bool {
    &&& post.document == pre.document
    &&& raised == append_diagnostic(pre.nodes, parent, child, anchor)
    &&& is_refusal(raised) ==> post.nodes == pre.nodes
    &&& !is_refusal(raised) ==> append_result(pre.nodes, post.nodes, parent, child, anchor)
}

/// What `append_before_sibling` makes of a tree: an append to the parent of
/// the sibling, before the sibling, where the sibling names a parent.
pub open spec fn sibling_step(
    pre: TreeView,
    post: TreeView,
    sibling: NodeHandle,
    child: NodeOrTextView,
    raised: Option<Diagnostic>,
) -> bool {
    match parent_of(pre.nodes, sibling) {
        Some(parent) => append_step(pre, post, parent, child, Some(sibling), raised),
        None => raised == Some(Diagnostic::NoParent) && post == pre,
    }
}

/// What `append_doctype_to_document` makes of a tree: the document is there
/// and has the doctype.
pub open spec fn doctype_step(pre: TreeView, post: TreeView, doctype: DoctypeView) -> bool {
    &&& post.document matches Some(document)
    &&& document_ensured(pre.nodes, pre.document, document)
    &&& post.nodes == with_document(pre.nodes, pre.document, document).insert(
        document,
        NodeView::Document(Some(doctype)),
    )
}

/// What `add_attrs_if_missing` makes of a tree, and what it reports.
pub open spec fn attrs_step(
    pre: TreeView,
    post: TreeView,
    target: NodeHandle,
    attrs: Seq<AttributeView>,
    raised: Option<Diagnostic>,
) -> bool {
    &&& post.document == pre.document
    &&& raised == element_diagnostic(pre.nodes, target)
    &&& raised is Some ==> post.nodes == pre.nodes
    &&& raised is None ==> post.nodes == with_merged_attrs(pre.nodes, target, attrs)
}

/// What `remove_from_parent` makes of a tree, and what it reports: the
/// children of the parent lose every entry that is the target.
pub open spec fn detach_step(
    pre: TreeView,
    post: TreeView,
    target: NodeHandle,
    raised: Option<Diagnostic>,
) -> bool {
    &&& post.document == pre.document
    &&& raised == detach_diagnostic(pre.nodes, target)
    &&& raised is Some ==> post.nodes == pre.nodes
    &&& raised is None ==> {
        let parent = parent_of(pre.nodes, target)->0;
        post.nodes == with_children(
            pre.nodes,
            parent,
            without(pre.nodes[parent]->Element_0.children, target),
        )
    }
}

/// What `reparent_children` makes of a tree, and what it reports.
pub open spec fn reparent_step(
    pre: TreeView,
    post: TreeView,
    from: NodeHandle,
    to: NodeHandle,
    raised: Option<Diagnostic>,
) -> bool {
    &&& post.document == pre.document
    &&& raised == reparent_diagnostic(pre.nodes, from, to)
    &&& raised is Some ==> post.nodes == pre.nodes
    &&& raised is None ==> post.nodes == reparented(pre.nodes, from, to)
}

/// Every entry of a list with a placed entry is the new entry or an old one.
pub proof fn lemma_placed(children: Seq<NodeHandle>, anchor: Option<NodeHandle>, entry: NodeHandle)
    ensures
        placed(children, anchor, entry).len() == children.len() + 1,
        placed(children, anchor, entry).contains(entry),
        forall|i: int|
            0 <= i < children.len() ==> placed(children, anchor, entry).contains(
                #[trigger] children[i],
            ),
        forall|i: int|
            0 <= i < placed(children, anchor, entry).len() ==> {
                let x = #[trigger] placed(children, anchor, entry)[i];
                x == entry || children.contains(x)
            },
{
    let out = placed(children, anchor, entry);
    let at: int = match anchor {
        Some(sibling) => {
            children.index_of_first_ensures(sibling);
            match children.index_of_first(sibling) {
                Some(i) => i,
                None => children.len() as int,
            }
        },
        None => children.len() as int,
    };
    assert(out =~= children.insert(at, entry));
    assert(out[at] == entry);
    assert forall|i: int| 0 <= i < children.len() implies out.contains(#[trigger] children[i]) by {
        if i < at {
            assert(out[i] == children[i]);
        } else {
            assert(out[i + 1] == children[i]);
        }
    }
    assert forall|i: int| 0 <= i < out.len() implies ({
        let x = #[trigger] out[i];
        x == entry || children.contains(x)
    }) by {
        if i < at {
            assert(out[i] == children[i]);
        } else if i > at {
            assert(out[i] == children[i - 1]);
        }
    }
}

/// A tree stays well formed when nodes are added or replaced in a way that
/// keeps every old node's kind, and every node of the new tree is in order.
pub(crate) proof fn lemma_wf_extend(
    pre: Map<NodeHandle, NodeView>,
    post: Map<NodeHandle, NodeView>,
    document: Option<NodeHandle>,
)
    requires
        tree_wf(pre, document),
        post.dom().finite(),
        forall|h: NodeHandle| #[trigger] pre.contains_key(h) ==> post.contains_key(h),
        forall|h: NodeHandle| #[trigger]
            post.contains_key(h) && post[h] is Document ==> pre.contains_key(h) && pre[h] is Document,
        forall|h: NodeHandle| #[trigger]
            pre.contains_key(h) ==> (pre[h] is Document <==> post[h] is Document) && (
            pre[h] is Element <==> post[h] is Element) && (pre[h] is StyleSheet
                <==> post[h] is StyleSheet),
        forall|h: NodeHandle| #[trigger]
            post.contains_key(h) && post[h] != pre[h] ==> node_ok(post, post[h]),
        forall|h: NodeHandle| #[trigger]
            post.contains_key(h) && !pre.contains_key(h) ==> node_ok(post, post[h]),
    ensures
        tree_wf(post, document),
{
    assert forall|h: NodeHandle| #[trigger] post.contains_key(h) implies node_ok(post, post[h]) by {
        if pre.contains_key(h) && post[h] == pre[h] {
            assert(node_ok(pre, pre[h]));
            match pre[h] {
                NodeView::Element(e) => {
                    assert(pre.contains_key(e.parent));
                    assert forall|i: int| 0 <= i < e.children.len() implies post.contains_key(
                        #[trigger] e.children[i],
                    ) by {
                        assert(pre.contains_key(e.children[i]));
                    }
                    if e.policy() == ContentPolicy::StyleCapturing {
                        assert(pre.contains_key(e.children[0]));
                    }
                },
                _ => {},
            }
        }
    }
}

/// A tree stays well formed when nodes that are in order are added under
/// fresh handles, where an added document node is the one that the document
/// handle names.
pub(crate) proof fn lemma_wf_grow(
    pre: Map<NodeHandle, NodeView>,
    post: Map<NodeHandle, NodeView>,
    document: Option<NodeHandle>,
)
    requires
        tree_wf(pre, None) || tree_wf(pre, document),
        post.dom().finite(),
        document matches Some(d) ==> post.contains_key(d) && post[d] is Document,
        forall|h: NodeHandle| #[trigger] pre.contains_key(h) ==> post.contains_key(h) && post[h] == pre[h],
        forall|h: NodeHandle| #[trigger]
            post.contains_key(h) && post[h] is Document ==> document == Some(h),
        forall|h: NodeHandle| #[trigger]
            post.contains_key(h) && !pre.contains_key(h) ==> node_ok(post, post[h]),
    ensures
        tree_wf(post, document),
{
    assert forall|h: NodeHandle| #[trigger] post.contains_key(h) implies node_ok(post, post[h]) by {
        if pre.contains_key(h) {
            assert(node_ok(pre, pre[h]));
            match pre[h] {
                NodeView::Element(e) => {
                    assert(pre.contains_key(e.parent));
                    assert forall|i: int| 0 <= i < e.children.len() implies post.contains_key(
                        #[trigger] e.children[i],
                    ) by {
                        assert(pre.contains_key(e.children[i]));
                    }
                    if e.policy() == ContentPolicy::StyleCapturing {
                        assert(pre.contains_key(e.children[0]));
                    }
                },
                _ => {},
            }
        }
    }
}

/// A list with one more entry at its end holds what the list holds, and that
/// entry.
pub(crate) proof fn lemma_push_contains(list: Seq<NodeHandle>, x: NodeHandle, h: NodeHandle)
    ensures
        list.push(x).contains(h) <==> (h == x || list.contains(h)),
{
    let longer = list.push(x);
    if list.contains(h) {
        let j = choose|j: int| 0 <= j < list.len() && list[j] == h;
        assert(longer[j] == h);
    }
    if longer.contains(h) && h != x {
        let j = choose|j: int| 0 <= j < longer.len() && longer[j] == h;
        assert(list[j] == h);
    }
    if h == x {
        assert(longer[list.len() as int] == h);
    }
}

/// A list without duplicates stays so when an entry that it lacks is put at
/// its end.
pub(crate) proof fn lemma_push_no_duplicates(list: Seq<NodeHandle>, x: NodeHandle)
    requires
        list.no_duplicates(),
        !list.contains(x),
    ensures
        list.push(x).no_duplicates(),
{
    let longer = list.push(x);
    assert forall|a: int, b: int|
        0 <= a < longer.len() && 0 <= b < longer.len() && a != b implies longer[a] != longer[b] by {
        if a < list.len() {
            assert(list.contains(list[a]));
        }
        if b < list.len() {
            assert(list.contains(list[b]));
        }
    }
}

/// A prefix that is one entry longer holds what the shorter prefix holds,
/// and the next entry.
pub(crate) proof fn lemma_take_next(list: Seq<NodeHandle>, i: int, x: NodeHandle)
    requires
        0 <= i < list.len(),
    ensures
        list.take(i + 1) == list.take(i).push(list[i]),
        list.take(i + 1).contains(x) <==> (x == list[i] || list.take(i).contains(x)),
{
    assert(list.take(i + 1) =~= list.take(i).push(list[i]));
    lemma_push_contains(list.take(i), list[i], x);
}

/// In a list without duplicates, no entry is among those before it.
pub(crate) proof fn lemma_prefix_lacks_next(list: Seq<NodeHandle>, i: int)
    requires
        0 <= i < list.len(),
        list.no_duplicates(),
    ensures
        !list.take(i).contains(list[i]),
{
    if list.take(i).contains(list[i]) {
        let j = choose|j: int| 0 <= j < i && list.take(i)[j] == list[i];
        assert(list[j] == list[i]);
    }
}

/// Taking a child out of the children of its parent keeps the tree well
/// formed.
pub(crate) proof fn lemma_wf_detached(
    pre: Map<NodeHandle, NodeView>,
    document: Option<NodeHandle>,
    parent: NodeHandle,
    target: NodeHandle,
)
    requires
        tree_wf(pre, document),
        pre.contains_key(parent),
        pre[parent] is Element,
        pre.contains_key(target),
        pre[target] is Element,
        pre[parent]->Element_0.children.contains(target),
    ensures
        tree_wf(
            with_children(pre, parent, without(pre[parent]->Element_0.children, target)),
            document,
        ),
{
    let list = pre[parent]->Element_0.children;
    let keep = differs_from(target);
    let post = with_children(pre, parent, without(list, target));
    assert(node_ok(pre, pre[parent]));
    let e = post[parent]->Element_0;
    assert(node_ok(post, post[parent])) by {
        assert(post.contains_key(e.parent));
        assert forall|i: int| 0 <= i < e.children.len() implies post.contains_key(
            #[trigger] e.children[i],
        ) by {
            list.lemma_filter_contains_rev(keep, e.children[i]);
        }
        if e.policy() == ContentPolicy::StyleCapturing {
            let j = choose|j: int| 0 <= j < list.len() && list[j] == target;
            assert(list[0] == target);
        }
    }
    lemma_wf_extend(pre, post, document);
}

/// Moving the children of one normal element to another keeps the tree well
/// formed.
pub(crate) proof fn lemma_wf_reparented(
    pre: Map<NodeHandle, NodeView>,
    document: Option<NodeHandle>,
    from: NodeHandle,
    to: NodeHandle,
)
    requires
        tree_wf(pre, document),
        reparent_diagnostic(pre, from, to) is None,
    ensures
        tree_wf(reparented(pre, from, to), document),
{
    let moved = pre[from]->Element_0.children;
    let post = reparented(pre, from, to);
    assert(post.dom() =~= pre.dom());
    assert(node_ok(pre, pre[from]));
    assert(node_ok(pre, pre[to]));
    assert forall|h: NodeHandle| #[trigger]
        post.contains_key(h) && post[h] != pre[h] implies node_ok(post, post[h]) by {
        assert(pre.contains_key(h));
        assert(node_ok(pre, pre[h]));
        let old_e = pre[h]->Element_0;
        let e = post[h]->Element_0;
        assert(pre.contains_key(old_e.parent));
        assert(post.contains_key(e.parent));
        assert forall|i: int| 0 <= i < e.children.len() implies post.contains_key(
            #[trigger] e.children[i],
        ) by {
            if h == to {
                if i < old_e.children.len() {
                    assert(pre.contains_key(old_e.children[i]));
                } else {
                    assert(pre.contains_key(moved[i - old_e.children.len()]));
                }
            } else {
                assert(pre.contains_key(old_e.children[i]));
            }
        }
        if e.policy() == ContentPolicy::StyleCapturing {
            assert(pre.contains_key(old_e.children[0]));
        }
    }
    lemma_wf_extend(pre, post, document);
}

/// Appending an existing node to a normal element keeps the tree well formed.
pub(crate) proof fn lemma_wf_node_appended(
    pre: Map<NodeHandle, NodeView>,
    document: Option<NodeHandle>,
    parent: NodeHandle,
    child: NodeHandle,
    anchor: Option<NodeHandle>,
)
    requires
        tree_wf(pre, document),
        pre.contains_key(parent),
        pre[parent] is Element,
        pre[parent]->Element_0.policy() == ContentPolicy::Normal,
        pre.contains_key(child),
    ensures
        tree_wf(node_appended(pre, parent, child, anchor), document),
{
    let list = pre[parent]->Element_0.children;
    let mid = with_children(pre, parent, placed(list, anchor, child));
    let post = node_appended(pre, parent, child, anchor);
    lemma_placed(list, anchor, child);
    assert(node_ok(pre, pre[parent]));
    assert(node_ok(pre, pre[child]));
    assert forall|h: NodeHandle| #[trigger]
        post.contains_key(h) && post[h] != pre[h] implies node_ok(post, post[h]) by {
        assert(pre.contains_key(h));
        assert(node_ok(pre, pre[h]));
        let e = post[h]->Element_0;
        assert(post.contains_key(e.parent));
        assert forall|i: int| 0 <= i < e.children.len() implies post.contains_key(
            #[trigger] e.children[i],
        ) by {
            if h == parent {
                let x = placed(list, anchor, child)[i];
                if x != child {
                    assert(list.contains(x));
                }
            } else {
                assert(pre.contains_key(pre[h]->Element_0.children[i]));
            }
        }
        if e.policy() == ContentPolicy::StyleCapturing {
            assert(pre.contains_key(pre[h]->Element_0.children[0]));
        }
    }
    lemma_wf_extend(pre, post, document);
}

/// Appending text as a fresh text node to a normal element keeps the tree
/// well formed.
pub(crate) proof fn lemma_wf_text_appended(
    pre: Map<NodeHandle, NodeView>,
    document: Option<NodeHandle>,
    parent: NodeHandle,
    text: Seq<char>,
    anchor: Option<NodeHandle>,
    fresh: NodeHandle,
)
    requires
        tree_wf(pre, document),
        pre.contains_key(parent),
        pre[parent] is Element,
        pre[parent]->Element_0.policy() == ContentPolicy::Normal,
        !pre.contains_key(fresh),
    ensures
        tree_wf(text_appended(pre, parent, text, anchor, fresh), document),
{
    let list = pre[parent]->Element_0.children;
    let post = text_appended(pre, parent, text, anchor, fresh);
    lemma_placed(list, anchor, fresh);
    assert(node_ok(pre, pre[parent]));
    assert forall|h: NodeHandle| #[trigger]
        post.contains_key(h) && post[h] != pre[h] && pre.contains_key(h) implies node_ok(
        post,
        post[h],
    ) by {
        assert(h == parent);
        let e = post[h]->Element_0;
        assert(post.contains_key(e.parent));
        assert forall|i: int| 0 <= i < e.children.len() implies post.contains_key(
            #[trigger] e.children[i],
        ) by {
            let x = placed(list, anchor, fresh)[i];
            if x != fresh {
                assert(list.contains(x));
            }
        }
    }
    lemma_wf_extend(pre, post, document);
}

/// `get_document` keeps the tree well formed.
pub proof fn lemma_document_step_wf(pre: TreeView, post: TreeView, document: NodeHandle)
    requires
        pre.wf(),
        document_step(pre, post, document),
    ensures
        post.wf(),
{
    if pre.document is None {
        assert forall|h: NodeHandle| #[trigger]
            post.nodes.contains_key(h) && post.nodes[h] is Document implies h == document by {
            if h != document {
                assert(pre.nodes.contains_key(h));
            }
        }
        lemma_wf_grow(pre.nodes, post.nodes, post.document);
    }
}

/// The creation of a text node, a comment or a processing instruction keeps
/// the tree well formed.
pub proof fn lemma_leaf_step_wf(pre: TreeView, post: TreeView, node: NodeView, handle: NodeHandle)
    requires
        pre.wf(),
        leaf_step(pre, post, node, handle),
        node is Text || node is Comment || node is ProcessingInstruction,
    ensures
        post.wf(),
{
    lemma_wf_extend(pre.nodes, post.nodes, post.document);
}

/// `create_element` keeps the tree well formed.
pub proof fn lemma_element_step_wf(
    pre: TreeView,
    post: TreeView,
    name: QualNameView,
    attrs: Seq<AttributeView>,
    handle: NodeHandle,
)
    requires
        pre.wf(),
        element_step(pre, post, name, attrs, handle),
    ensures
        post.wf(),
{
    let document = post.document->0;
    assert forall|h: NodeHandle| #[trigger]
        post.nodes.contains_key(h) && post.nodes[h] is Document implies h == document by {
        if h != document {
            assert(pre.nodes.contains_key(h));
        }
    }
    lemma_wf_grow(pre.nodes, post.nodes, post.document);
}

/// An append keeps the tree well formed.
pub proof fn lemma_append_step_wf(
    pre: TreeView,
    post: TreeView,
    parent: NodeHandle,
    child: NodeOrTextView,
    anchor: Option<NodeHandle>,
    raised: Option<Diagnostic>,
)
    requires
        pre.wf(),
        append_step(pre, post, parent, child, anchor, raised),
    ensures
        post.wf(),
{
    if !is_refusal(raised) {
        match child {
            NodeOrTextView::AppendNode(node) => {
                lemma_wf_node_appended(pre.nodes, pre.document, parent, node, anchor);
            },
            NodeOrTextView::AppendText(text) => {
                match pre.nodes[parent]->Element_0.policy() {
                    ContentPolicy::Normal => {
                        let fresh = choose|fresh: NodeHandle|
                            !pre.nodes.contains_key(fresh) && post.nodes == text_appended(
                                pre.nodes,
                                parent,
                                text,
                                anchor,
                                fresh,
                            );
                        lemma_wf_text_appended(
                            pre.nodes,
                            pre.document,
                            parent,
                            text,
                            anchor,
                            fresh,
                        );
                    },
                    ContentPolicy::StyleCapturing => {
                        lemma_wf_style_text_appended(pre.nodes, pre.document, parent, text);
                    },
                    ContentPolicy::ScriptSuppressing => {},
                }
            },
        }
    }
}

/// Text for the stylesheet of a style-bearing element keeps the tree well
/// formed.
pub(crate) proof fn lemma_wf_style_text_appended(
    pre: Map<NodeHandle, NodeView>,
    document: Option<NodeHandle>,
    parent: NodeHandle,
    text: Seq<char>,
)
    requires
        tree_wf(pre, document),
        pre.contains_key(parent),
        pre[parent] is Element,
        pre[parent]->Element_0.policy() == ContentPolicy::StyleCapturing,
    ensures
        tree_wf(style_text_appended(pre, parent, text), document),
{
    assert(node_ok(pre, pre[parent]));
    assert(pre.contains_key(pre[parent]->Element_0.children[0]));
    lemma_wf_extend(pre, style_text_appended(pre, parent, text), document);
}

/// `append_doctype_to_document` keeps the tree well formed.
pub proof fn lemma_doctype_step_wf(pre: TreeView, post: TreeView, doctype: DoctypeView)
    requires
        pre.wf(),
        doctype_step(pre, post, doctype),
    ensures
        post.wf(),
{
    let document = post.document->0;
    let base = TreeView {
        nodes: with_document(pre.nodes, pre.document, document),
        document: Some(document),
    };
    lemma_document_step_wf(pre, base, document);
    lemma_wf_extend(base.nodes, post.nodes, post.document);
}

/// `add_attrs_if_missing` keeps the tree well formed.
pub proof fn lemma_attrs_step_wf(
    pre: TreeView,
    post: TreeView,
    target: NodeHandle,
    attrs: Seq<AttributeView>,
    raised: Option<Diagnostic>,
)
    requires
        pre.wf(),
        attrs_step(pre, post, target, attrs, raised),
    ensures
        post.wf(),
{
    if raised is None {
        assert(node_ok(pre.nodes, pre.nodes[target]));
        assert(node_ok(post.nodes, post.nodes[target])) by {
            let e = pre.nodes[target]->Element_0;
            assert(pre.nodes.contains_key(e.parent));
            assert forall|i: int| 0 <= i < e.children.len() implies post.nodes.contains_key(
                #[trigger] e.children[i],
            ) by {
                assert(pre.nodes.contains_key(e.children[i]));
            }
            if e.policy() == ContentPolicy::StyleCapturing {
                assert(pre.nodes.contains_key(e.children[0]));
            }
        }
        lemma_wf_extend(pre.nodes, post.nodes, post.document);
    }
}

/// `remove_from_parent` keeps the tree well formed.
pub proof fn lemma_detach_step_wf(
    pre: TreeView,
    post: TreeView,
    target: NodeHandle,
    raised: Option<Diagnostic>,
)
    requires
        pre.wf(),
        detach_step(pre, post, target, raised),
    ensures
        post.wf(),
{
    if raised is None {
        lemma_wf_detached(pre.nodes, pre.document, parent_of(pre.nodes, target)->0, target);
    }
}

/// `reparent_children` keeps the tree well formed.
pub proof fn lemma_reparent_step_wf(
    pre: TreeView,
    post: TreeView,
    from: NodeHandle,
    to: NodeHandle,
    raised: Option<Diagnostic>,
)
    requires
        pre.wf(),
        reparent_step(pre, post, from, to, raised),
    ensures
        post.wf(),
{
    if raised is None {
        lemma_wf_reparented(pre.nodes, pre.document, from, to);
    }
}

} // verus!
