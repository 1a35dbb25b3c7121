//! Laws of the tree builder. Each is proved from what the operations state
//! of themselves, over the values of the trees before and after.

use vstd::prelude::*;
use vstd::set_lib::{lemma_len_subset, lemma_set_disjoint_lens};
use crate::arena::NodeHandle;
use crate::dom::{Diagnostic, NodeOrTextView};
use crate::element::{AttributeView, QualNameView};
use crate::node::{DoctypeView, NodeView};
use crate::policy::ContentPolicy;
use crate::tree::{
    append_step, attrs_step, detach_step, differs_from, doctype_step, document_step, element_step,
    is_refusal, leaf_step, lemma_append_step_wf, lemma_attrs_step_wf, lemma_detach_step_wf,
    lemma_doctype_step_wf, lemma_document_step_wf, lemma_element_step_wf, lemma_leaf_step_wf,
    lemma_placed, lemma_reparent_step_wf, node_ok, parent_of, reparent_step, sibling_step,
    without, TreeView,
};

verus! {

/// One call of an operation of the tree builder, with what it returned.
#[allow(inconsistent_fields)]
pub enum Event {
    GetDocument { document: NodeHandle },
    CreateElement { name: QualNameView, attrs: Seq<AttributeView>, handle: NodeHandle },
    CreateText { contents: Seq<char>, handle: NodeHandle },
    CreateComment { contents: Seq<char>, handle: NodeHandle },
    CreatePi { target: Seq<char>, contents: Seq<char>, handle: NodeHandle },
    Append {
        parent: NodeHandle,
        child: NodeOrTextView,
        anchor: Option<NodeHandle>,
        raised: Option<Diagnostic>,
    },
    AppendBeforeSibling { sibling: NodeHandle, child: NodeOrTextView, raised: Option<Diagnostic> },
    AppendDoctype { doctype: DoctypeView },
    AddAttrs { target: NodeHandle, attrs: Seq<AttributeView>, raised: Option<Diagnostic> },
    RemoveFromParent { target: NodeHandle, raised: Option<Diagnostic> },
    ReparentChildren { from: NodeHandle, to: NodeHandle, raised: Option<Diagnostic> },
}

/// Whether the event leads from the tree `pre` to the tree `post`.
pub open spec fn step(pre: TreeView, event: Event, post: TreeView) -> bool {
    match event {
        Event::GetDocument { document } => document_step(pre, post, document),
        Event::CreateElement { name, attrs, handle } => element_step(
            pre,
            post,
            name,
            attrs,
            handle,
        ),
        Event::CreateText { contents, handle } => leaf_step(
            pre,
            post,
            NodeView::Text(contents),
            handle,
        ),
        Event::CreateComment { contents, handle } => leaf_step(
            pre,
            post,
            NodeView::Comment(contents),
            handle,
        ),
        Event::CreatePi { target, contents, handle } => leaf_step(
            pre,
            post,
            NodeView::ProcessingInstruction { target, contents },
            handle,
        ),
        Event::Append { parent, child, anchor, raised } => append_step(
            pre,
            post,
            parent,
            child,
            anchor,
            raised,
        ),
        Event::AppendBeforeSibling { sibling, child, raised } => sibling_step(
            pre,
            post,
            sibling,
            child,
            raised,
        ),
        Event::AppendDoctype { doctype } => doctype_step(pre, post, doctype),
        Event::AddAttrs { target, attrs, raised } => attrs_step(pre, post, target, attrs, raised),
        Event::RemoveFromParent { target, raised } => detach_step(pre, post, target, raised),
        Event::ReparentChildren { from, to, raised } => reparent_step(pre, post, from, to, raised),
    }
}

/// A run of the tree builder: it starts with a well-formed tree, and each
/// event turns a tree into the next one.
pub open spec fn is_run(states: Seq<TreeView>, events: Seq<Event>) -> bool {
    &&& states.len() == events.len() + 1
    &&& states[0].wf()
    &&& forall|i: int| 0 <= i < events.len() ==> step(states[i], #[trigger] events[i], states[i + 1])
}

/// Every event keeps the tree well formed.
pub proof fn lemma_step_keeps_wf(pre: TreeView, event: Event, post: TreeView)
    requires
        pre.wf(),
        step(pre, event, post),
    ensures
        post.wf(),
{
    match event {
        Event::GetDocument { document } => lemma_document_step_wf(pre, post, document),
        Event::CreateElement { name, attrs, handle } => lemma_element_step_wf(
            pre,
            post,
            name,
            attrs,
            handle,
        ),
        Event::CreateText { contents, handle } => lemma_leaf_step_wf(
            pre,
            post,
            NodeView::Text(contents),
            handle,
        ),
        Event::CreateComment { contents, handle } => lemma_leaf_step_wf(
            pre,
            post,
            NodeView::Comment(contents),
            handle,
        ),
        Event::CreatePi { target, contents, handle } => lemma_leaf_step_wf(
            pre,
            post,
            NodeView::ProcessingInstruction { target, contents },
            handle,
        ),
        Event::Append { parent, child, anchor, raised } => lemma_append_step_wf(
            pre,
            post,
            parent,
            child,
            anchor,
            raised,
        ),
        Event::AppendBeforeSibling { sibling, child, raised } => {
            match parent_of(pre.nodes, sibling) {
                Some(parent) => lemma_append_step_wf(
                    pre,
                    post,
                    parent,
                    child,
                    Some(sibling),
                    raised,
                ),
                None => {},
            }
        },
        Event::AppendDoctype { doctype } => lemma_doctype_step_wf(pre, post, doctype),
        Event::AddAttrs { target, attrs, raised } => lemma_attrs_step_wf(
            pre,
            post,
            target,
            attrs,
            raised,
        ),
        Event::RemoveFromParent { target, raised } => lemma_detach_step_wf(
            pre,
            post,
            target,
            raised,
        ),
        Event::ReparentChildren { from, to, raised } => lemma_reparent_step_wf(
            pre,
            post,
            from,
            to,
            raised,
        ),
    }
}

/// Every tree of a run is well formed.
pub proof fn lemma_run_keeps_wf(states: Seq<TreeView>, events: Seq<Event>, i: int)
    requires
        is_run(states, events),
        0 <= i < states.len(),
    ensures
        states[i].wf(),
    decreases i,
{
    if i > 0 {
        lemma_run_keeps_wf(states, events, i - 1);
        assert(step(states[i - 1], events[i - 1], states[i]));
        lemma_step_keeps_wf(states[i - 1], events[i - 1], states[i]);
    }
}

/// The number of elements that the events created.
pub open spec fn creations(events: Seq<Event>) -> nat
    decreases events.len(),
{
    if events.len() == 0 {
        0
    } else {
        creations(events.drop_last()) + if events.last() is CreateElement {
            1nat
        } else {
            0nat
        }
    }
}

/// The handles of the elements of a tree.
pub open spec fn elements(tree: TreeView) -> Set<NodeHandle> {
    Set::new(|h: NodeHandle| tree.nodes.contains_key(h) && tree.nodes[h] is Element)
}

/// Whether `parent` is an element that has `h` among its children.
pub open spec fn lists_child(tree: TreeView, parent: NodeHandle, h: NodeHandle) -> bool {
    &&& tree.nodes.contains_key(parent)
    &&& tree.nodes[parent] matches NodeView::Element(p)
    &&& p.children.contains(h)
}

/// Whether `h` is an element that hangs in the tree: its parent is the
/// document, or an element that has it among its children.
pub open spec fn is_attached(tree: TreeView, h: NodeHandle) -> bool {
    &&& tree.nodes.contains_key(h)
    &&& tree.nodes[h] matches NodeView::Element(e)
    &&& tree.document == Some(e.parent) || lists_child(tree, e.parent, h)
}

/// Whether a chain of elements, each one hanging under the next and at most
/// `depth` of them after `h`, leads from `h` up to the document.
pub open spec fn reaches(tree: TreeView, h: NodeHandle, depth: nat) -> bool
    decreases depth,
{
    &&& is_attached(tree, h)
    &&& tree.document == Some(tree.nodes[h]->Element_0.parent) || (depth > 0 && reaches(
        tree,
        tree.nodes[h]->Element_0.parent,
        (depth - 1) as nat,
    ))
}

/// Whether the element `h` can be reached from the document.
pub open spec fn is_reachable(tree: TreeView, h: NodeHandle) -> bool {
    exists|depth: nat| reaches(tree, h, depth)
}

/// The elements that can be reached from the document.
pub open spec fn reachable(tree: TreeView) -> Set<NodeHandle> {
    Set::new(|h: NodeHandle| is_reachable(tree, h))
}

/// The elements that cannot be reached from the document: those that were
/// taken out of the children of their parent, and what hangs under them.
pub open spec fn unreachable(tree: TreeView) -> Set<NodeHandle> {
    Set::new(|h: NodeHandle| elements(tree).contains(h) && !is_reachable(tree, h))
}

/// An event changes the set of elements only by the element that it creates.
pub proof fn lemma_step_elements(pre: TreeView, event: Event, post: TreeView)
    requires
        pre.wf(),
        step(pre, event, post),
    ensures
        event matches Event::CreateElement { handle, .. } ==> !elements(pre).contains(handle)
            && elements(post) == elements(pre).insert(handle),
        !(event is CreateElement) ==> elements(post) == elements(pre),
{
    match event {
        Event::CreateElement { handle, .. } => {
            assert(elements(post) =~= elements(pre).insert(handle));
        },
        Event::Append { parent, child, anchor, raised } => {
            lemma_append_elements(pre, post, parent, child, anchor, raised);
        },
        Event::AppendBeforeSibling { sibling, child, raised } => {
            match parent_of(pre.nodes, sibling) {
                Some(parent) => {
                    lemma_append_elements(pre, post, parent, child, Some(sibling), raised);
                },
                None => {},
            }
        },
        Event::AppendDoctype { .. } => {
            if let Some(d) = pre.document {
                assert(pre.nodes.contains_key(d));
            }
            assert(elements(post) =~= elements(pre));
        },
        _ => {
            assert(elements(post) =~= elements(pre));
        },
    }
}

/// An append creates no element and removes none.
proof fn lemma_append_elements(
    pre: TreeView,
    post: TreeView,
    parent: NodeHandle,
    child: NodeOrTextView,
    anchor: Option<NodeHandle>,
    raised: Option<Diagnostic>,
)
    requires
        pre.wf(),
        append_step(pre, post, parent, child, anchor, raised),
    ensures
        elements(post) == elements(pre),
{
    if pre.nodes.contains_key(parent) {
        assert(node_ok(pre.nodes, pre.nodes[parent]));
    }
    assert(elements(post) =~= elements(pre));
}

/// After any run that starts with the empty tree, the tree holds as many
/// elements as were created, and the number of those that can be reached
/// from the document is the number of created ones less the number of those
/// that cannot.
pub proof fn lemma_element_census(states: Seq<TreeView>, events: Seq<Event>)
    requires
        is_run(states, events),
        states[0].nodes.dom() == Set::<NodeHandle>::empty(),
    ensures
        elements(states.last()).finite(),
        elements(states.last()).len() == creations(events),
        unreachable(states.last()).finite(),
        reachable(states.last()).finite(),
        reachable(states.last()).len() == creations(events) - unreachable(states.last()).len(),
    decreases events.len(),
{
    let last = states.last();
    if events.len() == 0 {
        assert(elements(last) =~= Set::<NodeHandle>::empty());
    } else {
        let before = states.drop_last();
        let earlier = events.drop_last();
        assert(is_run(before, earlier)) by {
            assert forall|i: int| 0 <= i < earlier.len() implies step(
                before[i],
                #[trigger] earlier[i],
                before[i + 1],
            ) by {
                assert(step(states[i], events[i], states[i + 1]));
            }
        }
        lemma_element_census(before, earlier);
        let k = events.len() - 1;
        assert(before.last() == states[k]);
        assert(step(states[k], events[k], states[k + 1]));
        lemma_run_keeps_wf(states, events, k);
        lemma_step_elements(states[k], events[k], last);
    }
    lemma_run_keeps_wf(states, events, states.len() - 1);
    lemma_census_split(last);
}

/// The elements of a tree are those that can be reached from the document
/// and those that cannot, and no element is both.
pub proof fn lemma_census_split(tree: TreeView)
    requires
        tree.wf(),
    ensures
        elements(tree).finite(),
        reachable(tree).finite(),
        unreachable(tree).finite(),
        reachable(tree).disjoint(unreachable(tree)),
        reachable(tree) + unreachable(tree) == elements(tree),
        reachable(tree).len() + unreachable(tree).len() == elements(tree).len(),
{
    assert forall|h: NodeHandle| reachable(tree).contains(h) implies elements(tree).contains(h) by {
        let depth = choose|depth: nat| reaches(tree, h, depth);
        assert(is_attached(tree, h));
    }
    lemma_len_subset(elements(tree), tree.nodes.dom());
    lemma_len_subset(reachable(tree), elements(tree));
    lemma_len_subset(unreachable(tree), elements(tree));
    assert(reachable(tree) + unreachable(tree) =~= elements(tree));
    lemma_set_disjoint_lens(reachable(tree), unreachable(tree));
}

/// An element that does not hang under its parent cannot be reached, and
/// neither can an element whose parent is an element that cannot be reached.
pub proof fn lemma_unreachable_below(tree: TreeView, h: NodeHandle)
    requires
        elements(tree).contains(h),
    ensures
        !is_attached(tree, h) ==> !is_reachable(tree, h),
        tree.document != Some(tree.nodes[h]->Element_0.parent) && !is_reachable(
            tree,
            tree.nodes[h]->Element_0.parent,
        ) ==> !is_reachable(tree, h),
{
    if is_reachable(tree, h) {
        let depth = choose|depth: nat| reaches(tree, h, depth);
        if tree.document != Some(tree.nodes[h]->Element_0.parent) {
            assert(reaches(tree, tree.nodes[h]->Element_0.parent, (depth - 1) as nat));
        }
    }
}

/// A new element hangs under the document, and so can be reached from it.
pub proof fn lemma_created_element_is_reachable(
    pre: TreeView,
    post: TreeView,
    name: QualNameView,
    attrs: Seq<AttributeView>,
    handle: NodeHandle,
)
    requires
        element_step(pre, post, name, attrs, handle),
    ensures
        is_attached(post, handle),
        post.nodes[handle]->Element_0.parent == post.document->0,
        is_reachable(post, handle),
{
    assert(reaches(post, handle, 0));
}

/// An element that was appended to a normal element hangs under that
/// element, and can be reached from the document where that element can.
pub proof fn lemma_appended_element_is_reachable(
    pre: TreeView,
    post: TreeView,
    parent: NodeHandle,
    child: NodeHandle,
    anchor: Option<NodeHandle>,
    raised: Option<Diagnostic>,
)
    requires
        pre.wf(),
        append_step(pre, post, parent, NodeOrTextView::AppendNode(child), anchor, raised),
        !is_refusal(raised),
        pre.nodes[child] is Element,
    ensures
        is_attached(post, child),
        post.nodes[child]->Element_0.parent == parent,
        post.nodes[parent]->Element_0.children.contains(child),
        is_reachable(post, parent) ==> is_reachable(post, child),
{
    lemma_placed(pre.nodes[parent]->Element_0.children, anchor, child);
    if is_reachable(post, parent) {
        let depth = choose|depth: nat| reaches(post, parent, depth);
        assert(reaches(post, child, depth + 1));
    }
}

/// Calling `get_document` again returns the same handle and leaves the tree
/// as it is: no second document node comes about.
pub proof fn lemma_document_is_created_once(
    pre: TreeView,
    mid: TreeView,
    post: TreeView,
    first: NodeHandle,
    second: NodeHandle,
)
    requires
        document_step(pre, mid, first),
        document_step(mid, post, second),
    ensures
        second == first,
        post == mid,
{
}

/// In a well-formed tree the only document node is the one that the document
/// handle names.
pub proof fn lemma_one_document(tree: TreeView, a: NodeHandle, b: NodeHandle)
    requires
        tree.wf(),
        tree.nodes.contains_key(a),
        tree.nodes[a] is Document,
        tree.nodes.contains_key(b),
        tree.nodes[b] is Document,
    ensures
        a == b,
        tree.document == Some(a),
{
}

/// Text that is appended to a style-bearing element creates no node: the
/// element keeps its one child, the stylesheet, whose source grows by the
/// text.
pub proof fn lemma_style_text_goes_to_stylesheet(
    pre: TreeView,
    post: TreeView,
    parent: NodeHandle,
    text: Seq<char>,
    anchor: Option<NodeHandle>,
    raised: Option<Diagnostic>,
)
    requires
        pre.wf(),
        pre.nodes.contains_key(parent),
        pre.nodes[parent] matches NodeView::Element(e) && e.policy()
            == ContentPolicy::StyleCapturing,
        append_step(pre, post, parent, NodeOrTextView::AppendText(text), anchor, raised),
    ensures
        raised is None,
        post.nodes.dom() == pre.nodes.dom(),
        forall|h: NodeHandle|
            post.nodes.contains_key(h) && #[trigger] post.nodes[h] is Text ==> pre.nodes[h] is Text,
        post.nodes[parent] == pre.nodes[parent],
        post.nodes[parent]->Element_0.children.len() == 1,
        post.nodes[post.nodes[parent]->Element_0.children[0]] matches NodeView::StyleSheet(sheet)
            && sheet.consistent() && sheet.source == pre.nodes[pre.nodes[parent]->Element_0.children[0]]->StyleSheet_0.source
            + text,
{
    assert(node_ok(pre.nodes, pre.nodes[parent]));
    let sheet = pre.nodes[parent]->Element_0.children[0];
    assert(pre.nodes.contains_key(sheet));
    assert(post.nodes.dom() =~= pre.nodes.dom());
}

/// Text that is appended to a script-bearing element is dropped: the tree
/// stays as it is, and the element has no children.
pub proof fn lemma_script_text_is_dropped(
    pre: TreeView,
    post: TreeView,
    parent: NodeHandle,
    text: Seq<char>,
    anchor: Option<NodeHandle>,
    raised: Option<Diagnostic>,
)
    requires
        pre.wf(),
        pre.nodes.contains_key(parent),
        pre.nodes[parent] matches NodeView::Element(e) && e.policy()
            == ContentPolicy::ScriptSuppressing,
        append_step(pre, post, parent, NodeOrTextView::AppendText(text), anchor, raised),
    ensures
        raised is None,
        post == pre,
        post.nodes[parent]->Element_0.children.len() == 0,
{
    assert(node_ok(pre.nodes, pre.nodes[parent]));
}

/// Stylesheet text that arrives in two parts gives the tree that the whole
/// text gives at once: the same source, and so the same parsed form.
pub proof fn lemma_style_text_in_parts(
    pre: TreeView,
    mid: TreeView,
    post: TreeView,
    whole: TreeView,
    parent: NodeHandle,
    first: Seq<char>,
    second: Seq<char>,
)
    requires
        pre.wf(),
        pre.nodes.contains_key(parent),
        pre.nodes[parent] matches NodeView::Element(e) && e.policy()
            == ContentPolicy::StyleCapturing,
        append_step(pre, mid, parent, NodeOrTextView::AppendText(first), None, None),
        append_step(mid, post, parent, NodeOrTextView::AppendText(second), None, None),
        append_step(pre, whole, parent, NodeOrTextView::AppendText(first + second), None, None),
    ensures
        post == whole,
{
    assert(node_ok(pre.nodes, pre.nodes[parent]));
    let sheet = pre.nodes[parent]->Element_0.children[0];
    assert(pre.nodes.contains_key(sheet));
    let source = pre.nodes[sheet]->StyleSheet_0.source;
    assert((source + first) + second =~= source + (first + second));
    assert(post.nodes =~= whole.nodes);
}

/// A second `remove_from_parent` of the same target changes nothing. Where
/// the first call took the target out, the parent's children no longer hold
/// it, and the second call reports `NotAChild`.
pub proof fn lemma_detach_twice(
    pre: TreeView,
    mid: TreeView,
    post: TreeView,
    target: NodeHandle,
    first: Option<Diagnostic>,
    second: Option<Diagnostic>,
)
    requires
        pre.wf(),
        detach_step(pre, mid, target, first),
        detach_step(mid, post, target, second),
    ensures
        post == mid,
        first is None ==> second == Some(Diagnostic::NotAChild) && !is_attached(mid, target)
            && !is_reachable(mid, target) && {
            let parent = pre.nodes[target]->Element_0.parent;
            &&& mid.nodes[parent]->Element_0.children == without(
                pre.nodes[parent]->Element_0.children,
                target,
            )
            &&& !mid.nodes[parent]->Element_0.children.contains(target)
        },
{
    if first is None {
        let parent = pre.nodes[target]->Element_0.parent;
        let list = pre.nodes[parent]->Element_0.children;
        let kept = without(list, target);
        if kept.contains(target) {
            let i = choose|i: int| 0 <= i < kept.len() && kept[i] == target;
            list.lemma_filter_pred(differs_from(target), i);
        }
        assert(pre.nodes.contains_key(target));
        assert(node_ok(pre.nodes, pre.nodes[target]));
        if pre.document == Some(parent) {
            assert(pre.nodes[parent] is Document);
        }
    }
}

/// After `reparent_children` the new parent has its former children and then
/// those of the old parent, in their order; the old parent has none; and
/// every moved element names the new parent. A new parent that had no
/// children has exactly those of the old parent.
pub proof fn lemma_reparented_children(
    pre: TreeView,
    post: TreeView,
    from: NodeHandle,
    to: NodeHandle,
)
    requires
        pre.wf(),
        reparent_step(pre, post, from, to, None),
    ensures
        post.nodes[to]->Element_0.children == pre.nodes[to]->Element_0.children
            + pre.nodes[from]->Element_0.children,
        pre.nodes[to]->Element_0.children.len() == 0 ==> post.nodes[to]->Element_0.children
            == pre.nodes[from]->Element_0.children,
        post.nodes[from]->Element_0.children.len() == 0,
        forall|i: int|
            0 <= i < pre.nodes[from]->Element_0.children.len() ==> {
                let child = #[trigger] pre.nodes[from]->Element_0.children[i];
                post.nodes[child] matches NodeView::Element(e) ==> e.parent == to
            },
{
    let moved = pre.nodes[from]->Element_0.children;
    assert(moved.take(moved.len() as int) =~= moved);
    assert(node_ok(pre.nodes, pre.nodes[from]));
    if pre.nodes[to]->Element_0.children.len() == 0 {
        assert(pre.nodes[to]->Element_0.children + moved =~= moved);
    }
    assert forall|i: int| 0 <= i < moved.len() implies ({
        let child = #[trigger] moved[i];
        post.nodes[child] matches NodeView::Element(e) ==> e.parent == to
    }) by {
        assert(pre.nodes.contains_key(moved[i]));
    }
}

} // verus!
