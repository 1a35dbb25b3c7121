//! The content policy of an element: what happens to text and nodes that are
//! appended to it.

use vstd::prelude::*;
use crate::element::{element_tag, element_tag_name};
use crate::text::str_eq;

verus! {

/// Content-acceptance state of an element. It follows from the element's
/// kind and never changes.
#[derive(Clone, Copy, Debug, PartialEq, Eq, Structural)]
pub enum ContentPolicy {
    /// Text becomes `Text` children and node children are accepted.
    Normal,
    /// Text is redirected into the element's stylesheet child; node children
    /// are refused.
    StyleCapturing,
    /// Text is discarded and node children are refused.
    ScriptSuppressing,
}

/// The policy of an element with the given tag.
pub open spec fn policy_of_tag(tag: Seq<char>) -> ContentPolicy {
    if tag == "style"@ {
        ContentPolicy::StyleCapturing
    } else if tag == "script"@ {
        ContentPolicy::ScriptSuppressing
    } else {
        ContentPolicy::Normal
    }
}

/// The policy of a tag name.
pub fn classify_tag(tag: &str) -> (policy: ContentPolicy)
    ensures
        policy == policy_of_tag(tag@),
{
    if str_eq(tag, "style") {
        ContentPolicy::StyleCapturing
    } else if str_eq(tag, "script") {
        ContentPolicy::ScriptSuppressing
    } else {
        ContentPolicy::Normal
    }
}

/// The policy of a typed element: style-bearing elements capture text as
/// stylesheet source, script-bearing elements suppress all content, and every
/// other element is normal.
pub fn classify(elem: &html_tags::ElementOwned) -> (policy: ContentPolicy)
    ensures
        policy == policy_of_tag(element_tag(*elem)),
{
    classify_tag(element_tag_name(elem))
}

/// `style` and `script` are different tags, and neither is the tag of the
/// unknown element.
pub proof fn lemma_policy_tags()
    ensures
        policy_of_tag("style"@) == ContentPolicy::StyleCapturing,
        policy_of_tag("script"@) == ContentPolicy::ScriptSuppressing,
        policy_of_tag("unknown"@) == ContentPolicy::Normal,
{
    reveal_strlit("style");
    reveal_strlit("script");
    reveal_strlit("unknown");
    assert("style"@.len() == 5);
    assert("script"@.len() == 6);
    assert("unknown"@.len() == 7);
}

} // verus!
