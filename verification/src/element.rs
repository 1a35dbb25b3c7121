//! Qualified names, attributes, and the typed element values of `html_tags`.

use vstd::prelude::*;
use crate::text::str_eq;

verus! {

/// The typed element of `html_tags`: one variant per known tag, each with its
/// attribute fields. Its inside is not visible to the verifier.
#[verifier::external_type_specification]
#[verifier::external_body]
pub struct ExElementOwned(html_tags::ElementOwned);

/// The tag name that `ElementOwned::tag` reports for an element.
pub uninterp spec fn element_tag(elem: html_tags::ElementOwned) -> Seq<char>;

/// The attributes that were set on a typed element, by name.
pub uninterp spec fn element_attrs(elem: html_tags::ElementOwned) -> Map<Seq<char>, Seq<char>>;

/// Calls `ElementOwned::from_tag`. A known lower-case tag gives the variant of
/// that tag, and every other name gives the `Unknown` variant, whose tag is
/// `"unknown"`; `style` and `script` are known tags. The new element has no
/// attribute set.
#[verifier::external_body]
pub(crate) fn element_from_tag(tag: &str) -> (elem: html_tags::ElementOwned)
    ensures
        element_tag(elem) == tag@ || element_tag(elem) == "unknown"@,
        tag@ == "style"@ ==> element_tag(elem) == "style"@,
        tag@ == "script"@ ==> element_tag(elem) == "script"@,
        element_attrs(elem).dom() == Set::<Seq<char>>::empty(),
{
    html_tags::ElementOwned::from_tag(tag)
}

/// Calls `ElementOwned::set_attr`, which stores the value under the name, in
/// the field of that name or among the extra attributes, and replaces a value
/// stored there before. The variant, and so the tag, stays.
#[verifier::external_body]
pub(crate) fn element_set_attr(elem: &mut html_tags::ElementOwned, name: &str, value: String)
    ensures
        element_tag(*final(elem)) == element_tag(*old(elem)),
        element_attrs(*final(elem)) == element_attrs(*old(elem)).insert(name@, value@),
{
    elem.set_attr(name, value)
}

/// Calls `ElementOwned::tag`.
#[verifier::external_body]
pub(crate) fn element_tag_name(elem: &html_tags::ElementOwned) -> (tag: &'static str)
    ensures
        tag@ == element_tag(*elem),
{
    elem.tag()
}

/// A qualified name: optional prefix, namespace and local name.
#[derive(Debug, Clone, PartialEq, Eq, Hash)]
pub struct QualName {
    pub prefix: Option<String>,
    pub ns: String,
    pub local: String,
}

/// The mathematical value of a [`QualName`].
#[verifier::ext_equal]
pub struct QualNameView {
    pub prefix: Option<Seq<char>>,
    pub ns: Seq<char>,
    pub local: Seq<char>,
}

impl View for QualName {
    type V = QualNameView;

    open spec fn view(&self) -> QualNameView {
        QualNameView {
            prefix: match self.prefix {
                Some(p) => Some(p@),
                None => None,
            },
            ns: self.ns@,
            local: self.local@,
        }
    }
}

impl QualNameView {
    /// Whether this is the name of the `style` attribute: no prefix, the empty
    /// namespace, and the local name `style`.
    pub open spec fn is_style_attr(self) -> bool {
        self.prefix is None && self.ns.len() == 0 && self.local == "style"@
    }
}

impl QualName {
    /// A name without prefix, in the given namespace.
    pub fn new(prefix: Option<String>, ns: String, local: String) -> (name: QualName)
        ensures
            name.prefix == prefix,
            name.ns == ns,
            name.local == local,
    {
        QualName { prefix, ns, local }
    }

    /// Whether this is the name of the `style` attribute.
    pub fn is_style_attr(&self) -> (yes: bool)
        ensures
            yes == self@.is_style_attr(),
    {
        self.prefix.is_none() && self.ns.as_str().is_empty() && str_eq(
            self.local.as_str(),
            "style",
        )
    }
}

/// One attribute of an element.
#[derive(Debug, Clone, PartialEq, Eq, Hash)]
pub struct Attribute {
    pub name: QualName,
    pub value: String,
}

/// The mathematical value of an [`Attribute`].
#[verifier::ext_equal]
pub struct AttributeView {
    pub name: QualNameView,
    pub value: Seq<char>,
}

impl View for Attribute {
    type V = AttributeView;

    open spec fn view(&self) -> AttributeView {
        AttributeView { name: self.name@, value: self.value@ }
    }
}

impl QualName {
    /// A copy of the name.
    pub fn duplicate(&self) -> (copy: QualName)
        ensures
            copy@ == self@,
    {
        let prefix = match &self.prefix {
            Some(p) => Some(p.clone()),
            None => None,
        };
        QualName { prefix, ns: self.ns.clone(), local: self.local.clone() }
    }
}

impl Attribute {
    /// A copy of the attribute.
    pub fn duplicate(&self) -> (copy: Attribute)
        ensures
            copy@ == self@,
    {
        Attribute { name: self.name.duplicate(), value: self.value.clone() }
    }
}

/// What is known of the tag of the typed element that is made for a local
/// name: it is the local name or the tag of the unknown element, and it is
/// `style` or `script` where the local name is.
pub open spec fn tag_for(local: Seq<char>, tag: Seq<char>) -> bool {
    &&& tag == local || tag == "unknown"@
    &&& local == "style"@ ==> tag == "style"@
    &&& local == "script"@ ==> tag == "script"@
}

/// The attribute list after the incoming attributes were added to it in
/// turn, each one only where no attribute of the list has its local name.
pub open spec fn attrs_merged(existing: Seq<AttributeView>, incoming: Seq<AttributeView>) -> Seq<
    AttributeView,
>
    decreases incoming.len(),
{
    if incoming.len() == 0 {
        existing
    } else {
        let before = attrs_merged(existing, incoming.drop_last());
        if has_attr(before, incoming.last().name.local) {
            before
        } else {
            before.push(incoming.last())
        }
    }
}

/// The views of a list of attributes, in order.
pub open spec fn attrs_view(attrs: Seq<Attribute>) -> Seq<AttributeView> {
    attrs.map_values(|a: Attribute| a@)
}

/// The attribute map that results from setting each attribute of the list in
/// turn, by local name: a later value replaces an earlier one.
pub open spec fn attrs_applied(attrs: Seq<AttributeView>) -> Map<Seq<char>, Seq<char>>
    decreases attrs.len(),
{
    if attrs.len() == 0 {
        Map::empty()
    } else {
        attrs_applied(attrs.drop_last()).insert(attrs.last().name.local, attrs.last().value)
    }
}

/// The value of the last `style` attribute of the list, if there is one.
pub open spec fn style_attr_value(attrs: Seq<AttributeView>) -> Option<Seq<char>>
    decreases attrs.len(),
{
    if attrs.len() == 0 {
        None
    } else if attrs.last().name.is_style_attr() {
        Some(attrs.last().value)
    } else {
        style_attr_value(attrs.drop_last())
    }
}

/// Whether some attribute of the list has the given local name.
pub open spec fn has_attr(attrs: Seq<AttributeView>, local: Seq<char>) -> bool {
    exists|i: int| 0 <= i < attrs.len() && (#[trigger] attrs[i]).name.local == local
}

/// Whether some attribute of the list has the given local name.
pub(crate) fn find_attr(attrs: &Vec<Attribute>, local: &str) -> (found: bool)
    ensures
        found == has_attr(attrs_view(attrs@), local@),
{
    let mut i: usize = 0;
    while i < attrs.len()
        invariant
            i <= attrs.len(),
            forall|j: int| 0 <= j < i ==> attrs_view(attrs@)[j].name.local != local@,
        decreases attrs.len() - i,
    {
        if str_eq(attrs[i].name.local.as_str(), local) {
            assert(attrs_view(attrs@)[i as int].name.local == local@);
            return true;
        }
        i += 1;
    }
    false
}

/// Makes the typed element for a local name and sets each attribute of the
/// list on it, in turn. Also hands out the value of the last `style`
/// attribute.
pub(crate) fn typed_element(local: &str, attrs: &Vec<Attribute>) -> (made: (
    html_tags::ElementOwned,
    Option<String>,
))
    ensures
        tag_for(local@, element_tag(made.0)),
        element_attrs(made.0) == attrs_applied(attrs_view(attrs@)),
        match style_attr_value(attrs_view(attrs@)) {
            Some(value) => made.1 matches Some(s) && s@ == value,
            None => made.1 is None,
        },
{
    let mut elem = element_from_tag(local);
    let mut style_attr: Option<String> = None;
    let ghost views = attrs_view(attrs@);
    assert(element_attrs(elem) =~= attrs_applied(views.take(0)));
    let mut i: usize = 0;
    while i < attrs.len()
        invariant
            i <= attrs.len(),
            views == attrs_view(attrs@),
            tag_for(local@, element_tag(elem)),
            element_attrs(elem) == attrs_applied(views.take(i as int)),
            match style_attr_value(views.take(i as int)) {
                Some(value) => style_attr matches Some(s) && s@ == value,
                None => style_attr is None,
            },
        decreases attrs.len() - i,
    {
        let attr = &attrs[i];
        proof {
            assert(views.take(i + 1).drop_last() =~= views.take(i as int));
            assert(views.take(i + 1).last() == attr@);
        }
        if attr.name.is_style_attr() {
            style_attr = Some(attr.value.clone());
        }
        element_set_attr(&mut elem, attr.name.local.as_str(), attr.value.clone());
        i += 1;
    }
    assert(views.take(attrs.len() as int) =~= views);
    (elem, style_attr)
}

/// Adds the incoming attributes to an element in turn: an attribute whose
/// local name the element has already is left out, and every other one is set
/// on the typed element and recorded in the list.
pub(crate) fn merge_attrs(
    elem: &mut html_tags::ElementOwned,
    list: &mut Vec<Attribute>,
    incoming: &Vec<Attribute>,
)
    requires
        element_attrs(*old(elem)) == attrs_applied(attrs_view(old(list)@)),
    ensures
        element_tag(*final(elem)) == element_tag(*old(elem)),
        attrs_view(final(list)@) == attrs_merged(attrs_view(old(list)@), attrs_view(incoming@)),
        element_attrs(*final(elem)) == attrs_applied(attrs_view(final(list)@)),
{
    let ghost start = attrs_view(list@);
    let ghost views = attrs_view(incoming@);
    assert(views.take(0) =~= Seq::<AttributeView>::empty());
    let mut i: usize = 0;
    while i < incoming.len()
        invariant
            i <= incoming.len(),
            views == attrs_view(incoming@),
            element_tag(*elem) == element_tag(*old(elem)),
            attrs_view(list@) == attrs_merged(start, views.take(i as int)),
            element_attrs(*elem) == attrs_applied(attrs_view(list@)),
        decreases incoming.len() - i,
    {
        let attr = &incoming[i];
        proof {
            assert(views.take(i + 1).drop_last() =~= views.take(i as int));
            assert(views.take(i + 1).last() == attr@);
        }
        if !find_attr(list, attr.name.local.as_str()) {
            let ghost before = attrs_view(list@);
            element_set_attr(elem, attr.name.local.as_str(), attr.value.clone());
            list.push(attr.duplicate());
            proof {
                assert(attrs_view(list@) =~= before.push(attr@));
                assert(attrs_view(list@).drop_last() =~= before);
            }
        }
        i += 1;
    }
    assert(views.take(incoming.len() as int) =~= views);
}

} // verus!
