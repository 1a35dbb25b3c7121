//! The embedded stylesheet unit: stylesheet source text together with what
//! the style-text parser makes of it.

use vstd::prelude::*;
use vstd::string::StringExecFns;

verus! {

/// What `lightningcss` returned for one source text: the parsed style sheet,
/// or the parser's error. Both are owned and borrow nothing from the source.
///
/// The style sheet's type has a parameter whose default the parser crate keeps
/// private, so the type cannot be declared to the verifier; the value is kept
/// here and is opaque to it.
#[verifier::external_body]
#[derive(Debug)]
pub struct ParsedRules {
    pub outcome: Result<
        lightningcss::stylesheet::StyleSheet<'static>,
        lightningcss::error::Error<lightningcss::error::ParserError<'static>>,
    >,
}

/// The result of parsing a source text as a style sheet with the parser's
/// default options.
pub uninterp spec fn parsed_css(source: Seq<char>) -> ParsedRules;

/// Calls `lightningcss::stylesheet::StyleSheet::parse` with default options
/// and makes the result own its data. The result depends on the source text
/// alone; a text that is no style sheet gives the error value.
#[verifier::external_body]
fn stylesheet_parser(contents: &str) -> (rules: ParsedRules)
    ensures
        rules == parsed_css(contents@),
{
    let options = lightningcss::stylesheet::ParserOptions::default();
    ParsedRules {
        outcome: match lightningcss::stylesheet::StyleSheet::parse(contents, options) {
            Ok(sheet) => Ok(lightningcss::traits::IntoOwned::into_owned(sheet)),
            Err(error) => Err(lightningcss::traits::IntoOwned::into_owned(error)),
        },
    }
}

/// Stylesheet source together with its parsed form. The two are only ever
/// replaced together, so the parsed form always belongs to the current source.
#[derive(Debug)]
pub struct StyleSheet {
    contents: String,
    rules: ParsedRules,
}

/// The mathematical value of a [`StyleSheet`].
pub struct StyleSheetView {
    pub source: Seq<char>,
    pub rules: ParsedRules,
}

impl StyleSheetView {
    /// The parsed form is that of the source.
    pub open spec fn consistent(self) -> bool {
        self.rules == parsed_css(self.source)
    }
}

impl View for StyleSheet {
    type V = StyleSheetView;

    closed spec fn view(&self) -> StyleSheetView {
        StyleSheetView { source: self.contents@, rules: self.rules }
    }
}

impl StyleSheet {
    #[verifier::type_invariant]
    spec fn parsed_from_contents(self) -> bool {
        self.rules == parsed_css(self.contents@)
    }

    /// A stylesheet unit for the given source.
    pub fn new(contents: String) -> (sheet: StyleSheet)
        ensures
            sheet@.source == contents@,
            sheet@.consistent(),
    {
        let rules = stylesheet_parser(contents.as_str());
        StyleSheet { contents, rules }
    }

    /// Replaces the source and its parsed form together. A source that does
    /// not parse is stored with the parser's error.
    pub fn replace_source(&mut self, new_source: String)
        ensures
            final(self)@.source == new_source@,
            final(self)@.consistent(),
    {
        *self = StyleSheet::new(new_source);
    }

    /// Extends the source by `text` and parses the whole source again.
    pub fn append_source(&mut self, text: &str)
        ensures
            final(self)@.source == old(self)@.source + text@,
            final(self)@.consistent(),
    {
        let mut contents = self.contents.clone();
        contents.append(text);
        self.replace_source(contents);
    }

    /// The current source text.
    pub fn current_source(&self) -> (source: &str)
        ensures
            source@ == self@.source,
    {
        self.contents.as_str()
    }

    /// The parsed form of the current source.
    pub fn current_rules(&self) -> (rules: &ParsedRules)
        ensures
            *rules == self@.rules,
            *rules == parsed_css(self@.source),
    {
        proof {
            use_type_invariant(self);
        }
        &self.rules
    }
}

/// The parsed form follows the source: stylesheet units with the same source
/// have the same parsed form, however their sources came about.
pub proof fn lemma_rules_follow_source(a: StyleSheetView, b: StyleSheetView)
    requires
        a.consistent(),
        b.consistent(),
        a.source == b.source,
    ensures
        a.rules == b.rules,
{
}

/// Source that is appended in two parts gives the unit that the whole text
/// gives when it is appended at once.
pub proof fn lemma_append_in_parts(
    start: StyleSheetView,
    mid: StyleSheetView,
    parts: StyleSheetView,
    whole: StyleSheetView,
    first: Seq<char>,
    second: Seq<char>,
)
    requires
        mid.source == start.source + first,
        parts.source == mid.source + second,
        parts.consistent(),
        whole.source == start.source + (first + second),
        whole.consistent(),
    ensures
        parts == whole,
{
    assert((start.source + first) + second =~= start.source + (first + second));
}

} // verus!
