use std::borrow::Cow;
use std::collections::HashMap;

use html5ever::tendril::{StrTendril, TendrilSink};
use html5ever::tree_builder::{ElementFlags, NodeOrText, QuirksMode, TreeSink};
use html5ever::{parse_document, ExpandedName, ParseOpts, QualName};
use reb::arena::NodeHandle;
use reb::dom::{Diagnostic, Dom};
use reb::node::Node;

/// The tree builder as the sink of the parser, with what it reported.
#[derive(Debug, Default)]
struct Sink {
    dom: Dom,
    names: HashMap<NodeHandle, QualName>,
    raised: Vec<Diagnostic>,
}

fn qual_name(name: &QualName) -> reb::element::QualName {
    reb::element::QualName::new(
        name.prefix.as_ref().map(|prefix| prefix.to_string()),
        name.ns.to_string(),
        name.local.to_string(),
    )
}

fn attributes(attrs: Vec<html5ever::Attribute>) -> Vec<reb::element::Attribute> {
    attrs
        .into_iter()
        .map(|attr| reb::element::Attribute {
            name: qual_name(&attr.name),
            value: attr.value.to_string(),
        })
        .collect()
}

fn node_or_text(child: NodeOrText<NodeHandle>) -> reb::dom::NodeOrText {
    match child {
        NodeOrText::AppendNode(node) => reb::dom::NodeOrText::AppendNode(node),
        NodeOrText::AppendText(text) => reb::dom::NodeOrText::AppendText(text.to_string()),
    }
}

impl Sink {
    fn note(&mut self, raised: Option<Diagnostic>) {
        if let Some(raised) = raised {
            self.raised.push(raised);
        }
    }
}

impl TreeSink for Sink {
    type Handle = NodeHandle;
    type Output = Sink;

    fn finish(self) -> Self::Output {
        self
    }

    fn parse_error(&mut self, _msg: Cow<'static, str>) {}

    fn get_document(&mut self) -> Self::Handle {
        assert!(self.dom.has_room(1));
        self.dom.get_document()
    }

    fn elem_name<'a>(&'a self, target: &'a Self::Handle) -> ExpandedName<'a> {
        match self.names.get(target) {
            Some(name) => name.expanded(),
            None => panic!("tried to get the name of a non-element node"),
        }
    }

    fn create_element(
        &mut self,
        name: QualName,
        attrs: Vec<html5ever::Attribute>,
        _flags: ElementFlags,
    ) -> Self::Handle {
        assert!(self.dom.has_room(3));
        let handle = self.dom.create_element(qual_name(&name), attributes(attrs));
        self.names.insert(handle, name);
        handle
    }

    fn create_comment(&mut self, text: StrTendril) -> Self::Handle {
        assert!(self.dom.has_room(1));
        self.dom.create_comment(text.to_string())
    }

    fn create_pi(&mut self, target: StrTendril, data: StrTendril) -> Self::Handle {
        assert!(self.dom.has_room(1));
        self.dom.create_pi(target.to_string(), data.to_string())
    }

    fn append(&mut self, parent: &Self::Handle, child: NodeOrText<Self::Handle>) {
        assert!(self.dom.has_room(1));
        let raised = self.dom.append(*parent, node_or_text(child));
        self.note(raised);
    }

    fn append_based_on_parent_node(
        &mut self,
        element: &Self::Handle,
        prev_element: &Self::Handle,
        child: NodeOrText<Self::Handle>,
    ) {
        assert!(self.dom.has_room(1));
        let raised =
            self.dom.append_based_on_parent_node(*element, *prev_element, node_or_text(child));
        self.note(raised);
    }

    fn append_doctype_to_document(
        &mut self,
        name: StrTendril,
        public_id: StrTendril,
        system_id: StrTendril,
    ) {
        assert!(self.dom.has_room(1));
        self.dom.append_doctype_to_document(
            name.to_string(),
            public_id.to_string(),
            system_id.to_string(),
        );
    }

    fn get_template_contents(&mut self, target: &Self::Handle) -> Self::Handle {
        match self.dom.get_template_contents(*target) {
            Ok(contents) => contents,
            Err(raised) => panic!("template contents: {:?}", raised),
        }
    }

    fn same_node(&self, x: &Self::Handle, y: &Self::Handle) -> bool {
        self.dom.same_node(*x, *y)
    }

    fn set_quirks_mode(&mut self, mode: QuirksMode) {
        let mode = match mode {
            QuirksMode::Quirks => reb::dom::QuirksMode::Quirks,
            QuirksMode::LimitedQuirks => reb::dom::QuirksMode::LimitedQuirks,
            QuirksMode::NoQuirks => reb::dom::QuirksMode::NoQuirks,
        };
        let raised = self.dom.set_quirks_mode(mode);
        self.raised.push(raised);
    }

    fn append_before_sibling(&mut self, sibling: &Self::Handle, new_node: NodeOrText<Self::Handle>) {
        assert!(self.dom.has_room(1));
        let raised = self.dom.append_before_sibling(*sibling, node_or_text(new_node));
        self.note(raised);
    }

    fn add_attrs_if_missing(&mut self, target: &Self::Handle, attrs: Vec<html5ever::Attribute>) {
        let raised = self.dom.add_attrs_if_missing(*target, attributes(attrs));
        self.note(raised);
    }

    fn remove_from_parent(&mut self, target: &Self::Handle) {
        let raised = self.dom.remove_from_parent(*target);
        self.note(raised);
    }

    fn reparent_children(&mut self, node: &Self::Handle, new_parent: &Self::Handle) {
        let raised = self.dom.reparent_children(*node, *new_parent);
        self.note(raised);
    }
}

fn parse(html: &str) -> Sink {
    parse_document(Sink::default(), ParseOpts::default()).one(html)
}

fn element<'a>(dom: &'a Dom, handle: NodeHandle) -> (&'a str, NodeHandle, &'a [NodeHandle]) {
    match dom.get(handle) {
        Some(Node::Element { qualified_name, parent, children, .. }) => {
            (qualified_name.local.as_str(), *parent, children.as_slice())
        }
        other => panic!("not an element: {:?}", other),
    }
}

fn child_elements(dom: &Dom, handle: NodeHandle) -> Vec<NodeHandle> {
    element(dom, handle)
        .2
        .iter()
        .copied()
        .filter(|child| matches!(dom.get(*child), Some(Node::Element { .. })))
        .collect()
}

const PAGE: &str = "<!DOCTYPE html>
<html>
  <head>
    <title>Test</title>
    <style>body { color: red; }</style>
    <script>let x = 1 < 2;</script>
  </head>
  <body>
    <!-- a comment -->
    <div id=\"main\" class=\"box\"><p>Hello</p><pre>  two
lines </pre></div>
  </body>
</html>
";

#[test]
fn basic() {
    let sink = parse(PAGE);
    let dom = sink.dom;

    println!("{dom:#?}");
}

#[test]
fn parsed_page_has_one_document_with_doctype() {
    let dom = parse(PAGE).dom;
    let document = dom.document().expect("the document exists");
    match dom.get(document) {
        Some(Node::Document(Some(doctype))) => {
            assert_eq!(doctype.name, "html");
            assert_eq!(doctype.public_id, "");
            assert_eq!(doctype.system_id, "");
        }
        other => panic!("not a document with doctype: {:?}", other),
    }
    let documents = dom
        .handles()
        .into_iter()
        .filter(|h| matches!(dom.get(*h), Some(Node::Document(_))))
        .count();
    assert_eq!(documents, 1);
}

#[test]
fn parsed_page_has_the_expected_tree() {
    let dom = parse(PAGE).dom;
    let roots = dom.root_elements();
    assert_eq!(roots.len(), 1);
    let html = roots[0];
    assert_eq!(element(&dom, html).0, "html");
    assert_eq!(Some(element(&dom, html).1), dom.document());

    let parts = child_elements(&dom, html);
    assert_eq!(parts.len(), 2);
    let (head, body) = (parts[0], parts[1]);
    assert_eq!(element(&dom, head).0, "head");
    assert_eq!(element(&dom, body).0, "body");
    assert_eq!(element(&dom, head).1, html);
    assert_eq!(element(&dom, body).1, html);

    let in_head: Vec<&str> =
        child_elements(&dom, head).into_iter().map(|h| element(&dom, h).0).collect();
    assert_eq!(in_head, vec!["title", "style", "script"]);

    let in_body = child_elements(&dom, body);
    assert_eq!(in_body.len(), 1);
    let div = in_body[0];
    assert_eq!(element(&dom, div).0, "div");
    assert!(element(&dom, body)
        .2
        .iter()
        .any(|h| matches!(dom.get(*h), Some(Node::Comment(c)) if c == " a comment ")));

    let in_div = child_elements(&dom, div);
    assert_eq!(in_div.len(), 2);
    let (p, pre) = (in_div[0], in_div[1]);
    assert_eq!(element(&dom, p).0, "p");
    assert_eq!(element(&dom, p).1, div);
    let text = element(&dom, p).2;
    assert_eq!(text.len(), 1);
    assert!(matches!(dom.get(text[0]), Some(Node::Text(t)) if t == "Hello"));
    // Text arrives in pieces, and each piece is a text node of its own.
    let mut raw = String::new();
    for piece in element(&dom, pre).2 {
        match dom.get(*piece) {
            Some(Node::Text(t)) => raw.push_str(t),
            other => panic!("not a text node: {:?}", other),
        }
    }
    assert_eq!(raw, "  two\nlines ");
}

#[test]
fn parsed_page_keeps_attributes() {
    let dom = parse(PAGE).dom;
    let div = dom
        .handles()
        .into_iter()
        .find(|h| matches!(dom.get(*h),
            Some(Node::Element { qualified_name, .. }) if qualified_name.local == "div"))
        .expect("the div exists");
    match dom.get(div) {
        Some(Node::Element { elem, qualified_name, attrs, .. }) => {
            assert_eq!(qualified_name.ns, "http://www.w3.org/1999/xhtml");
            assert_eq!(attrs.len(), 2);
            assert_eq!(attrs[0].name.local, "id");
            assert_eq!(attrs[0].value, "main");
            assert_eq!(attrs[1].name.local, "class");
            assert_eq!(attrs[1].value, "box");
            assert_eq!(elem.id(), Some(&html_tags::AttributeValueOwned::Str("main".to_string())));
            assert_eq!(elem.class(), Some(&html_tags::AttributeValueOwned::Str("box".to_string())));
        }
        other => panic!("not an element: {:?}", other),
    }
}

#[test]
fn parsed_style_and_script() {
    let dom = parse(PAGE).dom;
    let find = |local: &str| {
        dom.handles()
            .into_iter()
            .find(|h| matches!(dom.get(*h),
                Some(Node::Element { qualified_name, .. }) if qualified_name.local == local))
            .expect("the element exists")
    };
    let style = element(&dom, find("style")).2;
    assert_eq!(style.len(), 1);
    match dom.get(style[0]) {
        Some(Node::StyleSheet(sheet)) => {
            assert_eq!(sheet.current_source(), "body { color: red; }");
            let rules = sheet.current_rules().outcome.as_ref().expect("the source parses");
            assert_eq!(rules.rules.0.len(), 1);
        }
        other => panic!("not a stylesheet: {:?}", other),
    }
    assert!(element(&dom, find("script")).2.is_empty());
    let script_text = dom
        .handles()
        .into_iter()
        .filter(|h| matches!(dom.get(*h), Some(Node::Text(t)) if t.contains("let x")))
        .count();
    assert_eq!(script_text, 0);
}

#[test]
fn div_is_the_same_node_both_ways() {
    let sink = parse("<div><p>Hello</p></div>");
    let dom = &sink.dom;
    let find = |local: &str| {
        dom.handles()
            .into_iter()
            .find(|h| matches!(dom.get(*h),
                Some(Node::Element { qualified_name, .. }) if qualified_name.local == local))
            .expect("the element exists")
    };
    let p = find("p");
    let by_parent = element(dom, p).1;
    let body = find("body");
    let by_children = child_elements(dom, body)[0];
    assert_eq!(element(dom, by_parent).0, "div");
    assert!(dom.same_node(by_parent, by_children));
    assert!(sink.same_node(&by_parent, &by_children));
    assert!(!dom.same_node(by_parent, p));
    let text = element(dom, p).2;
    assert_eq!(text.len(), 1);
    assert!(matches!(dom.get(text[0]), Some(Node::Text(t)) if t == "Hello"));
}

#[test]
fn appending_to_the_document_is_reported() {
    let sink = parse("<p>x</p>");
    assert!(sink.raised.contains(&Diagnostic::NotAnElement));
    assert!(sink.raised.contains(&Diagnostic::Unsupported));
    assert!(sink.raised.iter().all(|raised| matches!(
        raised,
        Diagnostic::NotAnElement | Diagnostic::Unsupported
    )));
}

#[test]
fn misnested_formatting_keeps_every_element() {
    let sink = parse("<p><b>one<i>two</b>three</i></p><table><tr><td>x</td></tr>y</table>");
    let dom = &sink.dom;
    let mut seen = 0;
    for handle in dom.handles() {
        if let Some(Node::Element { parent, children, .. }) = dom.get(handle) {
            seen += 1;
            assert!(matches!(
                dom.get(*parent),
                Some(Node::Element { .. }) | Some(Node::Document(_))
            ));
            for child in children {
                assert!(dom.get(*child).is_some());
            }
        }
    }
    assert!(seen >= 9);
    assert_eq!(dom.root_elements().len(), 1);
}
