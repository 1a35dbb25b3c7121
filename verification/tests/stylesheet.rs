use reb::dom::{Dom, NodeOrText};
use reb::element::{Attribute, QualName};
use reb::node::Node;
use reb::policy::{classify, classify_tag, ContentPolicy};
use reb::stylesheet::{ParsedRules, StyleSheet};

fn name(local: &str) -> QualName {
    QualName::new(None, String::new(), local.to_string())
}

fn rule_count(rules: &ParsedRules) -> Option<usize> {
    match &rules.outcome {
        Ok(sheet) => Some(sheet.rules.0.len()),
        Err(_) => None,
    }
}

fn same_rules(a: &ParsedRules, b: &ParsedRules) -> bool {
    match (&a.outcome, &b.outcome) {
        (Ok(x), Ok(y)) => x.rules == y.rules,
        (Err(x), Err(y)) => x == y,
        _ => false,
    }
}

fn sheet_of(dom: &Dom, style: reb::arena::NodeHandle) -> &StyleSheet {
    let child = match dom.get(style) {
        Some(Node::Element { children, .. }) => {
            assert_eq!(children.len(), 1);
            children[0]
        }
        other => panic!("not an element: {:?}", other),
    };
    match dom.get(child) {
        Some(Node::StyleSheet(sheet)) => sheet,
        other => panic!("not a stylesheet: {:?}", other),
    }
}

#[test]
fn classify_tag_knows_style_and_script() {
    assert_eq!(classify_tag("style"), ContentPolicy::StyleCapturing);
    assert_eq!(classify_tag("script"), ContentPolicy::ScriptSuppressing);
    assert_eq!(classify_tag("div"), ContentPolicy::Normal);
    assert_eq!(classify_tag("styl"), ContentPolicy::Normal);
    assert_eq!(classify_tag("STYLE"), ContentPolicy::Normal);
    assert_eq!(classify_tag("unknown"), ContentPolicy::Normal);
    assert_eq!(classify_tag(""), ContentPolicy::Normal);
}

#[test]
fn classify_reads_the_typed_element() {
    assert_eq!(classify(&html_tags::ElementOwned::from_tag("style")), ContentPolicy::StyleCapturing);
    assert_eq!(
        classify(&html_tags::ElementOwned::from_tag("script")),
        ContentPolicy::ScriptSuppressing
    );
    assert_eq!(classify(&html_tags::ElementOwned::from_tag("pre")), ContentPolicy::Normal);
    assert_eq!(classify(&html_tags::ElementOwned::from_tag("nonsense")), ContentPolicy::Normal);
}

#[test]
fn new_stylesheet_parses_its_source() {
    let sheet = StyleSheet::new("body { color: red; } p { margin: 0 }".to_string());
    assert_eq!(sheet.current_source(), "body { color: red; } p { margin: 0 }");
    assert_eq!(rule_count(sheet.current_rules()), Some(2));
    let empty = StyleSheet::new(String::new());
    assert_eq!(empty.current_source(), "");
    assert_eq!(rule_count(empty.current_rules()), Some(0));
}

#[test]
fn parse_failure_is_stored() {
    let sheet = StyleSheet::new("bo".to_string());
    assert_eq!(sheet.current_source(), "bo");
    assert!(sheet.current_rules().outcome.is_err());
}

#[test]
fn replace_source_replaces_rules_with_it() {
    let mut sheet = StyleSheet::new("a { color: red }".to_string());
    assert_eq!(rule_count(sheet.current_rules()), Some(1));
    sheet.replace_source("bo".to_string());
    assert_eq!(sheet.current_source(), "bo");
    assert!(sheet.current_rules().outcome.is_err());
    sheet.replace_source("a { color: red } b { color: blue } i { color: green }".to_string());
    assert_eq!(rule_count(sheet.current_rules()), Some(3));
    let fresh =
        StyleSheet::new("a { color: red } b { color: blue } i { color: green }".to_string());
    assert!(same_rules(sheet.current_rules(), fresh.current_rules()));
}

#[test]
fn append_source_equals_parsing_the_whole() {
    let mut parts = StyleSheet::new(String::new());
    parts.append_source("bo");
    assert!(parts.current_rules().outcome.is_err());
    parts.append_source("dy { color: red; }");
    assert_eq!(parts.current_source(), "body { color: red; }");
    let whole = StyleSheet::new("body { color: red; }".to_string());
    assert_eq!(rule_count(parts.current_rules()), Some(1));
    assert!(same_rules(parts.current_rules(), whole.current_rules()));
    let other = StyleSheet::new("html { color: red; }".to_string());
    assert!(!same_rules(parts.current_rules(), other.current_rules()));
}

#[test]
fn style_element_starts_with_one_empty_stylesheet() {
    let mut dom = Dom::new();
    let style = dom.create_element(name("style"), Vec::new());
    assert_eq!(dom.len(), 3);
    let sheet = sheet_of(&dom, style);
    assert_eq!(sheet.current_source(), "");
    assert_eq!(rule_count(sheet.current_rules()), Some(0));
}

#[test]
fn style_element_is_seeded_from_its_style_attribute() {
    let mut dom = Dom::new();
    let style = dom.create_element(
        name("style"),
        vec![
            Attribute { name: name("media"), value: "screen".to_string() },
            Attribute { name: name("style"), value: "a { color: red }".to_string() },
        ],
    );
    let sheet = sheet_of(&dom, style);
    assert_eq!(sheet.current_source(), "a { color: red }");
    assert_eq!(rule_count(sheet.current_rules()), Some(1));
}

#[test]
fn style_attribute_in_a_namespace_is_no_seed() {
    let mut dom = Dom::new();
    let style = dom.create_element(
        name("style"),
        vec![Attribute {
            name: QualName::new(None, "http://www.w3.org/2000/svg".to_string(), "style".to_string()),
            value: "a { color: red }".to_string(),
        }],
    );
    assert_eq!(sheet_of(&dom, style).current_source(), "");
}

#[test]
fn normal_element_with_style_attribute_has_no_children() {
    let mut dom = Dom::new();
    let div = dom.create_element(
        name("div"),
        vec![Attribute { name: name("style"), value: "color: red".to_string() }],
    );
    assert_eq!(dom.len(), 2);
    assert!(matches!(dom.get(div), Some(Node::Element { children, .. }) if children.is_empty()));
}

#[test]
fn text_for_a_style_element_goes_to_its_stylesheet() {
    let mut dom = Dom::new();
    let style = dom.create_element(name("style"), Vec::new());
    let before = dom.len();
    assert_eq!(dom.append(style, NodeOrText::AppendText("bo".to_string())), None);
    assert_eq!(dom.len(), before);
    assert_eq!(sheet_of(&dom, style).current_source(), "bo");
    assert!(sheet_of(&dom, style).current_rules().outcome.is_err());
    assert_eq!(dom.append(style, NodeOrText::AppendText("dy{color:red}".to_string())), None);
    assert_eq!(dom.len(), before);
    assert_eq!(sheet_of(&dom, style).current_source(), "body{color:red}");
    let whole = StyleSheet::new("body{color:red}".to_string());
    assert_eq!(rule_count(sheet_of(&dom, style).current_rules()), Some(1));
    assert!(same_rules(sheet_of(&dom, style).current_rules(), whole.current_rules()));
    let texts = dom
        .handles()
        .into_iter()
        .filter(|h| matches!(dom.get(*h), Some(Node::Text(_))))
        .count();
    assert_eq!(texts, 0);
}

#[test]
fn style_text_in_parts_equals_text_at_once() {
    let mut parts = Dom::new();
    let a = parts.create_element(name("style"), Vec::new());
    parts.append(a, NodeOrText::AppendText("p { margin".to_string()));
    parts.append(a, NodeOrText::AppendText(": 0 } em { color: blue }".to_string()));
    let mut whole = Dom::new();
    let b = whole.create_element(name("style"), Vec::new());
    whole.append(b, NodeOrText::AppendText("p { margin: 0 } em { color: blue }".to_string()));
    assert_eq!(sheet_of(&parts, a).current_source(), sheet_of(&whole, b).current_source());
    assert_eq!(rule_count(sheet_of(&parts, a).current_rules()), Some(2));
    assert!(same_rules(sheet_of(&parts, a).current_rules(), sheet_of(&whole, b).current_rules()));
}

#[test]
fn style_text_before_a_sibling_goes_to_the_stylesheet_too() {
    let mut dom = Dom::new();
    let style = dom.create_element(name("style"), Vec::new());
    let elsewhere = dom.create_element(name("p"), Vec::new());
    assert_eq!(
        dom.append_based_on_parent_node(
            style,
            elsewhere,
            NodeOrText::AppendText("a{}".to_string())
        ),
        None
    );
    assert_eq!(sheet_of(&dom, style).current_source(), "a{}");
}
