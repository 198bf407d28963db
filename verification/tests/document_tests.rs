use domain_tree::document::scalar_rendering;
use domain_tree::{parse_domain_item, parse_domain_list, DocEntry, DocValue, DomainTreeItem};

fn text(s: &str) -> DocValue {
    DocValue::Scalar(s.to_string())
}

fn other(s: &str) -> DocValue {
    DocValue::Other(s.to_string())
}

fn entry(key: DocValue, value: DocValue) -> DocEntry {
    DocEntry { key, value }
}

#[test]
fn scalar_renders_quoted() {
    assert_eq!(text("apple").render(), "String(\"apple\")");
    assert_eq!(text("").render(), "String(\"\")");
}

#[test]
fn scalar_renders_with_escapes() {
    assert_eq!(text("a\"b").render(), "String(\"a\\\"b\")");
    assert_eq!(text("line\nbreak\ttab\\").render(), "String(\"line\\nbreak\\ttab\\\\\")");
    assert_eq!(text("it's").render(), "String(\"it's\")");
}

#[test]
fn scalar_rendering_wraps_quoted_text() {
    assert_eq!(scalar_rendering("\"apple\""), "String(\"apple\")");
    assert_eq!(scalar_rendering(""), "String()");
}

#[test]
fn other_renders_as_its_text() {
    assert_eq!(other("Integer(3)").render(), "Integer(3)");
    assert_eq!(other("").render(), "");
}

#[test]
fn sequence_renders_items_separated_by_commas() {
    assert_eq!(DocValue::Sequence(vec![]).render(), "Array([])");
    assert_eq!(DocValue::Sequence(vec![text("a")]).render(), "Array([String(\"a\")])");
    assert_eq!(
        DocValue::Sequence(vec![text("a"), other("Null"), text("b")]).render(),
        "Array([String(\"a\"), Null, String(\"b\")])"
    );
}

#[test]
fn mapping_renders_entries_in_order() {
    assert_eq!(DocValue::Mapping(vec![]).render(), "Hash({})");
    assert_eq!(
        DocValue::Mapping(vec![entry(text("k"), other("Integer(1)"))]).render(),
        "Hash({String(\"k\"): Integer(1)})"
    );
    assert_eq!(
        DocValue::Mapping(vec![
            entry(text("b"), DocValue::Sequence(vec![text("x"), text("y")])),
            entry(other("Boolean(true)"), DocValue::Mapping(vec![])),
            entry(text("a"), text("z")),
        ])
        .render(),
        "Hash({String(\"b\"): Array([String(\"x\"), String(\"y\")]), Boolean(true): Hash({}), \
         String(\"a\"): String(\"z\")})"
    );
}

#[test]
fn clone_and_equality_follow_the_contents() {
    let value = DocValue::Mapping(vec![
        entry(text("a"), DocValue::Sequence(vec![text("x"), other("Null")])),
        entry(other("Integer(1)"), text("y")),
    ]);
    assert_eq!(value.clone(), value);
    assert_ne!(value, DocValue::Mapping(vec![]));
    assert_ne!(text("a"), other("a"));
    assert_ne!(text("a"), text("b"));
    assert_ne!(
        DocValue::Sequence(vec![text("a"), text("b")]),
        DocValue::Sequence(vec![text("b"), text("a")])
    );
    assert_ne!(
        DocValue::Mapping(vec![entry(text("a"), text("b"))]),
        DocValue::Mapping(vec![entry(text("a"), text("c"))])
    );
    assert_eq!(entry(text("a"), text("b")).clone(), entry(text("a"), text("b")));
}

#[test]
fn string_element_becomes_a_leaf() {
    let item = parse_domain_item(&text("apple"), &"fruit".to_string()).unwrap();
    assert_eq!(item, DomainTreeItem { value: "apple".to_string(), children: None });
}

#[test]
fn mapping_element_becomes_an_internal_node() {
    let element = DocValue::Mapping(vec![
        entry(text("value"), text("citrus")),
        entry(text("children"), DocValue::Sequence(vec![text("lemon"), text("lime")])),
    ]);
    let item = parse_domain_item(&element, &"fruit".to_string()).unwrap();
    assert_eq!(
        item,
        DomainTreeItem {
            value: "citrus".to_string(),
            children: Some(vec![
                DomainTreeItem { value: "lemon".to_string(), children: None },
                DomainTreeItem { value: "lime".to_string(), children: None },
            ]),
        }
    );
}

#[test]
fn element_of_another_shape_is_rejected() {
    let error = parse_domain_item(&other("Real(\"1.5\")"), &"fruit".to_string()).unwrap_err();
    assert_eq!(error.error, "Found invalid node when parsing fruit. Node: Real(\"1.5\")");
}

#[test]
fn list_keeps_the_order_of_its_elements() {
    let items = vec![text("c"), text("a"), text("b")];
    let parsed = parse_domain_list(&items, &"k".to_string()).unwrap();
    let labels: Vec<&str> = parsed.iter().map(|item| item.value.as_str()).collect();
    assert_eq!(labels, vec!["c", "a", "b"]);
}

#[test]
fn empty_list_gives_no_nodes() {
    assert_eq!(parse_domain_list(&vec![], &"k".to_string()).unwrap(), vec![]);
}

#[test]
fn list_fails_on_its_first_bad_element() {
    let items = vec![
        text("a"),
        DocValue::Mapping(vec![entry(text("value"), text("b"))]),
        other("Null"),
    ];
    let error = parse_domain_list(&items, &"k".to_string()).unwrap_err();
    assert_eq!(
        error.error,
        "When parsing k there was a Hash entry that did not have required `value` and \
         `children` fields. Item: Hash({String(\"value\"): String(\"b\")})"
    );
}

#[test]
fn key_name_is_written_as_it_is() {
    let error = parse_domain_list(&vec![other("Null")], &"a \"b\"".to_string()).unwrap_err();
    assert_eq!(error.error, "Found invalid node when parsing a \"b\". Node: Null");
}
