use domain_tree::text::ends_with;
use domain_tree::{
    is_yaml_file, merge_and_validate_docs, read_documents, DataHandlingError, DocEntry, DocValue,
};

fn text(s: &str) -> DocValue {
    DocValue::Scalar(s.to_string())
}

fn other(s: &str) -> DocValue {
    DocValue::Other(s.to_string())
}

fn entry(key: DocValue, value: DocValue) -> DocEntry {
    DocEntry { key, value }
}

#[test]
fn yaml_file_names_are_recognised() {
    assert!(is_yaml_file("data/fruit.yml"));
    assert!(is_yaml_file("data/fruit.yaml"));
    assert!(is_yaml_file(".yml"));
    assert!(is_yaml_file(".yaml"));
    assert!(is_yaml_file("a.yaml.yml"));
}

#[test]
fn other_file_names_are_not() {
    assert!(!is_yaml_file(""));
    assert!(!is_yaml_file("yml"));
    assert!(!is_yaml_file("fruit.json"));
    assert!(!is_yaml_file("fruit.yml.bak"));
    assert!(!is_yaml_file("fruit.YML"));
    assert!(!is_yaml_file("fruit.yam"));
    assert!(!is_yaml_file("fruityaml"));
    assert!(!is_yaml_file("fruit.yml "));
}

#[test]
fn ends_with_compares_whole_characters() {
    assert!(ends_with("abc", ""));
    assert!(ends_with("", ""));
    assert!(ends_with("abc", "abc"));
    assert!(ends_with("abc", "bc"));
    assert!(!ends_with("abc", "ab"));
    assert!(!ends_with("bc", "abc"));
    assert!(ends_with("caf\u{e9}.yml", ".yml"));
    assert!(ends_with("na\u{ef}ve", "\u{ef}ve"));
    assert!(!ends_with("na\u{ef}ve", "ive"));
}

#[test]
fn text_is_read_into_document_values() {
    let source = "fruit:\n  - apple\n  - value: citrus\n    children:\n      - lemon\n      - lime\n";
    let docs = read_documents(&vec![source.to_string()]).unwrap();
    let expected = DocValue::Mapping(vec![entry(
        text("fruit"),
        DocValue::Sequence(vec![
            text("apple"),
            DocValue::Mapping(vec![
                entry(text("value"), text("citrus")),
                entry(text("children"), DocValue::Sequence(vec![text("lemon"), text("lime")])),
            ]),
        ]),
    )]);
    assert_eq!(docs, vec![expected]);
}

#[test]
fn other_shapes_keep_their_rendering() {
    let source = "- 3\n- true\n- ~\n- 1.5\n- \"3\"\n- text\n";
    let docs = read_documents(&vec![source.to_string()]).unwrap();
    assert_eq!(
        docs,
        vec![DocValue::Sequence(vec![
            other("Integer(3)"),
            other("Boolean(true)"),
            other("Null"),
            other("Real(\"1.5\")"),
            text("3"),
            text("text"),
        ])]
    );
}

#[test]
fn mapping_entries_keep_document_order() {
    let docs = read_documents(&vec!["b: 1\na: 2\n3: c\n".to_string()]).unwrap();
    assert_eq!(
        docs,
        vec![DocValue::Mapping(vec![
            entry(text("b"), other("Integer(1)")),
            entry(text("a"), other("Integer(2)")),
            entry(other("Integer(3)"), text("c")),
        ])]
    );
}

#[test]
fn documents_come_in_text_order_then_document_order() {
    let contents = vec!["a: []\n---\nb: []\n".to_string(), "".to_string(), "c: []\n".to_string()];
    let docs = read_documents(&contents).unwrap();
    let keys: Vec<String> = docs.iter().map(|doc| doc.render()).collect();
    assert_eq!(
        keys,
        vec![
            "Hash({String(\"a\"): Array([])})",
            "Hash({String(\"b\"): Array([])})",
            "Hash({String(\"c\"): Array([])})",
        ]
    );
}

#[test]
fn no_texts_give_no_documents() {
    assert_eq!(read_documents(&vec![]).unwrap(), vec![]);
}

#[test]
fn malformed_text_gives_a_scan_error() {
    let contents = vec!["a: []\n".to_string(), "a: [unclosed\n".to_string(), "b: []\n".to_string()];
    let error = read_documents(&contents).unwrap_err();
    assert!(matches!(error, DataHandlingError::ScanError(_)));
    let message = error.message();
    assert!(message.starts_with("YamlFileLoadingError:"));
    assert!(message.len() > "YamlFileLoadingError:".len());
    match error {
        DataHandlingError::ScanError(e) => {
            assert_eq!(message, format!("YamlFileLoadingError:{}", e))
        },
        _ => unreachable!(),
    }
}

#[test]
fn read_text_merges_into_a_tree() {
    let contents = vec![
        "fruit:\n  - apple\n  - value: citrus\n    children: [lemon, lime]\n".to_string(),
        "veg: [carrot]\n".to_string(),
    ];
    let root = merge_and_validate_docs(read_documents(&contents).unwrap()).unwrap();
    assert_eq!(
        root.flatten(),
        vec![
            ".fruit",
            ".apple.fruit",
            ".citrus.fruit",
            ".lemon.citrus.fruit",
            ".lime.citrus.fruit",
            ".veg",
            ".carrot.veg",
        ]
    );
}

#[test]
fn number_in_a_list_is_rejected_with_its_rendering() {
    let docs = read_documents(&vec!["fruit: [apple, 7]\n".to_string()]).unwrap();
    match merge_and_validate_docs(docs) {
        Err(DataHandlingError::ParsingError(e)) => {
            assert_eq!(e.error, "Found invalid node when parsing fruit. Node: Integer(7)")
        },
        other => panic!("expected a parsing error, got {:?}", other),
    }
}

#[test]
fn empty_document_is_not_a_mapping() {
    let docs = read_documents(&vec!["---\n".to_string()]).unwrap();
    assert_eq!(docs, vec![other("Null")]);
    match merge_and_validate_docs(docs) {
        Err(DataHandlingError::ParsingError(e)) => {
            assert_eq!(e.error, "Expected top-level doc to be a hash, for Null")
        },
        other => panic!("expected a parsing error, got {:?}", other),
    }
}
