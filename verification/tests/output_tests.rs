use domain_tree::{paths_to_json, paths_to_yaml, DomainTreeItem, DomainTreeRoot};

fn strings(items: &[&str]) -> Vec<String> {
    items.iter().map(|item| item.to_string()).collect()
}

#[test]
fn json_list_of_paths() {
    let text = paths_to_json(&strings(&[".fruit", ".apple.fruit"])).unwrap();
    assert_eq!(text, "[\".fruit\",\".apple.fruit\"]");
}

#[test]
fn json_empty_list() {
    assert_eq!(paths_to_json(&vec![]).unwrap(), "[]");
}

#[test]
fn json_escapes_special_characters() {
    let text = paths_to_json(&strings(&[".a\"b", ".c\\d", ".e\nf"])).unwrap();
    assert_eq!(text, "[\".a\\\"b\",\".c\\\\d\",\".e\\nf\"]");
}

#[test]
fn yaml_list_of_paths() {
    let text = paths_to_yaml(&strings(&[".fruit", ".apple.fruit"])).unwrap();
    assert_eq!(text, "- .fruit\n- .apple.fruit\n");
}

#[test]
fn yaml_empty_list() {
    assert_eq!(paths_to_yaml(&vec![]).unwrap(), "[]\n");
}

#[test]
fn flattened_tree_is_written_out() {
    let root = DomainTreeRoot {
        children: vec![DomainTreeItem {
            value: "veg".to_string(),
            children: Some(vec![DomainTreeItem { value: "carrot".to_string(), children: None }]),
        }],
    };
    let paths = root.flatten();
    assert_eq!(paths_to_json(&paths).unwrap(), "[\".veg\",\".carrot.veg\"]");
    assert_eq!(paths_to_yaml(&paths).unwrap(), "- .veg\n- .carrot.veg\n");
}
