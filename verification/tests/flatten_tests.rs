use domain_tree::{flatten_domain_tree_item_with_prefix, DomainTreeItem, DomainTreeRoot};

fn leaf(label: &str) -> DomainTreeItem {
    DomainTreeItem { value: label.to_string(), children: None }
}

fn node(label: &str, children: Vec<DomainTreeItem>) -> DomainTreeItem {
    DomainTreeItem { value: label.to_string(), children: Some(children) }
}

fn sample() -> DomainTreeRoot {
    DomainTreeRoot {
        children: vec![
            node("fruit", vec![leaf("apple"), node("citrus", vec![leaf("lemon"), leaf("lime")])]),
            node("veg", vec![leaf("carrot")]),
        ],
    }
}

fn count(item: &DomainTreeItem) -> usize {
    1 + item.children.as_ref().map_or(0, |children| children.iter().map(count).sum())
}

fn chains(items: &[DomainTreeItem], ancestors: &[String], out: &mut Vec<Vec<String>>) {
    for item in items {
        let mut chain = vec![item.value.clone()];
        chain.extend_from_slice(ancestors);
        out.push(chain.clone());
        if let Some(children) = &item.children {
            chains(children, &chain, out);
        }
    }
}

#[test]
fn leaf_flattens_to_its_own_entry() {
    assert_eq!(leaf("apple").flatten(), vec![".apple"]);
}

#[test]
fn internal_node_comes_before_its_children() {
    let item = node("citrus", vec![leaf("lemon"), leaf("lime")]);
    assert_eq!(item.flatten(), vec![".citrus", ".lemon.citrus", ".lime.citrus"]);
}

#[test]
fn node_with_empty_children_has_one_entry() {
    assert_eq!(node("citrus", vec![]).flatten(), vec![".citrus"]);
}

#[test]
fn suffix_trails_every_entry() {
    let item = node("citrus", vec![leaf("lemon")]);
    let paths = flatten_domain_tree_item_with_prefix(item, ".fruit.food".to_string());
    assert_eq!(paths, vec![".citrus.fruit.food", ".lemon.citrus.fruit.food"]);
}

#[test]
fn suffix_is_taken_as_it_is() {
    let paths = flatten_domain_tree_item_with_prefix(leaf("a"), "b".to_string());
    assert_eq!(paths, vec![".ab"]);
}

#[test]
fn deep_chain_spells_every_ancestor() {
    let item = node("a", vec![node("b", vec![node("c", vec![leaf("d")])])]);
    assert_eq!(item.flatten(), vec![".a", ".b.a", ".c.b.a", ".d.c.b.a"]);
}

#[test]
fn root_has_no_entry_of_its_own() {
    assert_eq!(DomainTreeRoot { children: vec![] }.flatten(), Vec::<String>::new());
    assert_eq!(DomainTreeRoot { children: vec![leaf("a"), leaf("b")] }.flatten(), vec![".a", ".b"]);
}

#[test]
fn siblings_with_one_label_are_both_listed() {
    let root = DomainTreeRoot {
        children: vec![node("fruit", vec![leaf("apple")]), node("fruit", vec![leaf("pear")])],
    };
    assert_eq!(root.flatten(), vec![".fruit", ".apple.fruit", ".fruit", ".pear.fruit"]);
}

#[test]
fn one_path_for_every_node() {
    let root = sample();
    let nodes: usize = root.children.iter().map(count).sum();
    assert_eq!(nodes, 7);
    assert_eq!(root.flatten().len(), nodes);
}

#[test]
fn flattening_again_gives_the_same_list() {
    let root = sample();
    let first = root.clone().flatten();
    let second = root.clone().flatten();
    let third = root.flatten();
    assert_eq!(first, second);
    assert_eq!(second, third);
}

#[test]
fn paths_read_back_as_label_chains() {
    let root = sample();
    let mut expected = Vec::new();
    chains(&root.children, &[], &mut expected);
    let paths = root.flatten();
    assert_eq!(paths.len(), expected.len());
    for (path, chain) in paths.iter().zip(expected.iter()) {
        assert!(path.starts_with('.'));
        let labels: Vec<String> = path[1..].split('.').map(|label| label.to_string()).collect();
        assert_eq!(&labels, chain);
    }
    assert_eq!(expected[3], vec!["lemon", "citrus", "fruit"]);
}

#[test]
fn label_with_a_dot_does_not_read_back() {
    let root = DomainTreeRoot { children: vec![node("a.b", vec![leaf("c")])] };
    assert_eq!(root.flatten(), vec![".a.b", ".c.a.b"]);
}

#[test]
fn clone_equals_its_source() {
    let root = sample();
    assert_eq!(root.clone(), root);
    assert_ne!(root, DomainTreeRoot { children: vec![] });
    assert_ne!(leaf("a"), node("a", vec![]));
    assert_ne!(leaf("a"), leaf("b"));
    assert_ne!(node("a", vec![leaf("x"), leaf("y")]), node("a", vec![leaf("y"), leaf("x")]));
}
