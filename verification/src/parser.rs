//! Validation of document values and their assembly into one domain tree.

use vstd::prelude::*;
use crate::document::{doc_views, entry_views, rendering, DocEntry, DocModel, DocValue};
use crate::error::{DataHandlingError, ParsingError};
use crate::tree::{
    labelled_forest, labelled_node, node_views, DomainTreeItem, DomainTreeRoot, NodeModel,
};

verus! {

/// Position of the first entry whose key is the scalar `name`, if there is one.
pub open spec fn find_field(entries: Seq<(DocModel, DocModel)>, name: Seq<char>) -> Option<int>
    decreases entries.len(),
{
    if entries.len() == 0 {
        None
    } else {
        match find_field(entries.drop_last(), name) {
            Some(i) => Some(i),
            None => if entries.last().0 == DocModel::Scalar(name) {
                Some(entries.len() - 1)
            } else {
                None
            },
        }
    }
}

/// `find_field` answers with a position of `entries`, that of an entry keyed
/// by `name`, and no earlier entry has that key.
pub proof fn lemma_find_field(entries: Seq<(DocModel, DocModel)>, name: Seq<char>)
    ensures
        match find_field(entries, name) {
            Some(i) => 0 <= i < entries.len() && entries[i].0 == DocModel::Scalar(name)
                && forall|j: int| 0 <= j < i ==> entries[j].0 != DocModel::Scalar(name),
            None => forall|j: int| 0 <= j < entries.len() ==> entries[j].0 != DocModel::Scalar(name),
        },
    decreases entries.len(),
{
    if entries.len() > 0 {
        let front = entries.drop_last();
        lemma_find_field(front, name);
        assert(forall|j: int| 0 <= j < front.len() ==> front[j] == entries[j]);
    }
}

/// What is found in a prefix of the entries is found in all of them.
proof fn lemma_find_field_prefix(entries: Seq<(DocModel, DocModel)>, name: Seq<char>, n: int)
    requires
        0 <= n <= entries.len(),
        find_field(entries.take(n), name) is Some,
    ensures
        find_field(entries, name) == find_field(entries.take(n), name),
    decreases entries.len() - n,
{
    if n < entries.len() {
        assert(entries.take(n + 1).drop_last() =~= entries.take(n));
        lemma_find_field_prefix(entries, name, n + 1);
    } else {
        assert(entries.take(n) =~= entries);
    }
}

/// The error for a mapping element that lacks a string `value` or a list `children`.
pub open spec fn missing_fields_message(key: Seq<char>, item: DocModel) -> Seq<char> {
    "When parsing "@ + key
        + " there was a Hash entry that did not have required `value` and `children` fields. Item: "@
        + rendering(item)
}

/// The error for an element that is neither a string nor a mapping.
pub open spec fn invalid_node_message(key: Seq<char>, item: DocModel) -> Seq<char> {
    "Found invalid node when parsing "@ + key + ". Node: "@ + rendering(item)
}

/// The node that one list element stands for, or the error that rejects it.
pub open spec fn parsed_item(item: DocModel, key: Seq<char>) -> Result<NodeModel, Seq<char>>
    decreases item,
{
    match item {
        DocModel::Scalar(s) => Ok(NodeModel { label: s, children: None }),
        DocModel::Mapping(entries) => {
            match (find_field(entries, "value"@), find_field(entries, "children"@)) {
                (Some(v), Some(c)) => {
                    proof {
                        lemma_find_field(entries, "value"@);
                        lemma_find_field(entries, "children"@);
                    }
                    match (entries[v].1, entries[c].1) {
                        (DocModel::Scalar(label), DocModel::Sequence(items)) => {
                            match parsed_list(items, key) {
                                Ok(children) => Ok(NodeModel { label, children: Some(children) }),
                                Err(e) => Err(e),
                            }
                        },
                        _ => Err(missing_fields_message(key, item)),
                    }
                },
                _ => Err(missing_fields_message(key, item)),
            }
        },
        _ => Err(invalid_node_message(key, item)),
    }
}

/// The nodes that a list of elements stands for, in the order of the list, or
/// the error of the first element that is rejected.
pub open spec fn parsed_list(items: Seq<DocModel>, key: Seq<char>) -> Result<Seq<NodeModel>, Seq<char>>
    decreases items,
{
    if items.len() == 0 {
        Ok(Seq::empty())
    } else {
        match parsed_list(items.drop_last(), key) {
            Err(e) => Err(e),
            Ok(front) => match parsed_item(items.last(), key) {
                Err(e) => Err(e),
                Ok(node) => Ok(front.push(node)),
            },
        }
    }
}

/// A list is parsed element by element and in order: where it is accepted,
/// the node at each position is that of the element at the same position;
/// where it is rejected, the error is that of its first rejected element.
pub proof fn lemma_parsed_list_by_element(items: Seq<DocModel>, key: Seq<char>)
    ensures
        match parsed_list(items, key) {
            Ok(nodes) => nodes.len() == items.len() && forall|i: int|
                0 <= i < items.len() ==> parsed_item(#[trigger] items[i], key) == Ok::<
                    NodeModel,
                    Seq<char>,
                >(nodes[i]),
            Err(e) => exists|i: int|
                0 <= i < items.len() && parsed_item(#[trigger] items[i], key) == Err::<
                    NodeModel,
                    Seq<char>,
                >(e) && forall|j: int| 0 <= j < i ==> parsed_item(#[trigger] items[j], key) is Ok,
        },
    decreases items.len(),
{
    if items.len() > 0 {
        let front = items.drop_last();
        lemma_parsed_list_by_element(front, key);
        assert(forall|i: int| 0 <= i < front.len() ==> front[i] == items[i]);
        match parsed_list(front, key) {
            Ok(nodes) => {
                if parsed_item(items.last(), key) is Err {
                    let i = items.len() - 1;
                    assert(items[i] == items.last());
                }
            },
            Err(e) => {
                let i = choose|i: int|
                    0 <= i < front.len() && parsed_item(#[trigger] front[i], key) == Err::<
                        NodeModel,
                        Seq<char>,
                    >(e) && forall|j: int|
                        0 <= j < i ==> parsed_item(#[trigger] front[j], key) is Ok;
                assert(items[i] == front[i]);
                assert forall|j: int| 0 <= j < i implies parsed_item(
                    #[trigger] items[j],
                    key,
                ) is Ok by {
                    assert(items[j] == front[j]);
                }
            },
        }
    }
}

/// The value of the first entry keyed by the scalar `name`.
fn get_field<'a>(entries: &'a Vec<DocEntry>, name: &str) -> (r: Option<&'a DocValue>)
    ensures
        match find_field(entry_views(entries@), name@) {
            Some(i) => 0 <= i < entries.len() && r == Some(&entries[i].value),
            None => r is None,
        },
{
    let target = name.to_owned();
    let ghost all = entry_views(entries@);
    let mut i: usize = 0;
    while i < entries.len()
        invariant
            i <= entries.len(),
            all == entry_views(entries@),
            target@ == name@,
            find_field(all.take(i as int), name@) is None,
        decreases entries.len() - i,
    {
        proof {
            assert(all.take(i + 1).drop_last() =~= all.take(i as int));
        }
        let found = match &entries[i].key {
            DocValue::Scalar(s) => *s == target,
            _ => false,
        };
        if found {
            proof {
                assert(all.take(i + 1).last().0 == DocModel::Scalar(name@));
                lemma_find_field_prefix(all, name@, i + 1);
            }
            return Some(&entries[i].value);
        }
        i += 1;
    }
    proof {
        assert(all.take(i as int) =~= all);
    }
    None
}

/// The error whose description is `missing_fields_message`.
fn missing_fields_error(key: &String, item: &DocValue) -> (r: ParsingError)
    ensures
        r@ == missing_fields_message(key@, item@),
{
    let mut text = String::from_str("When parsing ");
    text.append(key.as_str());
    text.append(
        " there was a Hash entry that did not have required `value` and `children` fields. Item: ",
    );
    let shown = item.render();
    text.append(shown.as_str());
    ParsingError::new(text)
}

/// The error whose description is `invalid_node_message`.
fn invalid_node_error(key: &String, item: &DocValue) -> (r: ParsingError)
    ensures
        r@ == invalid_node_message(key@, item@),
{
    let mut text = String::from_str("Found invalid node when parsing ");
    text.append(key.as_str());
    text.append(". Node: ");
    let shown = item.render();
    text.append(shown.as_str());
    ParsingError::new(text)
}

/// Whether `r` is the outcome that `expected` describes: the value with that
/// model, or the error with that description.
pub open spec fn item_outcome(
    r: Result<DomainTreeItem, ParsingError>,
    expected: Result<NodeModel, Seq<char>>,
) -> bool {
    match expected {
        Ok(node) => r is Ok && r->Ok_0@ == node,
        Err(message) => r is Err && r->Err_0@ == message,
    }
}

/// As `item_outcome`, for a list of nodes.
pub open spec fn list_outcome(
    r: Result<Vec<DomainTreeItem>, ParsingError>,
    expected: Result<Seq<NodeModel>, Seq<char>>,
) -> bool {
    match expected {
        Ok(nodes) => r is Ok && node_views(r->Ok_0@) == nodes,
        Err(message) => r is Err && r->Err_0@ == message,
    }
}

/// Converts one list element into a node: a string becomes a leaf, a mapping
/// with a string `value` and a list `children` becomes an internal node, and
/// anything else is rejected.
pub fn parse_domain_item(item: &DocValue, key_str: &String) -> (r: Result<
    DomainTreeItem,
    ParsingError,
>)
    ensures
        item_outcome(r, parsed_item(item@, key_str@)),
    decreases item,
{
    match item {
        DocValue::Scalar(s) => Ok(DomainTreeItem { value: s.clone(), children: None }),
        DocValue::Mapping(h) => {
            let value_opt = match get_field(h, "value") {
                Some(DocValue::Scalar(s)) => Some(s.clone()),
                _ => None,
            };
            let children_opt = match get_field(h, "children") {
                Some(DocValue::Sequence(items)) => Some(items),
                _ => None,
            };
            match (value_opt, children_opt) {
                (Some(value), Some(children)) => {
                    match parse_domain_list(children, key_str) {
                        Ok(parsed_children) => Ok(
                            DomainTreeItem { value, children: Some(parsed_children) },
                        ),
                        Err(e) => Err(e),
                    }
                },
                _ => Err(missing_fields_error(key_str, item)),
            }
        },
        _ => Err(invalid_node_error(key_str, item)),
    }
}

/// Converts a list of elements into nodes, in the order of the list. The
/// first element that is rejected ends the work: its error is returned and
/// no node is.
pub fn parse_domain_list(items: &Vec<DocValue>, key_str: &String) -> (r: Result<
    Vec<DomainTreeItem>,
    ParsingError,
>)
    ensures
        list_outcome(r, parsed_list(doc_views(items@), key_str@)),
    decreases items,
{
    let ghost all = doc_views(items@);
    let mut result: Vec<DomainTreeItem> = Vec::new();
    let mut i: usize = 0;
    assert(node_views(result@) =~= Seq::empty());
    while i < items.len()
        invariant
            i <= items.len(),
            all == doc_views(items@),
            parsed_list(all.take(i as int), key_str@) == Ok::<Seq<NodeModel>, Seq<char>>(
                node_views(result@),
            ),
        decreases items.len() - i,
    {
        proof {
            assert(all.take(i + 1).drop_last() =~= all.take(i as int));
        }
        match parse_domain_item(&items[i], key_str) {
            Ok(node) => {
                let ghost before = node_views(result@);
                result.push(node);
                assert(node_views(result@) =~= before.push(node@));
            },
            Err(e) => {
                proof {
                    lemma_parsed_list_prefix_error(all, key_str@, i + 1);
                }
                return Err(e);
            },
        }
        i += 1;
    }
    proof {
        assert(all.take(i as int) =~= all);
    }
    Ok(result)
}

/// An error met in a prefix of the list is the error of the whole list.
proof fn lemma_parsed_list_prefix_error(items: Seq<DocModel>, key: Seq<char>, n: int)
    requires
        0 <= n <= items.len(),
        parsed_list(items.take(n), key) is Err,
    ensures
        parsed_list(items, key) == parsed_list(items.take(n), key),
    decreases items.len() - n,
{
    if n < items.len() {
        assert(items.take(n + 1).drop_last() =~= items.take(n));
        lemma_parsed_list_prefix_error(items, key, n + 1);
    } else {
        assert(items.take(n) =~= items);
    }
}

/// The error for a document that is not a mapping.
pub open spec fn not_a_mapping_message(doc: DocModel) -> Seq<char> {
    "Expected top-level doc to be a hash, for "@ + rendering(doc)
}

/// The error for a top-level key that is not a string.
pub open spec fn key_not_string_message(key: DocModel, doc: DocModel) -> Seq<char> {
    "Expected key "@ + rendering(key) + " to be a string in top-level doc "@ + rendering(doc)
}

/// The error for a top-level value that is not a list.
pub open spec fn value_not_list_message(value: DocModel, key: Seq<char>, doc: DocModel) -> Seq<
    char,
> {
    "Expected value "@ + rendering(value) + " for key "@ + key
        + " to be a list in top-level doc "@ + rendering(doc)
}

/// The top-level node that one entry of the document `doc` stands for: the
/// key is its label and the parsed list its children.
pub open spec fn merged_entry(entry: (DocModel, DocModel), doc: DocModel) -> Result<
    NodeModel,
    Seq<char>,
> {
    match entry.0 {
        DocModel::Scalar(key) => match entry.1 {
            DocModel::Sequence(items) => match parsed_list(items, key) {
                Ok(children) => Ok(NodeModel { label: key, children: Some(children) }),
                Err(e) => Err(e),
            },
            _ => Err(value_not_list_message(entry.1, key, doc)),
        },
        _ => Err(key_not_string_message(entry.0, doc)),
    }
}

/// The top-level nodes of the entries of `doc`, in entry order, or the first error.
pub open spec fn merged_entries(entries: Seq<(DocModel, DocModel)>, doc: DocModel) -> Result<
    Seq<NodeModel>,
    Seq<char>,
>
    decreases entries.len(),
{
    if entries.len() == 0 {
        Ok(Seq::empty())
    } else {
        match merged_entries(entries.drop_last(), doc) {
            Err(e) => Err(e),
            Ok(front) => match merged_entry(entries.last(), doc) {
                Err(e) => Err(e),
                Ok(node) => Ok(front.push(node)),
            },
        }
    }
}

/// The top-level nodes of one document, which must be a mapping.
pub open spec fn merged_doc(doc: DocModel) -> Result<Seq<NodeModel>, Seq<char>> {
    match doc {
        DocModel::Mapping(entries) => merged_entries(entries, doc),
        _ => Err(not_a_mapping_message(doc)),
    }
}

/// The children of the root built from `docs`: the top-level nodes of each
/// document, in document order and then entry order, or the first error.
pub open spec fn merged_docs(docs: Seq<DocModel>) -> Result<Seq<NodeModel>, Seq<char>>
    decreases docs.len(),
{
    if docs.len() == 0 {
        Ok(Seq::empty())
    } else {
        match merged_docs(docs.drop_last()) {
            Err(e) => Err(e),
            Ok(front) => match merged_doc(docs.last()) {
                Err(e) => Err(e),
                Ok(nodes) => Ok(front + nodes),
            },
        }
    }
}

/// The entries of a document: those of a mapping, none for any other shape.
pub open spec fn doc_entries(doc: DocModel) -> Seq<(DocModel, DocModel)> {
    match doc {
        DocModel::Mapping(entries) => entries,
        _ => Seq::empty(),
    }
}

/// Every (document, top-level key) pair of `docs`, in document order and
/// then entry order.
pub open spec fn top_level_entries(docs: Seq<DocModel>) -> Seq<(DocModel, DocModel)>
    decreases docs.len(),
{
    if docs.len() == 0 {
        Seq::empty()
    } else {
        top_level_entries(docs.drop_last()) + doc_entries(docs.last())
    }
}

/// Whether `node` is the top-level node of `entry`: labelled by its key,
/// with the entry's parsed list as children.
pub open spec fn node_of_entry(node: NodeModel, entry: (DocModel, DocModel)) -> bool {
    &&& entry.0 == DocModel::Scalar(node.label)
    &&& entry.1 matches DocModel::Sequence(items)
    &&& parsed_list(items, node.label) == Ok::<Seq<NodeModel>, Seq<char>>(node.children->0)
    &&& node.children is Some
}

/// Accepted entries give one node each, in entry order.
pub proof fn lemma_merged_entries_one_node_each(entries: Seq<(DocModel, DocModel)>, doc: DocModel)
    requires
        merged_entries(entries, doc) is Ok,
    ensures
        merged_entries(entries, doc)->Ok_0.len() == entries.len(),
        forall|i: int|
            0 <= i < entries.len() ==> node_of_entry(
                #[trigger] merged_entries(entries, doc)->Ok_0[i],
                entries[i],
            ),
    decreases entries.len(),
{
    if entries.len() > 0 {
        lemma_merged_entries_one_node_each(entries.drop_last(), doc);
    }
}

/// The root has one child for every (document, top-level key) pair of the
/// accepted documents, in document order and then key order: as many children
/// as there are pairs, the child at each position labelled by the key at that
/// position, and nothing merged where a key occurs twice.
pub proof fn lemma_root_child_per_top_level_key(docs: Seq<DocModel>)
    requires
        merged_docs(docs) is Ok,
    ensures
        merged_docs(docs)->Ok_0.len() == top_level_entries(docs).len(),
        forall|i: int|
            0 <= i < top_level_entries(docs).len() ==> node_of_entry(
                #[trigger] merged_docs(docs)->Ok_0[i],
                top_level_entries(docs)[i],
            ),
    decreases docs.len(),
{
    if docs.len() > 0 {
        lemma_root_child_per_top_level_key(docs.drop_last());
        lemma_merged_entries_one_node_each(doc_entries(docs.last()), docs.last());
    }
}

/// Whether no string scalar anywhere in `v` is empty.
pub open spec fn no_empty_scalar(v: DocModel) -> bool
    decreases v,
{
    match v {
        DocModel::Scalar(s) => s.len() > 0,
        DocModel::Sequence(items) => forall|i: int|
            0 <= i < items.len() ==> no_empty_scalar(#[trigger] items[i]),
        DocModel::Mapping(entries) => forall|i: int|
            0 <= i < entries.len() ==> no_empty_scalar((#[trigger] entries[i]).0)
                && no_empty_scalar(entries[i].1),
        DocModel::Other(_) => true,
    }
}

/// A node parsed from an element without empty strings has no empty label.
proof fn lemma_parsed_item_labelled(item: DocModel, key: Seq<char>)
    requires
        no_empty_scalar(item),
        parsed_item(item, key) is Ok,
    ensures
        labelled_node(parsed_item(item, key)->Ok_0),
    decreases item,
{
    match item {
        DocModel::Mapping(entries) => {
            lemma_find_field(entries, "value"@);
            lemma_find_field(entries, "children"@);
            let v = find_field(entries, "value"@)->0;
            let c = find_field(entries, "children"@)->0;
            assert(no_empty_scalar(entries[v].1));
            assert(no_empty_scalar(entries[c].1));
            let items = entries[c].1->Sequence_0;
            lemma_parsed_list_labelled(items, key);
        },
        _ => {},
    }
}

/// Nodes parsed from elements without empty strings have no empty label.
proof fn lemma_parsed_list_labelled(items: Seq<DocModel>, key: Seq<char>)
    requires
        forall|i: int| 0 <= i < items.len() ==> no_empty_scalar(#[trigger] items[i]),
        parsed_list(items, key) is Ok,
    ensures
        labelled_forest(parsed_list(items, key)->Ok_0),
    decreases items,
{
    if items.len() > 0 {
        let front = items.drop_last();
        assert forall|i: int| 0 <= i < front.len() implies no_empty_scalar(#[trigger] front[i]) by {
            assert(front[i] == items[i]);
        }
        lemma_parsed_list_labelled(front, key);
        assert(no_empty_scalar(items[items.len() - 1]));
        lemma_parsed_item_labelled(items.last(), key);
        let nodes = parsed_list(items, key)->Ok_0;
        assert(nodes.drop_last() =~= parsed_list(front, key)->Ok_0);
    }
}

/// As `lemma_parsed_list_labelled`, for the entries of one document.
proof fn lemma_merged_entries_labelled(entries: Seq<(DocModel, DocModel)>, doc: DocModel)
    requires
        forall|i: int|
            0 <= i < entries.len() ==> no_empty_scalar((#[trigger] entries[i]).0)
                && no_empty_scalar(entries[i].1),
        merged_entries(entries, doc) is Ok,
    ensures
        labelled_forest(merged_entries(entries, doc)->Ok_0),
    decreases entries.len(),
{
    if entries.len() > 0 {
        let front = entries.drop_last();
        assert forall|i: int| 0 <= i < front.len() implies no_empty_scalar(
            (#[trigger] front[i]).0,
        ) && no_empty_scalar(front[i].1) by {
            assert(front[i] == entries[i]);
        }
        lemma_merged_entries_labelled(front, doc);
        let last = entries[entries.len() - 1];
        assert(no_empty_scalar(last.0) && no_empty_scalar(last.1));
        lemma_parsed_list_labelled(last.1->Sequence_0, last.0->Scalar_0);
        let nodes = merged_entries(entries, doc)->Ok_0;
        assert(last == entries.last());
        assert(nodes.drop_last() =~= merged_entries(front, doc)->Ok_0);
        assert(nodes.last() == merged_entry(last, doc)->Ok_0);
        assert(labelled_node(nodes.last()));
    }
}

/// Joining two forests without empty labels gives one without empty labels.
proof fn lemma_labelled_forest_concat(a: Seq<NodeModel>, b: Seq<NodeModel>)
    requires
        labelled_forest(a),
        labelled_forest(b),
    ensures
        labelled_forest(a + b),
    decreases b.len(),
{
    if b.len() == 0 {
        assert(a + b =~= a);
    } else {
        lemma_labelled_forest_concat(a, b.drop_last());
        assert((a + b).drop_last() =~= a + b.drop_last());
        assert((a + b).last() == b.last());
    }
}

/// Where no string of the accepted documents is empty, every node of the
/// tree, at every depth, has a non-empty label.
pub proof fn lemma_merged_tree_labelled(docs: Seq<DocModel>)
    requires
        forall|i: int| 0 <= i < docs.len() ==> no_empty_scalar(#[trigger] docs[i]),
        merged_docs(docs) is Ok,
    ensures
        labelled_forest(merged_docs(docs)->Ok_0),
    decreases docs.len(),
{
    if docs.len() > 0 {
        let front = docs.drop_last();
        assert forall|i: int| 0 <= i < front.len() implies no_empty_scalar(#[trigger] front[i]) by {
            assert(front[i] == docs[i]);
        }
        lemma_merged_tree_labelled(front);
        let last = docs[docs.len() - 1];
        assert(no_empty_scalar(last));
        lemma_merged_entries_labelled(last->Mapping_0, last);
        lemma_labelled_forest_concat(merged_docs(front)->Ok_0, merged_doc(last)->Ok_0);
    }
}

/// An error met in a prefix of the entries is the error of all of them.
proof fn lemma_merged_entries_prefix_error(
    entries: Seq<(DocModel, DocModel)>,
    doc: DocModel,
    n: int,
)
    requires
        0 <= n <= entries.len(),
        merged_entries(entries.take(n), doc) is Err,
    ensures
        merged_entries(entries, doc) == merged_entries(entries.take(n), doc),
    decreases entries.len() - n,
{
    if n < entries.len() {
        assert(entries.take(n + 1).drop_last() =~= entries.take(n));
        lemma_merged_entries_prefix_error(entries, doc, n + 1);
    } else {
        assert(entries.take(n) =~= entries);
    }
}

/// An error met in a prefix of the documents is the error of all of them.
proof fn lemma_merged_docs_prefix_error(docs: Seq<DocModel>, n: int)
    requires
        0 <= n <= docs.len(),
        merged_docs(docs.take(n)) is Err,
    ensures
        merged_docs(docs) == merged_docs(docs.take(n)),
    decreases docs.len() - n,
{
    if n < docs.len() {
        assert(docs.take(n + 1).drop_last() =~= docs.take(n));
        lemma_merged_docs_prefix_error(docs, n + 1);
    } else {
        assert(docs.take(n) =~= docs);
    }
}

/// The error whose description is `not_a_mapping_message`.
fn not_a_mapping_error(doc: &DocValue) -> (r: ParsingError)
    ensures
        r@ == not_a_mapping_message(doc@),
{
    let mut text = String::from_str("Expected top-level doc to be a hash, for ");
    let shown = doc.render();
    text.append(shown.as_str());
    ParsingError::new(text)
}

/// The error whose description is `key_not_string_message`.
fn key_not_string_error(key: &DocValue, doc: &DocValue) -> (r: ParsingError)
    ensures
        r@ == key_not_string_message(key@, doc@),
{
    let mut text = String::from_str("Expected key ");
    let shown_key = key.render();
    text.append(shown_key.as_str());
    text.append(" to be a string in top-level doc ");
    let shown_doc = doc.render();
    text.append(shown_doc.as_str());
    ParsingError::new(text)
}

/// The error whose description is `value_not_list_message`.
fn value_not_list_error(value: &DocValue, key: &String, doc: &DocValue) -> (r: ParsingError)
    ensures
        r@ == value_not_list_message(value@, key@, doc@),
{
    let mut text = String::from_str("Expected value ");
    let shown_value = value.render();
    text.append(shown_value.as_str());
    text.append(" for key ");
    text.append(key.as_str());
    text.append(" to be a list in top-level doc ");
    let shown_doc = doc.render();
    text.append(shown_doc.as_str());
    ParsingError::new(text)
}

/// Whether `r` is the outcome that `expected` describes: the root with those
/// children, or the validation error with that description.
pub open spec fn merge_outcome(
    r: Result<DomainTreeRoot, DataHandlingError>,
    expected: Result<Seq<NodeModel>, Seq<char>>,
) -> bool {
    match expected {
        Ok(nodes) => r is Ok && r->Ok_0@ == nodes,
        Err(message) => r matches Err(DataHandlingError::ParsingError(e)) && e@ == message,
    }
}

/// Builds the tree of all documents. Each document must be a mapping from
/// string keys to lists; every key becomes one child of the root, in document
/// order and then key order, with the parsed list as its children. Keys that
/// occur more than once stay separate siblings. The first violation ends the
/// work: its error is returned and no tree is.
#[verifier::loop_isolation(false)]
pub fn merge_and_validate_docs(docs: Vec<DocValue>) -> (r: Result<
    DomainTreeRoot,
    DataHandlingError,
>)
    ensures
        merge_outcome(r, merged_docs(doc_views(docs@))),
{
    let ghost all = doc_views(docs@);
    let mut full_set: Vec<DomainTreeItem> = Vec::new();
    let mut d: usize = 0;
    assert(node_views(full_set@) =~= Seq::empty());
    while d < docs.len()
        invariant
            d <= docs.len(),
            all == doc_views(docs@),
            merged_docs(all.take(d as int)) == Ok::<Seq<NodeModel>, Seq<char>>(
                node_views(full_set@),
            ),
        decreases docs.len() - d,
    {
        let doc = &docs[d];
        let ghost front = node_views(full_set@);
        proof {
            assert(all.take(d + 1).drop_last() =~= all.take(d as int));
            assert(all.take(d + 1).last() == doc@);
        }
        match doc {
            DocValue::Mapping(hash) => {
                let ghost entries = entry_views(hash@);
                let mut k: usize = 0;
                assert(front + Seq::<NodeModel>::empty() =~= front);
                while k < hash.len()
                    invariant
                        k <= hash.len(),
                        entries == entry_views(hash@),
                        doc@ == DocModel::Mapping(entries),
                        exists|part: Seq<NodeModel>|
                            merged_entries(entries.take(k as int), doc@) == Ok::<
                                Seq<NodeModel>,
                                Seq<char>,
                            >(part) && node_views(full_set@) == front + part,
                    decreases hash.len() - k,
                {
                    let ghost part = choose|part: Seq<NodeModel>|
                        merged_entries(entries.take(k as int), doc@) == Ok::<
                            Seq<NodeModel>,
                            Seq<char>,
                        >(part) && node_views(full_set@) == front + part;
                    proof {
                        assert(entries.take(k + 1).drop_last() =~= entries.take(k as int));
                        assert(entries.take(k + 1).last() == hash[k as int]@);
                    }
                    let entry = &hash[k];
                    let key_str = match &entry.key {
                        DocValue::Scalar(s) => s.clone(),
                        _ => {
                            let e = key_not_string_error(&entry.key, doc);
                            proof {
                                lemma_merged_entries_prefix_error(entries, doc@, k + 1);
                                lemma_merged_docs_prefix_error(all, d + 1);
                            }
                            return Err(DataHandlingError::ParsingError(e));
                        },
                    };
                    let yaml_list = match &entry.value {
                        DocValue::Sequence(items) => items,
                        _ => {
                            let e = value_not_list_error(&entry.value, &key_str, doc);
                            proof {
                                lemma_merged_entries_prefix_error(entries, doc@, k + 1);
                                lemma_merged_docs_prefix_error(all, d + 1);
                            }
                            return Err(DataHandlingError::ParsingError(e));
                        },
                    };
                    let list = match parse_domain_list(yaml_list, &key_str) {
                        Ok(list) => list,
                        Err(e) => {
                            proof {
                                lemma_merged_entries_prefix_error(entries, doc@, k + 1);
                                lemma_merged_docs_prefix_error(all, d + 1);
                            }
                            return Err(DataHandlingError::ParsingError(e));
                        },
                    };
                    let node = DomainTreeItem { value: key_str, children: Some(list) };
                    let ghost before = node_views(full_set@);
                    let ghost added = node@;
                    full_set.push(node);
                    proof {
                        assert(before == front + part);
                        assert(node_views(full_set@) =~= before.push(added));
                        assert(before.push(added) =~= front + part.push(added));
                    }
                    k += 1;
                }
                proof {
                    assert(entries.take(k as int) =~= entries);
                }
            },
            _ => {
                let e = not_a_mapping_error(doc);
                proof {
                    lemma_merged_docs_prefix_error(all, d + 1);
                }
                return Err(DataHandlingError::ParsingError(e));
            },
        }
        d += 1;
    }
    proof {
        assert(all.take(d as int) =~= all);
    }
    Ok(DomainTreeRoot { children: full_set })
}

} // verus!
