//! From file names and file contents to document values.

use vstd::prelude::*;
use crate::document::{doc_views, DocEntry, DocModel, DocValue};
use crate::error::DataHandlingError;
use crate::text::{ends_with, texts};

verus! {

/// `yaml_rust::Yaml`, a node of a loaded document, carried through as an
/// opaque value.
#[verifier::external_type_specification]
#[verifier::external_body]
pub struct ExYaml(yaml_rust::Yaml);

/// What a `yaml_rust::Yaml` node holds, as the model of the document value
/// that stands for it.
pub uninterp spec fn yaml_model(node: yaml_rust::Yaml) -> DocModel;

/// The documents that `yaml_rust` reads from a text, each as the model of
/// the document value that stands for it; `None` where the text is refused.
pub uninterp spec fn yaml_documents(text: Seq<char>) -> Option<Seq<DocModel>>;

/// The models of a sequence of nodes, position by position.
pub open spec fn yaml_models(nodes: Seq<yaml_rust::Yaml>) -> Seq<DocModel> {
    Seq::new(nodes.len(), |i: int| yaml_model(nodes[i]))
}

/// Rewrites a `yaml_rust::Yaml` node as a document value, variant by
/// variant: a string, an array and a hash keep their contents (the hash its
/// entries in insertion order), and every other node is kept as the text
/// that `yaml_rust`'s `Debug` impl writes for it. The contract only names
/// the result: the same node gives the same value every time.
#[verifier::external_body]
fn doc_value_of(node: &yaml_rust::Yaml) -> (r: DocValue)
    ensures
        r@ == yaml_model(*node),
{
    match node {
        yaml_rust::Yaml::String(s) => DocValue::Scalar(s.clone()),
        yaml_rust::Yaml::Array(items) => DocValue::Sequence(
            items.iter().map(doc_value_of).collect(),
        ),
        yaml_rust::Yaml::Hash(h) => DocValue::Mapping(
            h.iter().map(|(k, v)| DocEntry { key: doc_value_of(k), value: doc_value_of(v) }).collect(),
        ),
        other => DocValue::Other(format!("{:?}", other)),
    }
}

/// Calls `yaml_rust::YamlLoader::load_from_str`. The contract names the
/// outcome: the same text gives the same documents, or is refused, every
/// time. The error is the loader's own.
#[verifier::external_body]
fn read_yaml(text: &str) -> (r: Result<Vec<yaml_rust::Yaml>, yaml_rust::ScanError>)
    ensures
        match r {
            Ok(nodes) => yaml_documents(text@) == Some(yaml_models(nodes@)),
            Err(_) => yaml_documents(text@) is None,
        },
{
    yaml_rust::YamlLoader::load_from_str(text)
}

/// Appends the document value of every node to `docs`.
fn append_documents(docs: &mut Vec<DocValue>, nodes: &Vec<yaml_rust::Yaml>)
    ensures
        doc_views(final(docs)@) == doc_views(old(docs)@) + yaml_models(nodes@),
{
    let ghost before = doc_views(docs@);
    let mut i: usize = 0;
    assert(doc_views(docs@) =~= before + yaml_models(nodes@).take(0));
    while i < nodes.len()
        invariant
            i <= nodes.len(),
            doc_views(docs@) == before + yaml_models(nodes@).take(i as int),
        decreases nodes.len() - i,
    {
        let ghost so_far = doc_views(docs@);
        let doc = doc_value_of(&nodes[i]);
        docs.push(doc);
        assert(doc_views(docs@) =~= so_far.push(yaml_model(nodes[i as int])));
        assert(so_far.push(yaml_model(nodes[i as int])) =~= before + yaml_models(nodes@).take(
            i + 1,
        ));
        i += 1;
    }
    assert(yaml_models(nodes@).take(i as int) =~= yaml_models(nodes@));
}

/// The documents of all texts, in the order of the texts and then of the
/// documents in each; `None` where a text is refused.
pub open spec fn all_documents(contents: Seq<Seq<char>>) -> Option<Seq<DocModel>>
    decreases contents.len(),
{
    if contents.len() == 0 {
        Some(Seq::empty())
    } else {
        match (all_documents(contents.drop_last()), yaml_documents(contents.last())) {
            (Some(front), Some(docs)) => Some(front + docs),
            _ => None,
        }
    }
}

/// A refusal met in a prefix of the texts stands for all of them.
proof fn lemma_all_documents_prefix_none(contents: Seq<Seq<char>>, n: int)
    requires
        0 <= n <= contents.len(),
        all_documents(contents.take(n)) is None,
    ensures
        all_documents(contents) is None,
    decreases contents.len() - n,
{
    if n < contents.len() {
        assert(contents.take(n + 1).drop_last() =~= contents.take(n));
        lemma_all_documents_prefix_none(contents, n + 1);
    } else {
        assert(contents.take(n) =~= contents);
    }
}

/// Reads the documents of every text. The first text that is refused ends
/// the work: its scan error is returned and no document is.
pub fn read_documents(contents: &Vec<String>) -> (r: Result<Vec<DocValue>, DataHandlingError>)
    ensures
        match r {
            Ok(docs) => all_documents(texts(contents@)) == Some(doc_views(docs@)),
            Err(e) => e is ScanError && all_documents(texts(contents@)) is None,
        },
{
    let ghost all = texts(contents@);
    let mut yaml_docs: Vec<DocValue> = Vec::new();
    let mut i: usize = 0;
    assert(doc_views(yaml_docs@) =~= Seq::empty());
    while i < contents.len()
        invariant
            i <= contents.len(),
            all == texts(contents@),
            all_documents(all.take(i as int)) == Some(doc_views(yaml_docs@)),
        decreases contents.len() - i,
    {
        proof {
            assert(all.take(i + 1).drop_last() =~= all.take(i as int));
            assert(all.take(i + 1).last() == contents[i as int]@);
        }
        match read_yaml(contents[i].as_str()) {
            Ok(nodes) => {
                append_documents(&mut yaml_docs, &nodes);
            },
            Err(e) => {
                proof {
                    lemma_all_documents_prefix_none(all, i + 1);
                }
                return Err(DataHandlingError::ScanError(e));
            },
        }
        i += 1;
    }
    proof {
        assert(all.take(i as int) =~= all);
    }
    Ok(yaml_docs)
}

/// Whether a file of this name is read as a document: its name ends with
/// `.yml` or with `.yaml`.
pub fn is_yaml_file(path: &str) -> (r: bool)
    ensures
        r == (".yml"@.is_suffix_of(path@) || ".yaml"@.is_suffix_of(path@)),
{
    ends_with(path, ".yml") || ends_with(path, ".yaml")
}

} // verus!
