//! Writing the flattened path list out as text.

use vstd::prelude::*;
use crate::text::texts;

verus! {

/// `serde_json::Error`, carried through as an opaque value.
#[verifier::external_type_specification]
#[verifier::external_body]
pub struct ExJsonError(serde_json::Error);

/// `serde_yaml::Error`, carried through as an opaque value.
#[verifier::external_type_specification]
#[verifier::external_body]
pub struct ExYamlError(serde_yaml::Error);

/// The JSON text that `serde_json` writes for a list of strings; `None`
/// where it fails.
pub uninterp spec fn json_list_text(paths: Seq<Seq<char>>) -> Option<Seq<char>>;

/// The YAML text that `serde_yaml` writes for a list of strings; `None`
/// where it fails.
pub uninterp spec fn yaml_list_text(paths: Seq<Seq<char>>) -> Option<Seq<char>>;

/// Calls `serde_json::to_string` on the list. The contract names the
/// outcome: the same list gives the same text, or fails, every time.
#[verifier::external_body]
fn json_of_list(paths: &Vec<String>) -> (r: Result<String, serde_json::Error>)
    ensures
        match r {
            Ok(text) => json_list_text(texts(paths@)) == Some(text@),
            Err(_) => json_list_text(texts(paths@)) is None,
        },
{
    serde_json::to_string(paths)
}

/// Calls `serde_yaml::to_string` on the list. The contract names the
/// outcome: the same list gives the same text, or fails, every time.
#[verifier::external_body]
fn yaml_of_list(paths: &Vec<String>) -> (r: Result<String, serde_yaml::Error>)
    ensures
        match r {
            Ok(text) => yaml_list_text(texts(paths@)) == Some(text@),
            Err(_) => yaml_list_text(texts(paths@)) is None,
        },
{
    serde_yaml::to_string(paths)
}

/// A path list could not be written out as text.
#[derive(Debug)]
pub enum OutputError {
    Json(serde_json::Error),
    Yaml(serde_yaml::Error),
}

/// The path list as JSON text.
pub fn paths_to_json(paths: &Vec<String>) -> (r: Result<String, OutputError>)
    ensures
        match r {
            Ok(text) => json_list_text(texts(paths@)) == Some(text@),
            Err(e) => e is Json && json_list_text(texts(paths@)) is None,
        },
{
    match json_of_list(paths) {
        Ok(text) => Ok(text),
        Err(e) => Err(OutputError::Json(e)),
    }
}

/// The path list as YAML text.
pub fn paths_to_yaml(paths: &Vec<String>) -> (r: Result<String, OutputError>)
    ensures
        match r {
            Ok(text) => yaml_list_text(texts(paths@)) == Some(text@),
            Err(e) => e is Yaml && yaml_list_text(texts(paths@)) is None,
        },
{
    match yaml_of_list(paths) {
        Ok(text) => Ok(text),
        Err(e) => Err(OutputError::Yaml(e)),
    }
}

} // verus!
