//! Generic document values: the already-parsed input that the tree is built from.

use vstd::prelude::*;

verus! {

/// Mathematical model of a document value.
pub enum DocModel {
    /// A string scalar.
    Scalar(Seq<char>),
    /// An ordered list of values.
    Sequence(Seq<DocModel>),
    /// An ordered list of key and value pairs.
    Mapping(Seq<(DocModel, DocModel)>),
    /// Any other shape, known only by its rendering.
    Other(Seq<char>),
}

/// One parsed input document, or a part of one.
#[derive(Debug)]
pub enum DocValue {
    /// A string scalar.
    Scalar(String),
    /// An ordered list of values.
    Sequence(Vec<DocValue>),
    /// A mapping, as its entries in document order.
    Mapping(Vec<DocEntry>),
    /// A value of any other shape (a number, a boolean, a null), held as the
    /// text that renders it in diagnostics.
    Other(String),
}

/// One entry of a mapping.
#[derive(Debug)]
pub struct DocEntry {
    pub key: DocValue,
    pub value: DocValue,
}

/// The models of a sequence of values, position by position.
pub open spec fn doc_views(items: Seq<DocValue>) -> Seq<DocModel>
    decreases items,
{
    Seq::new(items.len(), |i: int| if 0 <= i < items.len() { items[i]@ } else { arbitrary() })
}

/// The models of a sequence of entries, position by position.
pub open spec fn entry_views(entries: Seq<DocEntry>) -> Seq<(DocModel, DocModel)>
    decreases entries,
{
    Seq::new(
        entries.len(),
        |i: int| if 0 <= i < entries.len() { entries[i]@ } else { arbitrary() },
    )
}

impl View for DocValue {
    type V = DocModel;

    open spec fn view(&self) -> DocModel
        decreases self,
    {
        match self {
            DocValue::Scalar(s) => DocModel::Scalar(s@),
            DocValue::Sequence(items) => DocModel::Sequence(doc_views(items@)),
            DocValue::Mapping(entries) => DocModel::Mapping(entry_views(entries@)),
            DocValue::Other(text) => DocModel::Other(text@),
        }
    }
}

impl View for DocEntry {
    type V = (DocModel, DocModel);

    open spec fn view(&self) -> (DocModel, DocModel)
        decreases self,
    {
        (self.key@, self.value@)
    }
}

/// Whether two sequences of values have the same models.
fn same_values(a: &Vec<DocValue>, b: &Vec<DocValue>) -> (r: bool)
    ensures
        r == (doc_views(a@) == doc_views(b@)),
    decreases a,
{
    if a.len() != b.len() {
        assert(doc_views(a@).len() != doc_views(b@).len());
        return false;
    }
    let mut i: usize = 0;
    while i < a.len()
        invariant
            i <= a.len(),
            a.len() == b.len(),
            forall|j: int| 0 <= j < i ==> a[j]@ == b[j]@,
        decreases a.len() - i,
    {
        if !a[i].eq(&b[i]) {
            assert(doc_views(a@)[i as int] != doc_views(b@)[i as int]);
            return false;
        }
        i += 1;
    }
    assert(doc_views(a@) =~= doc_views(b@));
    true
}

/// Whether two sequences of entries have the same models.
fn same_entries(a: &Vec<DocEntry>, b: &Vec<DocEntry>) -> (r: bool)
    ensures
        r == (entry_views(a@) == entry_views(b@)),
    decreases a,
{
    if a.len() != b.len() {
        assert(entry_views(a@).len() != entry_views(b@).len());
        return false;
    }
    let mut i: usize = 0;
    while i < a.len()
        invariant
            i <= a.len(),
            a.len() == b.len(),
            forall|j: int| 0 <= j < i ==> a[j]@ == b[j]@,
        decreases a.len() - i,
    {
        if !a[i].key.eq(&b[i].key) || !a[i].value.eq(&b[i].value) {
            assert(entry_views(a@)[i as int] != entry_views(b@)[i as int]);
            return false;
        }
        i += 1;
    }
    assert(entry_views(a@) =~= entry_views(b@));
    true
}

impl PartialEq for DocValue {
    /// Values are equal where their models are.
    fn eq(&self, other: &Self) -> (r: bool)
        decreases self,
    {
        match (self, other) {
            (DocValue::Scalar(a), DocValue::Scalar(b)) => *a == *b,
            (DocValue::Sequence(a), DocValue::Sequence(b)) => same_values(a, b),
            (DocValue::Mapping(a), DocValue::Mapping(b)) => same_entries(a, b),
            (DocValue::Other(a), DocValue::Other(b)) => *a == *b,
            _ => false,
        }
    }
}

impl vstd::std_specs::cmp::PartialEqSpecImpl for DocValue {
    open spec fn obeys_eq_spec() -> bool {
        true
    }

    open spec fn eq_spec(&self, other: &Self) -> bool {
        self@ == other@
    }
}

impl PartialEq for DocEntry {
    /// Entries are equal where their keys and their values are.
    fn eq(&self, other: &Self) -> (r: bool) {
        self.key.eq(&other.key) && self.value.eq(&other.value)
    }
}

impl vstd::std_specs::cmp::PartialEqSpecImpl for DocEntry {
    open spec fn obeys_eq_spec() -> bool {
        true
    }

    open spec fn eq_spec(&self, other: &Self) -> bool {
        self@ == other@
    }
}

/// A copy of a sequence of values.
fn clone_values(items: &Vec<DocValue>) -> (r: Vec<DocValue>)
    ensures
        doc_views(r@) == doc_views(items@),
    decreases items,
{
    let mut out: Vec<DocValue> = Vec::new();
    let mut i: usize = 0;
    while i < items.len()
        invariant
            i <= items.len(),
            out.len() == i,
            forall|j: int| 0 <= j < i ==> out[j]@ == items[j]@,
        decreases items.len() - i,
    {
        out.push(items[i].clone());
        i += 1;
    }
    assert(doc_views(out@) =~= doc_views(items@));
    out
}

/// A copy of a sequence of entries.
fn clone_entries(entries: &Vec<DocEntry>) -> (r: Vec<DocEntry>)
    ensures
        entry_views(r@) == entry_views(entries@),
    decreases entries,
{
    let mut out: Vec<DocEntry> = Vec::new();
    let mut i: usize = 0;
    while i < entries.len()
        invariant
            i <= entries.len(),
            out.len() == i,
            forall|j: int| 0 <= j < i ==> out[j]@ == entries[j]@,
        decreases entries.len() - i,
    {
        let key = entries[i].key.clone();
        let value = entries[i].value.clone();
        out.push(DocEntry { key, value });
        i += 1;
    }
    assert(entry_views(out@) =~= entry_views(entries@));
    out
}

impl Clone for DocValue {
    fn clone(&self) -> (r: Self)
        ensures
            r@ == self@,
        decreases self,
    {
        match self {
            DocValue::Scalar(s) => DocValue::Scalar(s.clone()),
            DocValue::Sequence(items) => DocValue::Sequence(clone_values(items)),
            DocValue::Mapping(entries) => DocValue::Mapping(clone_entries(entries)),
            DocValue::Other(text) => DocValue::Other(text.clone()),
        }
    }
}

impl Clone for DocEntry {
    fn clone(&self) -> (r: Self)
        ensures
            r@ == self@,
    {
        DocEntry { key: self.key.clone(), value: self.value.clone() }
    }
}

/// The text that Rust's `{:?}` formatting writes for a string: the string
/// between double quotes, with its special characters escaped.
pub uninterp spec fn debug_quoted(s: Seq<char>) -> Seq<char>;

/// Formats `s` with `{:?}`, the `Debug` formatting of `str` in the standard
/// library. The contract only names the text that comes back: it is fixed by
/// the characters of `s`, and nothing else is claimed of it.
#[verifier::external_body]
fn debug_quote(s: &str) -> (r: String)
    ensures
        r@ == debug_quoted(s@),
{
    format!("{:?}", s)
}

/// How a value reads in a diagnostic: `String("..")` for a scalar,
/// `Array([.., ..])` for a sequence, `Hash({..: .., ..: ..})` for a mapping,
/// and for any other shape the text it carries.
pub open spec fn rendering(v: DocModel) -> Seq<char>
    decreases v,
{
    match v {
        DocModel::Scalar(s) => scalar_text(debug_quoted(s)),
        DocModel::Sequence(items) => "Array(["@ + items_rendering(items) + "])"@,
        DocModel::Mapping(entries) => "Hash({"@ + entries_rendering(entries) + "})"@,
        DocModel::Other(text) => text,
    }
}

/// A scalar's rendering, given its quoted text.
pub open spec fn scalar_text(quoted: Seq<char>) -> Seq<char> {
    "String("@ + quoted + ")"@
}

/// The renderings of `items`, separated by a comma and a space.
pub open spec fn items_rendering(items: Seq<DocModel>) -> Seq<char>
    decreases items,
{
    if items.len() == 0 {
        Seq::empty()
    } else if items.len() == 1 {
        rendering(items.last())
    } else {
        items_rendering(items.drop_last()) + ", "@ + rendering(items.last())
    }
}

/// One entry's rendering: the key, a colon and a space, the value.
pub open spec fn entry_rendering(entry: (DocModel, DocModel)) -> Seq<char>
    decreases entry,
{
    rendering(entry.0) + ": "@ + rendering(entry.1)
}

/// The renderings of `entries`, separated by a comma and a space.
pub open spec fn entries_rendering(entries: Seq<(DocModel, DocModel)>) -> Seq<char>
    decreases entries,
{
    if entries.len() == 0 {
        Seq::empty()
    } else if entries.len() == 1 {
        entry_rendering(entries.last())
    } else {
        entries_rendering(entries.drop_last()) + ", "@ + entry_rendering(entries.last())
    }
}

/// Wraps a scalar's quoted text into its rendering.
pub fn scalar_rendering(quoted: &str) -> (r: String)
    ensures
        r@ == scalar_text(quoted@),
{
    let mut out = String::from_str("String(");
    out.append(quoted);
    out.append(")");
    out
}

fn render_items(items: &Vec<DocValue>) -> (r: String)
    ensures
        r@ == items_rendering(doc_views(items@)),
    decreases items,
{
    let mut out = String::new();
    let mut i: usize = 0;
    while i < items.len()
        invariant
            i <= items.len(),
            out@ == items_rendering(doc_views(items@).take(i as int)),
        decreases items.len() - i,
    {
        if i > 0 {
            out.append(", ");
        }
        let part = items[i].render();
        out.append(part.as_str());
        proof {
            let all = doc_views(items@);
            assert(all.take(i + 1).drop_last() =~= all.take(i as int));
        }
        i += 1;
    }
    assert(doc_views(items@).take(i as int) =~= doc_views(items@));
    out
}

fn render_entries(entries: &Vec<DocEntry>) -> (r: String)
    ensures
        r@ == entries_rendering(entry_views(entries@)),
    decreases entries,
{
    let mut out = String::new();
    let mut i: usize = 0;
    while i < entries.len()
        invariant
            i <= entries.len(),
            out@ == entries_rendering(entry_views(entries@).take(i as int)),
        decreases entries.len() - i,
    {
        if i > 0 {
            out.append(", ");
        }
        let ghost start = out@;
        let key = entries[i].key.render();
        out.append(key.as_str());
        out.append(": ");
        let value = entries[i].value.render();
        out.append(value.as_str());
        proof {
            let all = entry_views(entries@);
            assert(all.take(i + 1).drop_last() =~= all.take(i as int));
            assert(all.take(i + 1).last() == (entries[i as int].key@, entries[i as int].value@));
            assert(out@ =~= start + entry_rendering(all.take(i + 1).last()));
        }
        i += 1;
    }
    assert(entry_views(entries@).take(i as int) =~= entry_views(entries@));
    out
}

impl DocValue {
    /// Renders the value for a diagnostic.
    pub fn render(&self) -> (r: String)
        ensures
            r@ == rendering(self@),
        decreases self,
    {
        match self {
            DocValue::Scalar(s) => {
                let quoted = debug_quote(s.as_str());
                scalar_rendering(quoted.as_str())
            },
            DocValue::Sequence(items) => {
                let mut out = String::from_str("Array([");
                let inner = render_items(items);
                out.append(inner.as_str());
                out.append("])");
                out
            },
            DocValue::Mapping(entries) => {
                let mut out = String::from_str("Hash({");
                let inner = render_entries(entries);
                out.append(inner.as_str());
                out.append("})");
                out
            },
            DocValue::Other(text) => text.clone(),
        }
    }
}

} // verus!
