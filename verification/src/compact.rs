//! The compact tree: a nested mapping from labels to subtrees.

use vstd::prelude::*;
use crate::tree::{node_views, DomainTreeItem, DomainTreeRoot, NodeModel};

verus! {

/// Mathematical model of a compact tree: a leaf marker, or a mapping from
/// each child label to the compact tree below it.
pub enum CompactModel {
    Leaf,
    Node(Map<Seq<char>, CompactModel>),
}

/// The number that stands for a leaf when a compact tree is written out.
pub const LEAF_MARKER: u8 = 1;

/// A compact tree. A `Node` holds one entry per label; the order of its
/// entries carries no meaning.
#[derive(Debug)]
pub enum CompactTree {
    Node(Vec<CompactEntry>),
    Leaf,
}

/// One entry of a `Node`: a child label and the compact tree below it.
#[derive(Debug)]
pub struct CompactEntry {
    pub label: String,
    pub subtree: CompactTree,
}

/// The mapping that a sequence of entries stands for. Where a label occurs
/// twice, the later entry counts.
pub open spec fn entries_model(entries: Seq<CompactEntry>) -> Map<Seq<char>, CompactModel>
    decreases entries,
{
    if entries.len() == 0 {
        Map::empty()
    } else {
        entries_model(entries.drop_last()).insert(entries.last().label@, entries.last().subtree@)
    }
}

/// Whether no label occurs twice among the entries.
pub open spec fn distinct_labels(entries: Seq<CompactEntry>) -> bool {
    forall|i: int, j: int|
        0 <= i < j < entries.len() ==> (#[trigger] entries[i]).label@ != (
        #[trigger] entries[j]).label@
}

/// Whether the entries, and all entries below them, are well-formed.
pub open spec fn entries_wf(entries: Seq<CompactEntry>) -> bool
    decreases entries,
{
    &&& distinct_labels(entries)
    &&& forall|i: int| 0 <= i < entries.len() ==> (#[trigger] entries[i]).subtree.wf()
}

impl View for CompactTree {
    type V = CompactModel;

    open spec fn view(&self) -> CompactModel
        decreases self,
    {
        match self {
            CompactTree::Leaf => CompactModel::Leaf,
            CompactTree::Node(entries) => CompactModel::Node(entries_model(entries@)),
        }
    }
}

impl CompactTree {
    /// Well-formedness: in every `Node`, at every depth, each label has one entry.
    pub open spec fn wf(&self) -> bool
        decreases self,
    {
        match self {
            CompactTree::Leaf => true,
            CompactTree::Node(entries) => entries_wf(entries@),
        }
    }
}

/// The compact form of a node: the leaf marker where it has no children,
/// else the mapping of its children.
pub open spec fn compact_node(n: NodeModel) -> CompactModel
    decreases n,
{
    match n.children {
        None => CompactModel::Leaf,
        Some(cs) => CompactModel::Node(compact_siblings(cs)),
    }
}

/// The mapping of a list of siblings: each sibling's label is a key, and the
/// key's value is the compact form of that sibling. Where two siblings share
/// a label, the later one replaces the earlier one.
pub open spec fn compact_siblings(cs: Seq<NodeModel>) -> Map<Seq<char>, CompactModel>
    decreases cs,
{
    if cs.len() == 0 {
        Map::empty()
    } else {
        compact_siblings(cs.drop_last()).insert(cs.last().label, compact_node(cs.last()))
    }
}

/// The labels of the siblings, in sibling order.
pub open spec fn labels_of(cs: Seq<NodeModel>) -> Seq<Seq<char>> {
    Seq::new(cs.len(), |i: int| cs[i].label)
}

/// The keys of a `Node` are the labels that occur among the siblings, so
/// the `Node` has as many entries as the siblings have distinct labels.
pub proof fn lemma_compact_keys(cs: Seq<NodeModel>)
    ensures
        compact_siblings(cs).dom() == labels_of(cs).to_set(),
        compact_siblings(cs).dom().finite(),
        compact_siblings(cs).dom().len() == labels_of(cs).to_set().len(),
    decreases cs,
{
    if cs.len() == 0 {
        assert(compact_siblings(cs).dom() =~= labels_of(cs).to_set());
    } else {
        let front = cs.drop_last();
        lemma_compact_keys(front);
        assert(labels_of(front).push(cs.last().label) =~= labels_of(cs));
        labels_of(front).lemma_push_to_set_commute(cs.last().label);
        assert(compact_siblings(cs).dom() =~= labels_of(cs).to_set());
    }
    vstd::seq_lib::seq_to_set_is_finite(labels_of(cs));
}

/// Where no two siblings share a label, the `Node` has one entry per sibling.
pub proof fn lemma_compact_distinct_len(cs: Seq<NodeModel>)
    requires
        labels_of(cs).no_duplicates(),
    ensures
        compact_siblings(cs).dom().len() == cs.len(),
{
    lemma_compact_keys(cs);
    labels_of(cs).unique_seq_to_set();
}

/// Under each label stands the compact form of the last sibling that
/// carries the label.
pub proof fn lemma_compact_value(cs: Seq<NodeModel>, i: int)
    requires
        0 <= i < cs.len(),
        forall|j: int| i < j < cs.len() ==> cs[j].label != cs[i].label,
    ensures
        compact_siblings(cs).contains_key(cs[i].label),
        compact_siblings(cs)[cs[i].label] == compact_node(cs[i]),
    decreases cs.len(),
{
    if i < cs.len() - 1 {
        let front = cs.drop_last();
        assert forall|j: int| i < j < front.len() implies front[j].label != front[i].label by {
            assert(front[j] == cs[j]);
        }
        lemma_compact_value(front, i);
        assert(cs[cs.len() - 1].label != cs[i].label);
    }
}

/// A node's compact form is `Leaf` exactly where the node has no children.
pub proof fn lemma_leaf_iff_no_children(n: NodeModel)
    ensures
        compact_node(n) is Leaf <==> n.children is None,
{
}

/// Compacting is a function of the tree: two compact trees made from the
/// same tree have the same model.
pub proof fn lemma_compact_twice(root: DomainTreeRoot, first: CompactTree, second: CompactTree)
    requires
        first@ == CompactModel::Node(compact_siblings(root@)),
        second@ == CompactModel::Node(compact_siblings(root@)),
    ensures
        first@ == second@,
{
}

/// A label is a key exactly where an entry carries it.
proof fn lemma_entries_model_keys(entries: Seq<CompactEntry>, label: Seq<char>)
    ensures
        entries_model(entries).dom().finite(),
        entries_model(entries).contains_key(label) <==> exists|i: int|
            0 <= i < entries.len() && (#[trigger] entries[i]).label@ == label,
    decreases entries.len(),
{
    if entries.len() > 0 {
        let front = entries.drop_last();
        lemma_entries_model_keys(front, label);
        assert(entries_model(entries) == entries_model(front).insert(
            entries.last().label@,
            entries.last().subtree@,
        ));
        if entries_model(entries).contains_key(label) {
            if entries.last().label@ == label {
                assert(entries[entries.len() - 1].label@ == label);
            } else {
                let i = choose|i: int| 0 <= i < front.len() && (#[trigger] front[i]).label@ == label;
                assert(entries[i].label@ == label);
            }
        }
        if exists|i: int| 0 <= i < entries.len() && (#[trigger] entries[i]).label@ == label {
            let i = choose|i: int| 0 <= i < entries.len() && (#[trigger] entries[i]).label@ == label;
            if i < front.len() {
                assert(front[i].label@ == label);
            }
        }
    }
}

/// Under a label stands the subtree of the last entry that carries it.
proof fn lemma_entries_model_value(entries: Seq<CompactEntry>, i: int)
    requires
        0 <= i < entries.len(),
        forall|j: int| i < j < entries.len() ==> (#[trigger] entries[j]).label@ != entries[i].label@,
    ensures
        entries_model(entries).contains_key(entries[i].label@),
        entries_model(entries)[entries[i].label@] == entries[i].subtree@,
    decreases entries.len(),
{
    assert(entries_model(entries) == entries_model(entries.drop_last()).insert(
        entries.last().label@,
        entries.last().subtree@,
    ));
    if i < entries.len() - 1 {
        let front = entries.drop_last();
        assert forall|j: int| i < j < front.len() implies (#[trigger] front[j]).label@
            != front[i].label@ by {
            assert(front[j] == entries[j]);
        }
        lemma_entries_model_value(front, i);
        assert(entries[entries.len() - 1].label@ != entries[i].label@);
    }
}

/// Replacing the entry of a label replaces the label's value.
proof fn lemma_entries_model_update(entries: Seq<CompactEntry>, j: int, e: CompactEntry)
    requires
        distinct_labels(entries),
        0 <= j < entries.len(),
        e.label@ == entries[j].label@,
    ensures
        entries_model(entries.update(j, e)) == entries_model(entries).insert(e.label@, e.subtree@),
    decreases entries.len(),
{
    let front = entries.drop_last();
    let last = entries.last();
    let updated = entries.update(j, e);
    assert(entries_model(entries) == entries_model(front).insert(last.label@, last.subtree@));
    assert(entries_model(updated) == entries_model(updated.drop_last()).insert(
        updated.last().label@,
        updated.last().subtree@,
    ));
    if j == entries.len() - 1 {
        assert(updated.drop_last() =~= front);
        assert(updated.last() == e);
        assert(entries_model(entries.update(j, e)) =~= entries_model(entries).insert(
            e.label@,
            e.subtree@,
        ));
    } else {
        assert(entries.update(j, e).drop_last() =~= front.update(j, e));
        assert(entries.update(j, e).last() == last);
        assert(distinct_labels(front)) by {
            assert forall|a: int, b: int| 0 <= a < b < front.len() implies (#[trigger] front[a]).label@
                != (#[trigger] front[b]).label@ by {
                assert(front[a] == entries[a]);
                assert(front[b] == entries[b]);
            }
        }
        lemma_entries_model_update(front, j, e);
        assert(entries[j].label@ != entries[entries.len() - 1].label@);
        assert(entries_model(entries.update(j, e)) =~= entries_model(entries).insert(
            e.label@,
            e.subtree@,
        ));
    }
}

/// Position of the last entry that carries `label`.
fn last_entry(entries: &Vec<CompactEntry>, label: &String) -> (r: Option<usize>)
    ensures
        match r {
            Some(i) => i < entries.len() && entries[i as int].label@ == label@ && forall|j: int|
                i < j < entries.len() ==> (#[trigger] entries[j]).label@ != label@,
            None => forall|j: int|
                0 <= j < entries.len() ==> (#[trigger] entries[j]).label@ != label@,
        },
{
    let mut i: usize = entries.len();
    while i > 0
        invariant
            i <= entries.len(),
            forall|j: int| i <= j < entries.len() ==> (#[trigger] entries[j]).label@ != label@,
        decreases i,
    {
        i -= 1;
        if entries[i].label == *label {
            return Some(i);
        }
    }
    None
}

/// Whether every key of `a` is a key of `b`.
fn keys_covered(a: &Vec<CompactEntry>, b: &Vec<CompactEntry>) -> (r: bool)
    ensures
        r == entries_model(a@).dom().subset_of(entries_model(b@).dom()),
{
    let mut i: usize = 0;
    while i < a.len()
        invariant
            i <= a.len(),
            forall|j: int|
                0 <= j < i ==> entries_model(b@).contains_key((#[trigger] a[j]).label@),
        decreases a.len() - i,
    {
        proof {
            lemma_entries_model_keys(b@, a[i as int].label@);
        }
        if last_entry(b, &a[i].label).is_none() {
            proof {
                lemma_entries_model_keys(a@, a[i as int].label@);
            }
            return false;
        }
        i += 1;
    }
    proof {
        assert forall|k: Seq<char>| entries_model(a@).contains_key(k) implies entries_model(
            b@,
        ).contains_key(k) by {
            lemma_entries_model_keys(a@, k);
            let j = choose|j: int| 0 <= j < a.len() && (#[trigger] a[j]).label@ == k;
            assert(entries_model(b@).contains_key(a[j].label@));
        }
    }
    true
}

/// Whether `b` has every key of `a` with the same value under it.
spec fn agrees(
    a: Map<Seq<char>, CompactModel>,
    b: Map<Seq<char>, CompactModel>,
) -> bool {
    forall|k: Seq<char>| #[trigger] a.contains_key(k) ==> b.contains_key(k) && a[k] == b[k]
}

/// Whether every key of `a` is a key of `b` with an equal tree under it.
fn values_covered(a: &Vec<CompactEntry>, b: &Vec<CompactEntry>) -> (r: bool)
    ensures
        r == agrees(entries_model(a@), entries_model(b@)),
    decreases a,
{
    let ghost ma = entries_model(a@);
    let ghost mb = entries_model(b@);
    let mut i: usize = 0;
    while i < a.len()
        invariant
            i <= a.len(),
            ma == entries_model(a@),
            mb == entries_model(b@),
            forall|j: int|
                0 <= j < i ==> mb.contains_key((#[trigger] a[j]).label@) && ma[a[j].label@]
                    == mb[a[j].label@],
        decreases a.len() - i,
    {
        let ghost k = a[i as int].label@;
        let in_a = last_entry(a, &a[i].label);
        let in_b = last_entry(b, &a[i].label);
        proof {
            lemma_entries_model_keys(a@, k);
            lemma_entries_model_keys(b@, k);
        }
        match (in_a, in_b) {
            (Some(ia), Some(ib)) => {
                proof {
                    lemma_entries_model_value(a@, ia as int);
                    lemma_entries_model_value(b@, ib as int);
                }
                if !a[ia].subtree.eq(&b[ib].subtree) {
                    assert(ma.contains_key(k) && ma[k] != mb[k]);
                    return false;
                }
            },
            _ => {
                assert(ma.contains_key(k) && !mb.contains_key(k));
                return false;
            },
        }
        i += 1;
    }
    proof {
        assert forall|k: Seq<char>| #[trigger] ma.contains_key(k) implies mb.contains_key(k)
            && ma[k] == mb[k] by {
            lemma_entries_model_keys(a@, k);
            let j = choose|j: int| 0 <= j < a.len() && (#[trigger] a[j]).label@ == k;
            assert(mb.contains_key(a[j].label@));
        }
    }
    true
}

impl PartialEq for CompactTree {
    /// Compact trees are equal where their models are: the same keys with
    /// equal trees under them, in whatever order the entries stand.
    fn eq(&self, other: &Self) -> (r: bool)
        decreases self,
    {
        match (self, other) {
            (CompactTree::Leaf, CompactTree::Leaf) => true,
            (CompactTree::Node(a), CompactTree::Node(b)) => {
                let same = values_covered(a, b) && keys_covered(b, a);
                proof {
                    let ma = entries_model(a@);
                    let mb = entries_model(b@);
                    if same {
                        assert(ma =~= mb);
                    }
                }
                same
            },
            _ => false,
        }
    }
}

impl vstd::std_specs::cmp::PartialEqSpecImpl for CompactTree {
    open spec fn obeys_eq_spec() -> bool {
        true
    }

    open spec fn eq_spec(&self, other: &Self) -> bool {
        self@ == other@
    }
}

impl CompactTree {
    /// The compact tree under `label`; `None` where this is a leaf or has
    /// no such key.
    pub fn get(&self, label: &str) -> (r: Option<&CompactTree>)
        ensures
            match self@ {
                CompactModel::Leaf => r is None,
                CompactModel::Node(m) => match r {
                    Some(t) => m.contains_key(label@) && t@ == m[label@],
                    None => !m.contains_key(label@),
                },
            },
    {
        match self {
            CompactTree::Leaf => None,
            CompactTree::Node(entries) => {
                let target = label.to_owned();
                proof {
                    lemma_entries_model_keys(entries@, label@);
                }
                match last_entry(entries, &target) {
                    Some(i) => {
                        proof {
                            lemma_entries_model_value(entries@, i as int);
                        }
                        Some(&entries[i].subtree)
                    },
                    None => None,
                }
            },
        }
    }

    /// The number of keys of a `Node`; 0 for a leaf.
    pub fn len(&self) -> (r: usize)
        ensures
            match self@ {
                CompactModel::Leaf => r == 0,
                CompactModel::Node(m) => m.dom().finite() && r == m.dom().len(),
            },
    {
        match self {
            CompactTree::Leaf => 0,
            CompactTree::Node(entries) => {
                let mut count: usize = 0;
                let mut i: usize = 0;
                assert(entries_model(entries@.take(0)).dom() =~= Set::empty());
                while i < entries.len()
                    invariant
                        i <= entries.len(),
                        count <= i,
                        entries_model(entries@.take(i as int)).dom().finite(),
                        count == entries_model(entries@.take(i as int)).dom().len(),
                    decreases entries.len() - i,
                {
                    let seen = occurs_before(entries, i);
                    proof {
                        let front = entries@.take(i as int);
                        let next = entries@.take(i + 1);
                        let label = entries[i as int].label@;
                        assert(next.drop_last() =~= front);
                        assert(next.last() == entries[i as int]);
                        assert(entries_model(next) == entries_model(front).insert(
                            label,
                            entries[i as int].subtree@,
                        ));
                        lemma_entries_model_keys(front, label);
                        if seen {
                            let j = choose|j: int|
                                0 <= j < i && (#[trigger] entries[j]).label@ == label;
                            assert(front[j].label@ == label);
                            assert(entries_model(next).dom() =~= entries_model(front).dom());
                        } else {
                            if entries_model(front).contains_key(label) {
                                let j = choose|j: int|
                                    0 <= j < front.len() && (#[trigger] front[j]).label@ == label;
                                assert(entries[j].label@ == label);
                            }
                            assert(entries_model(next).dom() =~= entries_model(front).dom().insert(
                                label,
                            ));
                        }
                    }
                    if !seen {
                        count += 1;
                    }
                    i += 1;
                }
                assert(entries@.take(i as int) =~= entries@);
                count
            },
        }
    }
}

/// Whether an entry before position `i` carries the label of the entry at `i`.
fn occurs_before(entries: &Vec<CompactEntry>, i: usize) -> (r: bool)
    requires
        i < entries.len(),
    ensures
        r == exists|j: int| 0 <= j < i && (#[trigger] entries[j]).label@ == entries[i as int].label@,
{
    let mut j: usize = 0;
    while j < i
        invariant
            j <= i,
            i < entries.len(),
            forall|k: int| 0 <= k < j ==> (#[trigger] entries[k]).label@ != entries[i as int].label@,
        decreases i - j,
    {
        if entries[j].label == entries[i].label {
            return true;
        }
        j += 1;
    }
    false
}

/// Puts `subtree` under `label`: in place of the entry that holds the label,
/// or as a new entry where none does.
fn insert_entry(entries: &mut Vec<CompactEntry>, label: String, subtree: CompactTree)
    requires
        entries_wf(old(entries)@),
        subtree.wf(),
    ensures
        entries_wf(final(entries)@),
        entries_model(final(entries)@) == entries_model(old(entries)@).insert(label@, subtree@),
{
    let mut i: usize = 0;
    while i < entries.len()
        invariant
            i <= entries.len(),
            entries@ == old(entries)@,
            entries_wf(entries@),
            subtree.wf(),
            forall|k: int| 0 <= k < i ==> (#[trigger] entries[k]).label@ != label@,
        decreases entries.len() - i,
    {
        if entries[i].label == label {
            let entry = CompactEntry { label, subtree };
            proof {
                lemma_entries_model_update(entries@, i as int, entry);
            }
            let ghost before = entries@;
            entries.set(i, entry);
            proof {
                let after = entries@;
                assert forall|a: int, b: int| 0 <= a < b < after.len() implies (
                #[trigger] after[a]).label@ != (#[trigger] after[b]).label@ by {
                    assert(after[a].label@ == before[a].label@);
                    assert(after[b].label@ == before[b].label@);
                }
                assert forall|k: int| 0 <= k < after.len() implies (
                #[trigger] after[k]).subtree.wf() by {
                    if k != i {
                        assert(after[k] == before[k]);
                    }
                }
            }
            return ;
        }
        i += 1;
    }
    let entry = CompactEntry { label, subtree };
    let ghost before = entries@;
    entries.push(entry);
    proof {
        let after = entries@;
        assert(after.drop_last() =~= before);
        assert forall|a: int, b: int| 0 <= a < b < after.len() implies (#[trigger] after[a]).label@
            != (#[trigger] after[b]).label@ by {
            assert(after[a] == before[a]);
            if b < before.len() {
                assert(after[b] == before[b]);
            }
        }
        assert forall|k: int| 0 <= k < after.len() implies (#[trigger] after[k]).subtree.wf() by {
            if k < before.len() {
                assert(after[k] == before[k]);
            }
        }
    }
}

/// Compacts a list of siblings into one `Node`: every sibling's label
/// becomes a key whose value is that sibling's compact form. Where two
/// siblings share a label, the later one replaces the earlier one.
pub fn compact_children(children: Vec<DomainTreeItem>) -> (r: CompactTree)
    ensures
        r@ == CompactModel::Node(compact_siblings(node_views(children@))),
        r.wf(),
    decreases children,
{
    let ghost kids = children@;
    let mut map: Vec<CompactEntry> = Vec::new();
    for child in it: children
        invariant
            it.seq() == kids,
            children@ == kids,
            entries_wf(map@),
            entries_model(map@) == compact_siblings(node_views(kids).take(it.index() as int)),
    {
        proof {
            let all = node_views(kids);
            assert(all.take(it.index() + 1).drop_last() =~= all.take(it.index() as int));
            assert(child == kids[it.index() as int]);
            assert(decreases_to!(children => children@));
        }
        let key = child.value.clone();
        let value = child.compact();
        insert_entry(&mut map, key, value);
    }
    assert(node_views(kids).take(kids.len() as int) =~= node_views(kids));
    CompactTree::Node(map)
}

impl DomainTreeItem {
    /// The compact form of this node: `Leaf` where it has no children, else
    /// the `Node` of its children.
    pub fn compact(self) -> (r: CompactTree)
        ensures
            r@ == compact_node(self@),
            r.wf(),
        decreases self,
    {
        match self.children {
            Some(children) => compact_children(children),
            None => CompactTree::Leaf,
        }
    }
}

impl DomainTreeRoot {
    /// The compact form of the whole tree: the `Node` of the root's children.
    pub fn compact(self) -> (r: CompactTree)
        ensures
            r@ == CompactModel::Node(compact_siblings(self@)),
            r.wf(),
    {
        compact_children(self.children)
    }
}

} // verus!
