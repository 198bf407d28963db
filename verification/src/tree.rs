//! The domain tree and its mathematical model.

use vstd::prelude::*;

verus! {

/// Mathematical model of a domain tree node: a label and, for an internal
/// node, the ordered sequence of its children.
pub struct NodeModel {
    pub label: Seq<char>,
    pub children: Option<Seq<NodeModel>>,
}

/// One named domain entry. `children` is `None` for a leaf.
#[derive(Debug)]
pub struct DomainTreeItem {
    pub value: String,
    pub children: Option<Vec<DomainTreeItem>>,
}

/// The top-level container: one node per top-level key, in encounter order.
#[derive(Debug)]
pub struct DomainTreeRoot {
    pub children: Vec<DomainTreeItem>,
}

/// The models of a sequence of nodes, position by position.
pub open spec fn node_views(items: Seq<DomainTreeItem>) -> Seq<NodeModel>
    decreases items,
{
    Seq::new(items.len(), |i: int| if 0 <= i < items.len() { items[i]@ } else { arbitrary() })
}

impl View for DomainTreeItem {
    type V = NodeModel;

    open spec fn view(&self) -> NodeModel
        decreases self,
    {
        NodeModel {
            label: self.value@,
            children: match self.children {
                None => None,
                Some(v) => Some(node_views(v@)),
            },
        }
    }
}

impl View for DomainTreeRoot {
    type V = Seq<NodeModel>;

    open spec fn view(&self) -> Seq<NodeModel> {
        node_views(self.children@)
    }
}

/// Whether every node of the subtree rooted at `n` has a non-empty label.
pub open spec fn labelled_node(n: NodeModel) -> bool
    decreases n,
{
    n.label.len() > 0 && match n.children {
        None => true,
        Some(cs) => labelled_forest(cs),
    }
}

/// Whether every node of the sibling subtrees has a non-empty label.
pub open spec fn labelled_forest(cs: Seq<NodeModel>) -> bool
    decreases cs,
{
    cs.len() == 0 || (labelled_forest(cs.drop_last()) && labelled_node(cs.last()))
}

/// Number of nodes, internal and leaf, in the subtree rooted at `n`.
pub open spec fn node_count(n: NodeModel) -> nat
    decreases n,
{
    1 + match n.children {
        None => 0,
        Some(cs) => forest_count(cs),
    }
}

/// Number of nodes in a sequence of subtrees.
pub open spec fn forest_count(cs: Seq<NodeModel>) -> nat
    decreases cs,
{
    if cs.len() == 0 {
        0
    } else {
        forest_count(cs.drop_last()) + node_count(cs.last())
    }
}

/// A copy of a sequence of nodes.
fn clone_items(items: &Vec<DomainTreeItem>) -> (r: Vec<DomainTreeItem>)
    ensures
        node_views(r@) == node_views(items@),
    decreases items,
{
    let mut out: Vec<DomainTreeItem> = Vec::new();
    let mut i: usize = 0;
    while i < items.len()
        invariant
            i <= items.len(),
            out.len() == i,
            forall|j: int| 0 <= j < i ==> out[j]@ == items[j]@,
        decreases items.len() - i,
    {
        out.push(items[i].clone());
        i += 1;
    }
    assert(node_views(out@) =~= node_views(items@));
    out
}

impl Clone for DomainTreeItem {
    fn clone(&self) -> (r: Self)
        ensures
            r@ == self@,
        decreases self,
    {
        let children = match &self.children {
            None => None,
            Some(v) => Some(clone_items(v)),
        };
        DomainTreeItem { value: self.value.clone(), children }
    }
}

/// Whether two sequences of nodes have the same models.
fn same_items(a: &Vec<DomainTreeItem>, b: &Vec<DomainTreeItem>) -> (r: bool)
    ensures
        r == (node_views(a@) == node_views(b@)),
    decreases a,
{
    if a.len() != b.len() {
        assert(node_views(a@).len() != node_views(b@).len());
        return false;
    }
    let mut i: usize = 0;
    while i < a.len()
        invariant
            i <= a.len(),
            a.len() == b.len(),
            forall|j: int| 0 <= j < i ==> a[j]@ == b[j]@,
        decreases a.len() - i,
    {
        if !a[i].eq(&b[i]) {
            assert(node_views(a@)[i as int] != node_views(b@)[i as int]);
            return false;
        }
        i += 1;
    }
    assert(node_views(a@) =~= node_views(b@));
    true
}

impl PartialEq for DomainTreeItem {
    /// Nodes are equal where their models are: the same label and the same
    /// children in the same order.
    fn eq(&self, other: &Self) -> (r: bool)
        decreases self,
    {
        if self.value != other.value {
            return false;
        }
        match (&self.children, &other.children) {
            (None, None) => true,
            (Some(a), Some(b)) => same_items(a, b),
            _ => false,
        }
    }
}

impl vstd::std_specs::cmp::PartialEqSpecImpl for DomainTreeItem {
    open spec fn obeys_eq_spec() -> bool {
        true
    }

    open spec fn eq_spec(&self, other: &Self) -> bool {
        self@ == other@
    }
}

impl PartialEq for DomainTreeRoot {
    /// Roots are equal where their models are.
    fn eq(&self, other: &Self) -> (r: bool) {
        same_items(&self.children, &other.children)
    }
}

impl vstd::std_specs::cmp::PartialEqSpecImpl for DomainTreeRoot {
    open spec fn obeys_eq_spec() -> bool {
        true
    }

    open spec fn eq_spec(&self, other: &Self) -> bool {
        self@ == other@
    }
}

impl Clone for DomainTreeRoot {
    fn clone(&self) -> (r: Self)
        ensures
            r@ == self@,
    {
        DomainTreeRoot { children: clone_items(&self.children) }
    }
}

} // verus!
