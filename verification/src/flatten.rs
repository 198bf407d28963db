//! Flattening a domain tree into dotted paths.

use vstd::prelude::*;
use crate::text::texts;
use crate::tree::{
    forest_count, node_count, node_views, DomainTreeItem, DomainTreeRoot, NodeModel,
};

verus! {

/// The separator that starts every path segment.
pub open spec fn dot() -> Seq<char> {
    seq!['.']
}

/// The path of a node labelled `label` whose ancestors spell `suffix`.
pub open spec fn entry_path(label: Seq<char>, suffix: Seq<char>) -> Seq<char> {
    dot() + label + suffix
}

/// The paths of the subtree rooted at `n`: its own entry first, then the
/// entries of its children, each child's subtree before the next sibling.
pub open spec fn flatten_node(n: NodeModel, suffix: Seq<char>) -> Seq<Seq<char>>
    decreases n,
{
    seq![entry_path(n.label, suffix)] + match n.children {
        None => Seq::empty(),
        Some(cs) => flatten_forest(cs, entry_path(n.label, suffix)),
    }
}

/// The paths of a sequence of sibling subtrees, in sibling order.
pub open spec fn flatten_forest(cs: Seq<NodeModel>, suffix: Seq<char>) -> Seq<Seq<char>>
    decreases cs,
{
    if cs.len() == 0 {
        Seq::empty()
    } else {
        flatten_forest(cs.drop_last(), suffix) + flatten_node(cs.last(), suffix)
    }
}

/// Appending one more sibling appends its paths.
proof fn lemma_flatten_forest_step(cs: Seq<NodeModel>, i: int, suffix: Seq<char>)
    requires
        0 <= i < cs.len(),
    ensures
        flatten_forest(cs.take(i + 1), suffix) == flatten_forest(cs.take(i), suffix) + flatten_node(
            cs[i],
            suffix,
        ),
{
    assert(cs.take(i + 1).drop_last() =~= cs.take(i));
}

/// The dotted paths of `item` and of everything below it, each ending in
/// `suffix`, the path of the ancestors: first `.` + label + `suffix` for the
/// item itself, then the paths of its children in order, each child's
/// subtree before the next, with the item's own path as their suffix.
pub fn flatten_domain_tree_item_with_prefix(item: DomainTreeItem, suffix: String) -> (r: Vec<
    String,
>)
    ensures
        texts(r@) == flatten_node(item@, suffix@),
    decreases item,
{
    let ghost whole = item;
    let DomainTreeItem { value, children } = item;
    let mut own = String::from_str(".");
    own.append(value.as_str());
    own.append(suffix.as_str());
    proof {
        reveal_strlit(".");
        assert("."@ =~= dot());
        assert(own@ =~= entry_path(value@, suffix@));
    }
    let mut vec: Vec<String> = Vec::new();
    vec.push(own.clone());
    assert(texts(vec@) =~= seq![own@]);
    match children {
        Some(children) => {
            let ghost kids = children@;
            for child in it: children
                invariant
                    whole == item,
                    it.seq() == kids,
                    whole.children == Some(children),
                    children@ == kids,
                    texts(vec@) == seq![own@] + flatten_forest(
                        node_views(kids).take(it.index() as int),
                        own@,
                    ),
            {
                proof {
                    lemma_flatten_forest_step(node_views(kids), it.index() as int, own@);
                    assert(child == children[it.index() as int]);
                    assert(decreases_to!(whole => whole.children->0@));
                }
                let ghost before = vec@;
                let mut recursed_child = flatten_domain_tree_item_with_prefix(child, own.clone());
                vec.append(&mut recursed_child);
                assert(texts(vec@) =~= texts(before) + flatten_node(child@, own@));
            }
            assert(node_views(kids).take(kids.len() as int) =~= node_views(kids));
            vec
        },
        None => vec,
    }
}

impl DomainTreeItem {
    /// The dotted paths of this node and of everything below it.
    pub fn flatten(self) -> (r: Vec<String>)
        ensures
            texts(r@) == flatten_node(self@, Seq::empty()),
    {
        flatten_domain_tree_item_with_prefix(self, String::new())
    }
}

impl DomainTreeRoot {
    /// The dotted paths of the whole tree: one per node, each top-level
    /// subtree before the next. The root itself has no entry.
    pub fn flatten(self) -> (r: Vec<String>)
        ensures
            texts(r@) == flatten_forest(self@, Seq::empty()),
    {
        let ghost kids = self.children@;
        let mut vec: Vec<String> = Vec::new();
        assert(texts(vec@) =~= Seq::empty());
        for child in it: self.children
            invariant
                it.seq() == kids,
                texts(vec@) == flatten_forest(
                    node_views(kids).take(it.index() as int),
                    Seq::empty(),
                ),
        {
            proof {
                lemma_flatten_forest_step(node_views(kids), it.index() as int, Seq::empty());
            }
            let ghost before = vec@;
            let mut recursed_child = child.flatten();
            vec.append(&mut recursed_child);
            assert(texts(vec@) =~= texts(before) + flatten_node(child@, Seq::empty()));
        }
        assert(node_views(kids).take(kids.len() as int) =~= node_views(kids));
        vec
    }
}

/// A subtree has one path per node.
pub proof fn lemma_flatten_node_len(n: NodeModel, suffix: Seq<char>)
    ensures
        flatten_node(n, suffix).len() == node_count(n),
    decreases n,
{
    match n.children {
        None => {},
        Some(cs) => lemma_flatten_forest_len(cs, entry_path(n.label, suffix)),
    }
}

/// Sibling subtrees have one path per node.
pub proof fn lemma_flatten_forest_len(cs: Seq<NodeModel>, suffix: Seq<char>)
    ensures
        flatten_forest(cs, suffix).len() == forest_count(cs),
    decreases cs,
{
    if cs.len() > 0 {
        lemma_flatten_forest_len(cs.drop_last(), suffix);
        lemma_flatten_node_len(cs.last(), suffix);
    }
}

/// The flattened tree has exactly one path for every node of the tree,
/// internal nodes and leaves alike.
pub proof fn lemma_one_path_per_node(root: Seq<NodeModel>)
    ensures
        flatten_forest(root, Seq::empty()).len() == forest_count(root),
{
    lemma_flatten_forest_len(root, Seq::empty());
}

/// Flattening is a function of the tree: two lists flattened from the same
/// tree hold the same paths in the same order.
pub proof fn lemma_flatten_twice(root: DomainTreeRoot, first: Vec<String>, second: Vec<String>)
    requires
        texts(first@) == flatten_forest(root@, Seq::empty()),
        texts(second@) == flatten_forest(root@, Seq::empty()),
    ensures
        texts(first@) == texts(second@),
{
}

/// The path that spells `chain`: a dot and then the label, for each label in turn.
pub open spec fn dotted(chain: Seq<Seq<char>>) -> Seq<char>
    decreases chain.len(),
{
    if chain.len() == 0 {
        Seq::empty()
    } else {
        dot() + chain.first() + dotted(chain.drop_first())
    }
}

/// The labels that a path spells, read from the left: every dot starts a new
/// label, and every other character continues the label started last.
pub open spec fn path_labels(path: Seq<char>) -> Seq<Seq<char>>
    decreases path.len(),
{
    if path.len() == 0 {
        Seq::empty()
    } else {
        let before = path_labels(path.drop_last());
        if path.last() == '.' {
            before.push(Seq::empty())
        } else if before.len() == 0 {
            before
        } else {
            before.update(before.len() - 1, before.last().push(path.last()))
        }
    }
}

/// The label chains of the subtree rooted at `n`, in the order of its paths.
/// The chain of a node is its own label and then the labels of its
/// ancestors, from its parent up to the top level.
pub open spec fn chains_node(n: NodeModel, ancestors: Seq<Seq<char>>) -> Seq<Seq<Seq<char>>>
    decreases n,
{
    seq![seq![n.label] + ancestors] + match n.children {
        None => Seq::empty(),
        Some(cs) => chains_forest(cs, seq![n.label] + ancestors),
    }
}

/// The label chains of sibling subtrees, in sibling order.
pub open spec fn chains_forest(cs: Seq<NodeModel>, ancestors: Seq<Seq<char>>) -> Seq<
    Seq<Seq<char>>,
>
    decreases cs,
{
    if cs.len() == 0 {
        Seq::empty()
    } else {
        chains_forest(cs.drop_last(), ancestors) + chains_node(cs.last(), ancestors)
    }
}

/// Whether no label in the subtree rooted at `n` holds a dot.
pub open spec fn dot_free_node(n: NodeModel) -> bool
    decreases n,
{
    !n.label.contains('.') && match n.children {
        None => true,
        Some(cs) => dot_free_forest(cs),
    }
}

/// Whether no label in the sibling subtrees holds a dot.
pub open spec fn dot_free_forest(cs: Seq<NodeModel>) -> bool
    decreases cs,
{
    cs.len() == 0 || (dot_free_forest(cs.drop_last()) && dot_free_node(cs.last()))
}

/// Whether no label of the chain holds a dot.
pub open spec fn dot_free_chain(chain: Seq<Seq<char>>) -> bool {
    forall|i: int| 0 <= i < chain.len() ==> !(#[trigger] chain[i]).contains('.')
}

/// Reading on through a dot-free label extends the label started last.
proof fn lemma_path_labels_label(path: Seq<char>, label: Seq<char>)
    requires
        !label.contains('.'),
    ensures
        path_labels(path + dot() + label) == path_labels(path).push(label),
    decreases label.len(),
{
    if label.len() == 0 {
        assert(path + dot() + label =~= path + dot());
        assert((path + dot()).drop_last() =~= path);
        assert(label =~= Seq::empty());
    } else {
        let front = label.drop_last();
        assert(!front.contains('.')) by {
            if front.contains('.') {
                let i = choose|i: int| 0 <= i < front.len() && front[i] == '.';
                assert(label[i] == '.');
            }
        }
        lemma_path_labels_label(path, front);
        let whole = path + dot() + label;
        assert(whole.drop_last() =~= path + dot() + front);
        assert(whole.last() == label.last());
        assert(label.last() != '.') by {
            assert(label[label.len() - 1] == label.last());
        }
        assert(front.push(label.last()) =~= label);
        assert(path_labels(path).push(front).update(path_labels(path).len() as int, label)
            =~= path_labels(path).push(label));
    }
}

/// Spelling a chain label by label.
proof fn lemma_dotted_push(chain: Seq<Seq<char>>, label: Seq<char>)
    ensures
        dotted(chain.push(label)) == dotted(chain) + dot() + label,
    decreases chain.len(),
{
    if chain.len() == 0 {
        assert(chain.push(label).drop_first() =~= Seq::<Seq<char>>::empty());
        assert(chain.push(label).first() == label);
        assert(dotted(chain.push(label).drop_first()) =~= Seq::<char>::empty());
        assert(dotted(chain) =~= Seq::<char>::empty());
        assert(dotted(chain.push(label)) =~= dotted(chain) + dot() + label);
    } else {
        lemma_dotted_push(chain.drop_first(), label);
        assert(chain.push(label).drop_first() =~= chain.drop_first().push(label));
        assert(chain.push(label).first() == chain.first());
        assert(dotted(chain.push(label)) =~= dot() + chain.first() + (dotted(chain.drop_first())
            + dot() + label));
        assert(dotted(chain.push(label)) =~= dotted(chain) + dot() + label);
    }
}

/// A path spelled from dot-free labels reads back as those labels.
pub proof fn lemma_path_labels_of_dotted(chain: Seq<Seq<char>>)
    requires
        dot_free_chain(chain),
    ensures
        path_labels(dotted(chain)) == chain,
    decreases chain.len(),
{
    if chain.len() > 0 {
        let front = chain.drop_last();
        assert(dot_free_chain(front)) by {
            assert forall|i: int| 0 <= i < front.len() implies !(#[trigger] front[i]).contains(
                '.',
            ) by {
                assert(front[i] == chain[i]);
            }
        }
        lemma_path_labels_of_dotted(front);
        assert(front.push(chain.last()) =~= chain);
        lemma_dotted_push(front, chain.last());
        assert(!chain[chain.len() - 1].contains('.'));
        lemma_path_labels_label(dotted(front), chain.last());
    }
}

/// Below ancestors spelled by `dotted`, every path of a subtree spells the
/// label chain of its node.
proof fn lemma_flatten_node_chains(n: NodeModel, ancestors: Seq<Seq<char>>)
    ensures
        flatten_node(n, dotted(ancestors)).len() == chains_node(n, ancestors).len(),
        forall|i: int|
            0 <= i < chains_node(n, ancestors).len() ==> #[trigger] flatten_node(
                n,
                dotted(ancestors),
            )[i] == dotted(chains_node(n, ancestors)[i]),
    decreases n,
{
    let own = seq![n.label] + ancestors;
    assert(own.drop_first() =~= ancestors);
    assert(dotted(own) == entry_path(n.label, dotted(ancestors)));
    match n.children {
        None => {},
        Some(cs) => lemma_flatten_forest_chains(cs, own),
    }
}

/// As `lemma_flatten_node_chains`, for sibling subtrees.
proof fn lemma_flatten_forest_chains(cs: Seq<NodeModel>, ancestors: Seq<Seq<char>>)
    ensures
        flatten_forest(cs, dotted(ancestors)).len() == chains_forest(cs, ancestors).len(),
        forall|i: int|
            0 <= i < chains_forest(cs, ancestors).len() ==> #[trigger] flatten_forest(
                cs,
                dotted(ancestors),
            )[i] == dotted(chains_forest(cs, ancestors)[i]),
    decreases cs,
{
    if cs.len() > 0 {
        lemma_flatten_forest_chains(cs.drop_last(), ancestors);
        lemma_flatten_node_chains(cs.last(), ancestors);
    }
}

/// Below dot-free ancestors, the chains of a dot-free subtree are dot-free.
proof fn lemma_chains_node_dot_free(n: NodeModel, ancestors: Seq<Seq<char>>)
    requires
        dot_free_node(n),
        dot_free_chain(ancestors),
    ensures
        forall|i: int|
            0 <= i < chains_node(n, ancestors).len() ==> dot_free_chain(
                #[trigger] chains_node(n, ancestors)[i],
            ),
    decreases n,
{
    let own = seq![n.label] + ancestors;
    assert(dot_free_chain(own)) by {
        assert forall|i: int| 0 <= i < own.len() implies !(#[trigger] own[i]).contains('.') by {
            if i > 0 {
                assert(own[i] == ancestors[i - 1]);
            }
        }
    }
    match n.children {
        None => {},
        Some(cs) => lemma_chains_forest_dot_free(cs, own),
    }
    let all = chains_node(n, ancestors);
    assert forall|i: int| 0 <= i < all.len() implies dot_free_chain(#[trigger] all[i]) by {
        if i > 0 {
            assert(all[i] == chains_forest(n.children->0, own)[i - 1]);
        }
    }
}

/// As `lemma_chains_node_dot_free`, for sibling subtrees.
proof fn lemma_chains_forest_dot_free(cs: Seq<NodeModel>, ancestors: Seq<Seq<char>>)
    requires
        dot_free_forest(cs),
        dot_free_chain(ancestors),
    ensures
        forall|i: int|
            0 <= i < chains_forest(cs, ancestors).len() ==> dot_free_chain(
                #[trigger] chains_forest(cs, ancestors)[i],
            ),
    decreases cs,
{
    if cs.len() > 0 {
        lemma_chains_forest_dot_free(cs.drop_last(), ancestors);
        lemma_chains_node_dot_free(cs.last(), ancestors);
        let front = chains_forest(cs.drop_last(), ancestors);
        let all = chains_forest(cs, ancestors);
        assert forall|i: int| 0 <= i < all.len() implies dot_free_chain(#[trigger] all[i]) by {
            if i < front.len() {
                assert(all[i] == front[i]);
            } else {
                assert(all[i] == chains_node(cs.last(), ancestors)[i - front.len()]);
            }
        }
    }
}

/// Where no label holds a dot, every path of the flattened tree reads back
/// as the label chain of the node at its position: the node's own label
/// first, then the labels of its ancestors from the parent upwards.
pub proof fn lemma_paths_read_back(root: Seq<NodeModel>)
    requires
        dot_free_forest(root),
    ensures
        flatten_forest(root, Seq::empty()).len() == chains_forest(root, Seq::empty()).len(),
        forall|i: int|
            0 <= i < flatten_forest(root, Seq::empty()).len() ==> path_labels(
                #[trigger] flatten_forest(root, Seq::empty())[i],
            ) == chains_forest(root, Seq::empty())[i],
{
    let none = Seq::<Seq<char>>::empty();
    assert(dotted(none) =~= Seq::<char>::empty());
    lemma_flatten_forest_chains(root, none);
    lemma_chains_forest_dot_free(root, none);
    assert forall|i: int| 0 <= i < flatten_forest(root, Seq::empty()).len() implies path_labels(
        #[trigger] flatten_forest(root, Seq::empty())[i],
    ) == chains_forest(root, Seq::empty())[i] by {
        let chain = chains_forest(root, none)[i];
        assert(flatten_forest(root, dotted(none))[i] == dotted(chain));
        lemma_path_labels_of_dotted(chain);
    }
}

} // verus!
