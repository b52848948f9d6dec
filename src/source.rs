//! Trees in their ordinary, pointer-linked form: what gets flattened.
use vstd::prelude::*;

verus! {

broadcast use vstd::std_specs::vec::group_vec_axioms;

/// A node that exposes its ordered children.
pub trait HasChildren: Sized {
    /// The children, in their declared order.
    fn get_children(&self) -> &[Self];
}

/// A tree node that owns its children.
pub struct SourceNode<S> {
    pub value: S,
    pub children: Vec<SourceNode<S>>,
}

impl<S> SourceNode<S> {
    /// A node without children.
    pub fn new(value: S) -> (r: SourceNode<S>)
        ensures
            r.value == value,
            r.children@.len() == 0,
    {
        SourceNode { value, children: Vec::new() }
    }

    /// A node with the given children, in that order.
    pub fn with_children(value: S, children: Vec<SourceNode<S>>) -> (r: SourceNode<S>)
        ensures
            r.value == value,
            r.children@ == children@,
    {
        SourceNode { value, children }
    }
}

impl<S> HasChildren for SourceNode<S> {
    fn get_children(&self) -> (r: &[SourceNode<S>])
        ensures
            r@ == self.children@,
    {
        self.children.as_slice()
    }
}

/// The number of nodes in a tree, every one of them counted.
pub open spec fn tree_size<S>(n: SourceNode<S>) -> nat
    decreases n,
{
    1 + forest_size(n.children@)
}

/// The number of nodes in a sequence of trees.
pub open spec fn forest_size<S>(f: Seq<SourceNode<S>>) -> nat
    decreases f,
{
    if f.len() == 0 {
        0
    } else {
        forest_size(f.drop_last()) + tree_size(f.last())
    }
}

/// Every node of a tree in pre-order: the node, then each child's subtree
/// in order.
pub open spec fn preorder<S>(n: SourceNode<S>) -> Seq<SourceNode<S>>
    decreases n,
{
    seq![n] + forest_preorder(n.children@)
}

/// Every node of a sequence of trees in pre-order.
pub open spec fn forest_preorder<S>(f: Seq<SourceNode<S>>) -> Seq<SourceNode<S>>
    decreases f,
{
    if f.len() == 0 {
        seq![]
    } else {
        forest_preorder(f.drop_last()) + preorder(f.last())
    }
}

/// The pre-order enumeration of a tree lists each of its nodes once.
pub proof fn lemma_preorder_len<S>(n: SourceNode<S>)
    ensures
        preorder(n).len() == tree_size(n),
    decreases n,
{
    lemma_forest_preorder_len(n.children@);
}

/// The pre-order enumeration of a sequence of trees lists each node once.
pub proof fn lemma_forest_preorder_len<S>(f: Seq<SourceNode<S>>)
    ensures
        forest_preorder(f).len() == forest_size(f),
    decreases f,
{
    if f.len() > 0 {
        lemma_forest_preorder_len(f.drop_last());
        lemma_preorder_len(f.last());
    }
}

/// Counting one more tree of a sequence adds its size.
pub proof fn lemma_forest_size_step<S>(cs: Seq<SourceNode<S>>, i: int)
    requires
        0 <= i < cs.len(),
    ensures
        forest_size(cs.take(i + 1)) == forest_size(cs.take(i)) + tree_size(cs[i]),
{
    assert(cs.take(i + 1).drop_last() =~= cs.take(i));
}

/// The trees of a prefix never outnumber those of the whole sequence.
pub proof fn lemma_forest_size_prefix<S>(cs: Seq<SourceNode<S>>, j: int)
    requires
        0 <= j <= cs.len(),
    ensures
        forest_size(cs.take(j)) <= forest_size(cs),
        j == cs.len() ==> forest_size(cs.take(j)) == forest_size(cs),
    decreases cs.len() - j,
{
    if j == cs.len() {
        assert(cs.take(j) =~= cs);
    } else {
        lemma_forest_size_step(cs, j);
        lemma_forest_size_prefix(cs, j + 1);
    }
}

/// Counts every node of the tree.
pub(crate) fn count_nodes<S>(n: &SourceNode<S>) -> (r: usize)
    requires
        tree_size(*n) <= usize::MAX,
    ensures
        r == tree_size(*n),
    decreases *n,
{
    let children = n.get_children();
    let mut total: usize = 1;
    let mut i: usize = 0;
    while i < children.len()
        invariant
            children@ == n.children@,
            i <= children@.len(),
            total == 1 + forest_size(children@.take(i as int)),
            tree_size(*n) <= usize::MAX,
        decreases children@.len() - i,
    {
        proof {
            lemma_forest_size_step(children@, i as int);
            lemma_forest_size_prefix(children@, i + 1);
        }
        total = total + count_nodes(&children[i]);
        i = i + 1;
    }
    proof {
        lemma_forest_size_prefix(children@, i as int);
    }
    total
}

} // verus!
