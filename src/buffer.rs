//! The flat tree itself: one buffer built in a single pre-order pass over a
//! source tree, and its variant that remembers each node's index in the full
//! source tree.
use vstd::prelude::*;

use crate::chain::{offsets, tree_wf, values};
use crate::flatten::{
    count, decided, forest_count, forest_globals, forest_offs, forest_vals, globals,
    last_cnt, last_rel, lemma_forest_offs, lemma_offs, offs, vals, Decision,
};
use crate::iter::FlatTreeIter;
use crate::iter_mut::FlatTreeIterMut;
use crate::node::TreeNode;
use crate::source::{
    count_nodes, forest_size, lemma_forest_size_prefix, lemma_forest_size_step, tree_size,
    HasChildren, SourceNode,
};

verus! {

broadcast use vstd::std_specs::vec::group_vec_axioms;

/// A tree stored as one pre-order buffer of nodes.
pub struct FlatTree<T> {
    buffer: Vec<TreeNode<T>>,
}

/// A flat tree together with, for each of its nodes, the index that node has
/// in a pre-order enumeration of the whole source tree, excluded nodes
/// included.
pub struct FlatTreeWithLookup<T> {
    tree: FlatTree<T>,
    lookup: Vec<usize>,
}

/// `nodes` is what flattening `root` gives when the transform's outcomes are
/// those that `d` records: the retained payloads in pre-order, with the
/// sibling offsets that encode their topology.
pub open spec fn flattened<S, T, F: Fn(&SourceNode<S>) -> Option<T>>(
    transform: F,
    root: SourceNode<S>,
    d: Decision<T>,
    nodes: Seq<TreeNode<T>>,
) -> bool {
    &&& decided(transform, root, d)
    &&& offsets(nodes) == offs(d)
    &&& values(nodes) == vals(d)
}

/// Positions as integers.
pub open spec fn ints(s: Seq<usize>) -> Seq<int> {
    s.map_values(|x: usize| x as int)
}

/// Appends the retained part of the subtree `n` to `buffer` in pre-order and
/// returns how many nodes that was. The subtree's root gets the offset of a
/// last child; the caller points it at a later retained sibling if one
/// comes. `counter` is the full-enumeration index of `n`, and moves past the
/// whole subtree, retained or not; `lookup` receives the index of each
/// retained node.
fn build_node<S, T, F: Fn(&SourceNode<S>) -> Option<T>>(
    n: &SourceNode<S>,
    transform: &F,
    buffer: &mut Vec<TreeNode<T>>,
    lookup: &mut Vec<usize>,
    counter: &mut usize,
) -> (r: (usize, Ghost<Decision<T>>))
    requires
        forall|m: &SourceNode<S>| transform.requires((m,)),
        old(buffer)@.len() <= *old(counter),
        *old(counter) + tree_size(*n) <= isize::MAX,
    ensures
        decided(*transform, *n, r.1@),
        r.0 == count(r.1@),
        count(r.1@) <= tree_size(*n),
        offsets(final(buffer)@) == offsets(old(buffer)@) + offs(r.1@),
        values(final(buffer)@) == values(old(buffer)@) + vals(r.1@),
        ints(final(lookup)@) == ints(old(lookup)@) + globals(*n, r.1@, *old(counter) as int),
        *final(counter) == *old(counter) + tree_size(*n),
    decreases *n,
{
    let out = transform(n);
    let ghost out_g = out;
    let ghost c0 = *counter as int;
    match out {
        None => {
            let total = count_nodes(n);
            *counter = *counter + total;
            let ghost d = Decision { out: out_g, kids: Seq::empty() };
            proof {
                assert(offsets(buffer@) =~= offsets(old(buffer)@) + offs(d));
                assert(values(buffer@) =~= values(old(buffer)@) + vals(d));
                assert(ints(lookup@) =~= ints(old(lookup)@) + globals(*n, d, c0));
            }
            (0, Ghost(d))
        },
        Some(v) => {
            let ghost vg = v;
            let pos = buffer.len();
            buffer.push(TreeNode::new(v, 0));
            lookup.push(*counter);
            *counter = *counter + 1;
            let children = n.get_children();
            let mut size: usize = 1;
            let mut prev: Option<(usize, usize)> = None;
            let ghost mut ks: Seq<Decision<T>> = Seq::empty();
            proof {
                assert(offsets(buffer@) =~= offsets(old(buffer)@) + seq![0int] + forest_offs(ks));
                assert(values(buffer@) =~= values(old(buffer)@) + seq![vg] + forest_vals(ks));
                assert(ints(lookup@) =~= ints(old(lookup)@) + seq![c0] + forest_globals(
                    children@.take(0),
                    ks,
                    c0 + 1,
                ));
                assert(children@.take(0) =~= Seq::<SourceNode<S>>::empty());
            }
            let mut i: usize = 0;
            while i < children.len()
                invariant
                    forall|m: &SourceNode<S>| transform.requires((m,)),
                    children@ == n.children@,
                    i <= children@.len(),
                    ks.len() == i,
                    forall|j: int| 0 <= j < i ==> decided(*transform, children@[j], #[trigger] ks[j]),
                    size == 1 + forest_count(ks),
                    forest_count(ks) <= forest_size(children@.take(i as int)),
                    pos == old(buffer)@.len(),
                    pos <= c0,
                    c0 + tree_size(*n) <= isize::MAX,
                    offsets(buffer@) == offsets(old(buffer)@) + seq![0int] + forest_offs(ks),
                    values(buffer@) == values(old(buffer)@) + seq![vg] + forest_vals(ks),
                    ints(lookup@) == ints(old(lookup)@) + seq![c0] + forest_globals(
                        children@.take(i as int),
                        ks,
                        c0 + 1,
                    ),
                    *counter == c0 + 1 + forest_size(children@.take(i as int)),
                    (prev is Some) == (forest_count(ks) > 0),
                    prev matches Some((pp, pc)) ==> pp == pos + 1 + last_rel(ks) && pc == last_cnt(
                        ks,
                    ),
                decreases children@.len() - i,
            {
                proof {
                    lemma_forest_offs(ks);
                    lemma_forest_size_step(children@, i as int);
                    lemma_forest_size_prefix(children@, i + 1);
                    assert(buffer@.len() == offsets(buffer@).len());
                }
                let child_pos = buffer.len();
                let ghost b1 = buffer@;
                let ghost l1 = lookup@;
                let (csize, dk) = build_node(&children[i], transform, buffer, lookup, counter);
                proof {
                    lemma_offs(dk@);
                    assert(buffer@.len() == offsets(buffer@).len());
                    assert(b1.len() == offsets(b1).len());
                }
                let ghost b2 = buffer@;
                if csize > 0 {
                    match prev {
                        Some((pp, pc)) => {
                            buffer[pp].set_next_sibling(pc as isize);
                            proof {
                                assert(offsets(buffer@) =~= offsets(b2).update(pp as int, pc as int));
                                assert(values(buffer@) =~= values(b2));
                            }
                        },
                        None => {},
                    }
                    prev = Some((child_pos, csize));
                }
                proof {
                    let ks0 = ks;
                    ks = ks.push(dk@);
                    assert(ks.drop_last() =~= ks0);
                    assert(children@.take(i + 1).drop_last() =~= children@.take(i as int));
                    if csize > 0 && forest_count(ks0) > 0 {
                        assert(forest_offs(ks) == forest_offs(ks0).update(
                            last_rel(ks0),
                            last_cnt(ks0),
                        ) + offs(dk@));
                        assert(offsets(buffer@) =~= offsets(old(buffer)@) + seq![0int] + forest_offs(ks));
                    } else {
                        assert(offsets(buffer@) =~= offsets(old(buffer)@) + seq![0int] + forest_offs(ks));
                    }
                    assert(values(buffer@) =~= values(old(buffer)@) + seq![vg] + forest_vals(ks));
                    assert(ints(lookup@) =~= ints(old(lookup)@) + seq![c0] + forest_globals(
                        children@.take(i + 1),
                        ks,
                        c0 + 1,
                    ));
                    assert forall|j: int| 0 <= j < i + 1 implies decided(
                        *transform,
                        children@[j],
                        #[trigger] ks[j],
                    ) by {
                        if j < i {
                            assert(ks[j] == ks0[j]);
                        }
                    }
                }
                size = size + csize;
                i = i + 1;
            }
            let ghost b3 = buffer@;
            proof {
                lemma_forest_offs(ks);
            }
            if size > 1 {
                buffer[pos].set_next_sibling(-1);
            }
            let ghost d = Decision { out: out_g, kids: ks };
            proof {
                if size > 1 {
                    assert(offsets(buffer@) =~= offsets(b3).update(pos as int, -1));
                } else {
                    assert(offsets(buffer@) =~= offsets(b3));
                }
                assert(values(buffer@) =~= values(b3));
                lemma_forest_size_prefix(children@, i as int);
                assert(children@.take(i as int) =~= n.children@);
                assert(offsets(buffer@) =~= offsets(old(buffer)@) + offs(d));
                assert(values(buffer@) =~= values(old(buffer)@) + vals(d));
                assert(ints(lookup@) =~= ints(old(lookup)@) + globals(*n, d, c0));
            }
            (size, Ghost(d))
        },
    }
}

/// Flattens `root` into a new buffer and the full-enumeration index of each
/// of its nodes.
fn build<S, T, F: Fn(&SourceNode<S>) -> Option<T>>(
    root: &SourceNode<S>,
    capacity_hint: usize,
    transform: F,
) -> (r: (Vec<TreeNode<T>>, Vec<usize>, Ghost<Decision<T>>))
    requires
        forall|m: &SourceNode<S>| transform.requires((m,)),
        tree_size(*root) <= isize::MAX,
    ensures
        flattened(transform, *root, r.2@, r.0@),
        ints(r.1@) == globals(*root, r.2@, 0),
        tree_wf(r.0@),
        r.0@.len() <= isize::MAX,
{
    let mut buffer: Vec<TreeNode<T>> = Vec::with_capacity(capacity_hint);
    let mut lookup: Vec<usize> = Vec::with_capacity(capacity_hint);
    let mut counter: usize = 0;
    let (_, d) = build_node(root, &transform, &mut buffer, &mut lookup, &mut counter);
    proof {
        assert(offsets(buffer@) =~= offs(d@));
        assert(values(buffer@) =~= vals(d@));
        assert(ints(lookup@) =~= globals(*root, d@, 0));
        lemma_offs(d@);
        assert(buffer@.len() == offsets(buffer@).len());
    }
    (buffer, lookup, d)
}

impl<T> FlatTree<T> {
    /// The buffer, in pre-order.
    pub closed spec fn nodes(&self) -> Seq<TreeNode<T>> {
        self.buffer@
    }

    /// The buffer holds one well-formed tree, or nothing.
    pub open spec fn wf(&self) -> bool {
        &&& tree_wf(self.nodes())
        &&& self.nodes().len() <= isize::MAX
    }

    /// Flattens the tree under `root`. The transform decides for each source
    /// node, in pre-order, whether it is kept (with the payload it returns)
    /// or left out together with its whole subtree. `capacity_hint` only
    /// sizes the first allocation.
    pub fn new<S, F: Fn(&SourceNode<S>) -> Option<T>>(
        root: &SourceNode<S>,
        capacity_hint: usize,
        transform: F,
    ) -> (r: FlatTree<T>)
        requires
            forall|m: &SourceNode<S>| transform.requires((m,)),
            tree_size(*root) <= isize::MAX,
        ensures
            r.wf(),
            exists|d: Decision<T>| flattened(transform, *root, d, r.nodes()),
    {
        let (buffer, _, d) = build(root, capacity_hint, transform);
        let r = FlatTree { buffer };
        assert(flattened(transform, *root, d@, r.nodes()));
        r
    }

    /// The buffer as a slice of nodes, in pre-order.
    pub fn as_slice(&self) -> (r: &[TreeNode<T>])
        ensures
            r@ == self.nodes(),
    {
        self.buffer.as_slice()
    }

    /// The number of nodes.
    pub fn len(&self) -> (r: usize)
        ensures
            r == self.nodes().len(),
    {
        self.buffer.len()
    }

    /// Whether the buffer holds no node (the root was left out).
    pub fn is_empty(&self) -> (r: bool)
        ensures
            r == (self.nodes().len() == 0),
    {
        self.buffer.len() == 0
    }

    /// A cursor at the root: it yields the root, if there is one, and the
    /// view of its children.
    pub fn tree_iter(&self) -> (r: FlatTreeIter<'_, T>)
        requires
            self.wf(),
        ensures
            r.wf(),
            r.chain() == self.nodes(),
            r.base() == 0,
    {
        FlatTreeIter::new(self.buffer.as_slice())
    }

    /// A cursor at the root with write access to the payloads. What the
    /// buffer ends up holding is what the cursor's chain ends up holding.
    pub fn tree_iter_mut(&mut self) -> (r: FlatTreeIterMut<'_, T>)
        requires
            old(self).wf(),
        ensures
            r.wf(),
            r.chain@ == old(self).nodes(),
            r.base == 0,
            final(self).nodes() == final(r.chain)@,
    {
        FlatTreeIterMut::new(self.buffer.as_mut_slice())
    }
}

impl<T> FlatTreeWithLookup<T> {
    /// The flat tree.
    pub closed spec fn flat(&self) -> FlatTree<T> {
        self.tree
    }

    /// The full-enumeration index of each node of the buffer.
    pub closed spec fn indices(&self) -> Seq<int> {
        ints(self.lookup@)
    }

    /// A well-formed flat tree, with one index per node.
    pub open spec fn wf(&self) -> bool {
        &&& self.flat().wf()
        &&& self.indices().len() == self.flat().nodes().len()
    }

    /// Flattens the tree under `root` as `FlatTree::new` does, and records
    /// for each kept node its index in the pre-order enumeration of all
    /// source nodes.
    pub fn new<S, F: Fn(&SourceNode<S>) -> Option<T>>(
        root: &SourceNode<S>,
        capacity_hint: usize,
        transform: F,
    ) -> (r: FlatTreeWithLookup<T>)
        requires
            forall|m: &SourceNode<S>| transform.requires((m,)),
            tree_size(*root) <= isize::MAX,
        ensures
            r.wf(),
            exists|d: Decision<T>|
                flattened(transform, *root, d, r.flat().nodes()) && r.indices() == globals(
                    *root,
                    d,
                    0,
                ),
    {
        let (buffer, lookup, d) = build(root, capacity_hint, transform);
        proof {
            lemma_offs(d@);
            assert(buffer@.len() == offsets(buffer@).len());
            assert(lookup@.len() == ints(lookup@).len());
            crate::flatten::lemma_globals_len(*root, d@, 0);
        }
        FlatTreeWithLookup { tree: FlatTree { buffer }, lookup }
    }

    /// The flat tree.
    pub fn tree(&self) -> (r: &FlatTree<T>)
        ensures
            *r == self.flat(),
    {
        &self.tree
    }

    /// A cursor at the root of the flat tree.
    pub fn tree_iter(&self) -> (r: FlatTreeIter<'_, T>)
        requires
            self.wf(),
        ensures
            r.wf(),
            r.chain() == self.flat().nodes(),
            r.base() == 0,
    {
        self.tree.tree_iter()
    }

    /// A cursor at the root of the flat tree, with write access to the
    /// payloads; the indices stay as they are.
    pub fn tree_iter_mut(&mut self) -> (r: FlatTreeIterMut<'_, T>)
        requires
            old(self).wf(),
        ensures
            r.wf(),
            r.chain@ == old(self).flat().nodes(),
            r.base == 0,
            final(self).flat().nodes() == final(r.chain)@,
            final(self).indices() == old(self).indices(),
    {
        self.tree.tree_iter_mut()
    }

    /// The index that the node at `position` of the buffer has in the
    /// pre-order enumeration of the whole source tree.
    pub fn global_position_of(&self, position: usize) -> (r: usize)
        requires
            self.wf(),
            position < self.flat().nodes().len(),
        ensures
            r == self.indices()[position as int],
    {
        self.lookup[position]
    }
}

} // verus!
