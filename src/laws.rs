//! What holds of every flat tree: how its traversal relates to the source
//! tree, and how the subtrees of its nodes sit in the buffer.
use vstd::prelude::*;

use crate::buffer::flattened;
use crate::chain::{
    chain_wf, expand, interval, kids_of, lemma_chain_parts, lemma_expand, lemma_offsets_subrange,
    lemma_reach, offsets, reach, rest_of, span, tree_wf, values,
};
use crate::flatten::{globals, lemma_globals, lemma_offs, vals, Decision};
use crate::node::TreeNode;
use crate::source::{preorder, tree_size, SourceNode};

verus! {

/// Walking a flat tree depth-first through its cursors and children views
/// (each node, then its children, then its later siblings) meets the kept
/// payloads in the pre-order of the source tree: the `i`-th payload met is
/// what the transform gave for the source node at pre-order index `g[i]`,
/// and these indices rise.
pub proof fn lemma_round_trip<S, T, F: Fn(&SourceNode<S>) -> Option<T>>(
    transform: F,
    root: SourceNode<S>,
    d: Decision<T>,
    nodes: Seq<TreeNode<T>>,
)
    requires
        flattened(transform, root, d, nodes),
    ensures
        tree_wf(nodes),
        expand(nodes) == values(nodes),
        expand(nodes) == vals(d),
        ({
            let g = globals(root, d, 0);
            &&& g.len() == expand(nodes).len()
            &&& forall|i: int|
                0 <= i < g.len() ==> {
                    &&& 0 <= #[trigger] g[i] < tree_size(root)
                    &&& transform.ensures((&preorder(root)[g[i]],), Some(expand(nodes)[i]))
                }
            &&& forall|i: int, j: int| 0 <= i < j < g.len() ==> g[i] < g[j]
        }),
{
    lemma_offs(d);
    assert(nodes.len() == offsets(nodes).len());
    lemma_expand(nodes);
    lemma_globals(transform, root, d, 0);
    let g = globals(root, d, 0);
    assert forall|i: int| 0 <= i < g.len() implies {
        &&& 0 <= #[trigger] g[i] < tree_size(root)
        &&& transform.ensures((&preorder(root)[g[i]],), Some(expand(nodes)[i]))
    } by {
        assert(preorder(root)[g[i] - 0] == preorder(root)[g[i]]);
    }
}

/// The full-enumeration index recorded for each node of a flat tree is that
/// node's index in the pre-order enumeration of the whole source tree, left
/// out nodes included: the transform gave the node's payload for the source
/// node at that index. The indices rise in buffer order.
pub proof fn lemma_global_positions<S, T, F: Fn(&SourceNode<S>) -> Option<T>>(
    transform: F,
    root: SourceNode<S>,
    d: Decision<T>,
    nodes: Seq<TreeNode<T>>,
    indices: Seq<int>,
)
    requires
        flattened(transform, root, d, nodes),
        indices == globals(root, d, 0),
    ensures
        indices.len() == nodes.len(),
        forall|i: int|
            0 <= i < indices.len() ==> {
                &&& 0 <= #[trigger] indices[i] < tree_size(root)
                &&& transform.ensures((&preorder(root)[indices[i]],), Some(nodes[i].value()))
            },
        forall|i: int, j: int| 0 <= i < j < indices.len() ==> indices[i] < indices[j],
{
    lemma_offs(d);
    assert(nodes.len() == offsets(nodes).len());
    lemma_globals(transform, root, d, 0);
    assert forall|i: int| 0 <= i < indices.len() implies {
        &&& 0 <= #[trigger] indices[i] < tree_size(root)
        &&& transform.ensures((&preorder(root)[indices[i]],), Some(nodes[i].value()))
    } by {
        assert(values(nodes)[i] == nodes[i].value());
        assert(preorder(root)[indices[i] - 0] == preorder(root)[indices[i]]);
    }
}

/// For the first node of a well-formed chain that starts at position `base`
/// (any node a cursor yields), the positions reachable from its children
/// view are exactly the run after it up to its next sibling, where its
/// descendants lie. They do not meet the node itself nor anything reachable
/// from its later siblings, and together these make up all that the chain
/// reaches.
pub proof fn lemma_subtree_containment<T>(s: Seq<TreeNode<T>>, base: int)
    requires
        chain_wf(s),
        s.len() > 0,
    ensures
        ({
            let o = offsets(s);
            let inside = reach(offsets(kids_of(o, s)), base + 1);
            let after = reach(offsets(rest_of(o, s)), base + span(o));
            &&& inside == interval(base + 1, base + span(o))
            &&& after == interval(base + span(o), base + s.len())
            &&& !inside.contains(base)
            &&& inside.disjoint(after)
            &&& reach(o, base) == set![base].union(inside).union(after)
        }),
{
    let o = offsets(s);
    lemma_chain_parts(o);
    lemma_offsets_subrange(s, 1, span(o));
    lemma_offsets_subrange(s, span(o), s.len() as int);
    lemma_reach(kids_of(o, o), base + 1);
    lemma_reach(rest_of(o, o), base + span(o));
    let inside = reach(offsets(kids_of(o, s)), base + 1);
    let after = reach(offsets(rest_of(o, s)), base + span(o));
    assert(inside.disjoint(after));
}

/// Writing payloads leaves the topology as it was: two buffers with the same
/// sibling offsets are well-formed trees alike, whatever their payloads.
pub proof fn lemma_same_shape<T>(a: Seq<TreeNode<T>>, b: Seq<TreeNode<T>>)
    requires
        offsets(a) == offsets(b),
    ensures
        tree_wf(a) == tree_wf(b),
{
    assert(a.len() == offsets(a).len());
    assert(b.len() == offsets(b).len());
    if a.len() > 0 {
        assert(a[0].offset() == offsets(a)[0]);
        assert(b[0].offset() == offsets(b)[0]);
    }
}

} // verus!
