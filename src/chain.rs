//! The encoding of a chain of siblings as a sequence of sibling offsets, and
//! the facts about it that traversal relies on.
use vstd::prelude::*;

use crate::node::TreeNode;

verus! {

/// The sibling offsets of a run of nodes.
pub open spec fn offsets<T>(s: Seq<TreeNode<T>>) -> Seq<int> {
    s.map_values(|n: TreeNode<T>| n.offset())
}

/// The payloads of a run of nodes, in buffer order.
pub open spec fn values<T>(s: Seq<TreeNode<T>>) -> Seq<T> {
    s.map_values(|n: TreeNode<T>| n.value())
}

/// The first offset of a chain is one of the four meanings and stays inside it.
pub open spec fn head_ok(o: Seq<int>) -> bool {
    &&& o.len() > 0
    &&& -1 <= o[0]
    &&& o[0] > 0 ==> o[0] < o.len()
    &&& o[0] == 0 ==> o.len() == 1
    &&& o[0] == -1 ==> o.len() > 1
}

/// How many elements the first node of a chain covers with its subtree:
/// up to its next sibling, or the whole chain when it is the last one.
pub open spec fn span(o: Seq<int>) -> int {
    if o[0] > 0 {
        o[0]
    } else {
        o.len() as int
    }
}

/// The descendants of the first node of a chain.
pub open spec fn kids_of<A>(o: Seq<int>, s: Seq<A>) -> Seq<A> {
    s.subrange(1, span(o))
}

/// What follows the first node's subtree: the chain of its later siblings.
pub open spec fn rest_of<A>(o: Seq<int>, s: Seq<A>) -> Seq<A> {
    s.subrange(span(o), s.len() as int)
}

/// A well-formed chain of siblings: every node's offset is one of the four
/// meanings, its children form a chain, and so do its later siblings.
pub open spec fn chain_ok(o: Seq<int>) -> bool
    decreases o.len(),
{
    if o.len() == 0 {
        true
    } else if !head_ok(o) {
        false
    } else {
        chain_ok(kids_of(o, o)) && chain_ok(rest_of(o, o))
    }
}

/// A well-formed chain of nodes.
pub open spec fn chain_wf<T>(s: Seq<TreeNode<T>>) -> bool {
    chain_ok(offsets(s))
}

/// A well-formed whole tree: empty, or one root whose subtree fills the buffer.
pub open spec fn tree_wf<T>(s: Seq<TreeNode<T>>) -> bool {
    &&& chain_wf(s)
    &&& s.len() > 0 ==> s[0].offset() <= 0
}

/// The positions reachable from a cursor over the chain that starts at `base`,
/// following every node's children as well as its siblings.
pub open spec fn reach(o: Seq<int>, base: int) -> Set<int>
    decreases o.len(),
{
    if o.len() == 0 || !head_ok(o) {
        Set::empty()
    } else {
        set![base].union(reach(kids_of(o, o), base + 1)).union(
            reach(rest_of(o, o), base + span(o)),
        )
    }
}

/// The chain that a cursor over `s` holds after one step: the later siblings
/// of the first node.
pub open spec fn step<T>(s: Seq<TreeNode<T>>) -> Seq<TreeNode<T>> {
    if s.len() == 0 {
        s
    } else {
        rest_of(offsets(s), s)
    }
}

/// The chain that a cursor over `s` holds after `k` steps.
pub open spec fn skip_n<T>(s: Seq<TreeNode<T>>, k: nat) -> Seq<TreeNode<T>>
    decreases k,
{
    if k == 0 {
        s
    } else {
        step(skip_n(s, (k - 1) as nat))
    }
}

/// The positions from `lo` up to but not including `hi`.
pub open spec fn interval(lo: int, hi: int) -> Set<int> {
    Set::new(|i: int| lo <= i < hi)
}

/// The payloads met by a depth-first walk over the chain: each node, then
/// its children, then its later siblings.
pub open spec fn expand<T>(s: Seq<TreeNode<T>>) -> Seq<T>
    decreases s.len(),
{
    let o = offsets(s);
    if s.len() == 0 || !head_ok(o) {
        seq![]
    } else {
        seq![s[0].value()] + expand(kids_of(o, s)) + expand(rest_of(o, s))
    }
}

/// Offsets of a part of a run are that part of the run's offsets.
pub proof fn lemma_offsets_subrange<T>(s: Seq<TreeNode<T>>, lo: int, hi: int)
    requires
        0 <= lo <= hi <= s.len(),
    ensures
        offsets(s.subrange(lo, hi)) == offsets(s).subrange(lo, hi),
        values(s.subrange(lo, hi)) == values(s).subrange(lo, hi),
{
    assert(offsets(s.subrange(lo, hi)) =~= offsets(s).subrange(lo, hi));
    assert(values(s.subrange(lo, hi)) =~= values(s).subrange(lo, hi));
}

/// The parts of a well-formed chain: the first node, its descendants and its
/// later siblings, which follow one another without gap or overlap.
pub proof fn lemma_chain_parts(o: Seq<int>)
    requires
        chain_ok(o),
        o.len() > 0,
    ensures
        head_ok(o),
        1 <= span(o) <= o.len(),
        chain_ok(kids_of(o, o)),
        chain_ok(rest_of(o, o)),
        kids_of(o, o).len() == span(o) - 1,
        rest_of(o, o).len() == o.len() - span(o),
        (rest_of(o, o).len() > 0) == (o[0] > 0),
        (kids_of(o, o).len() > 0) == (o[0] > 1 || o[0] == -1),
{
}

/// A depth-first walk over a well-formed chain meets the payloads in buffer
/// order.
pub proof fn lemma_expand<T>(s: Seq<TreeNode<T>>)
    requires
        chain_wf(s),
    ensures
        expand(s) == values(s),
    decreases s.len(),
{
    let o = offsets(s);
    if s.len() > 0 {
        lemma_chain_parts(o);
        let sp = span(o);
        lemma_offsets_subrange(s, 1, sp);
        lemma_offsets_subrange(s, sp, s.len() as int);
        lemma_expand(kids_of(o, s));
        lemma_expand(rest_of(o, s));
        assert(values(s) =~= seq![s[0].value()] + values(kids_of(o, s)) + values(rest_of(o, s)));
    } else {
        assert(values(s) =~= seq![]);
    }
}

/// Everything reachable from a cursor over a well-formed chain is exactly the
/// chain's own run of positions.
pub proof fn lemma_reach(o: Seq<int>, base: int)
    requires
        chain_ok(o),
    ensures
        reach(o, base) == interval(base, base + o.len()),
    decreases o.len(),
{
    if o.len() > 0 {
        lemma_chain_parts(o);
        let sp = span(o);
        lemma_reach(kids_of(o, o), base + 1);
        lemma_reach(rest_of(o, o), base + sp);
        assert(reach(o, base) =~= interval(base, base + o.len()));
    } else {
        assert(reach(o, base) =~= interval(base, base + o.len()));
    }
}

/// One step of a cursor keeps the chain well formed and leaves a suffix of it.
pub proof fn lemma_step<T>(s: Seq<TreeNode<T>>)
    requires
        chain_wf(s),
    ensures
        chain_wf(step(s)),
        step(s).len() <= s.len(),
        step(s) == s.subrange(s.len() - step(s).len(), s.len() as int),
        s.len() > 0 ==> step(s).len() == s.len() - span(offsets(s)),
        s.len() > 0 ==> chain_wf(kids_of(offsets(s), s)),
{
    if s.len() > 0 {
        let o = offsets(s);
        lemma_chain_parts(o);
        lemma_offsets_subrange(s, 1, span(o));
        lemma_offsets_subrange(s, span(o), s.len() as int);
    }
    assert(step(s) =~= s.subrange(s.len() - step(s).len(), s.len() as int));
}

/// Any number of cursor steps keeps the chain well formed and leaves a suffix.
pub proof fn lemma_skip_n<T>(s: Seq<TreeNode<T>>, k: nat)
    requires
        chain_wf(s),
    ensures
        chain_wf(skip_n(s, k)),
        skip_n(s, k).len() <= s.len(),
        skip_n(s, k) == s.subrange(s.len() - skip_n(s, k).len(), s.len() as int),
    decreases k,
{
    if k > 0 {
        let p = skip_n(s, (k - 1) as nat);
        lemma_skip_n(s, (k - 1) as nat);
        lemma_step(p);
        assert(skip_n(s, k) =~= s.subrange(s.len() - skip_n(s, k).len(), s.len() as int));
    }
}

} // verus!
