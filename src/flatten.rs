//! What flattening produces: for each source node the transform's outcome,
//! and from those outcomes the payloads, sibling offsets and full-enumeration
//! indices that the buffer holds.
use vstd::prelude::*;

use crate::chain::{chain_ok, head_ok, kids_of, lemma_chain_parts, rest_of, span};
use crate::source::{
    forest_preorder, forest_size, lemma_forest_preorder_len, lemma_preorder_len, preorder, tree_size,
    SourceNode,
};

verus! {

broadcast use vstd::std_specs::vec::group_vec_axioms;

/// The outcome of the transform on one source node and, for a retained
/// node, on each of its children in order. An excluded node's subtree is not
/// visited, so it has no child outcomes.
pub struct Decision<T> {
    pub out: Option<T>,
    pub kids: Seq<Decision<T>>,
}

/// `d` records outcomes that the transform `f` may give on the tree `n`.
pub open spec fn decided<S, T, F: Fn(&SourceNode<S>) -> Option<T>>(
    f: F,
    n: SourceNode<S>,
    d: Decision<T>,
) -> bool
    decreases n,
{
    &&& f.ensures((&n,), d.out)
    &&& if d.out is Some {
        &&& d.kids.len() == n.children@.len()
        &&& forall|i: int|
            0 <= i < d.kids.len() ==> decided(f, #[trigger] n.children@[i], d.kids[i])
    } else {
        d.kids.len() == 0
    }
}

/// The number of retained nodes in a subtree.
pub open spec fn count<T>(d: Decision<T>) -> nat
    decreases d,
{
    if d.out is Some {
        1 + forest_count(d.kids)
    } else {
        0
    }
}

/// The number of retained nodes in a sequence of subtrees.
pub open spec fn forest_count<T>(ks: Seq<Decision<T>>) -> nat
    decreases ks,
{
    if ks.len() == 0 {
        0
    } else {
        forest_count(ks.drop_last()) + count(ks.last())
    }
}

/// The retained payloads of a subtree in pre-order.
pub open spec fn vals<T>(d: Decision<T>) -> Seq<T>
    decreases d,
{
    match d.out {
        Some(v) => seq![v] + forest_vals(d.kids),
        None => seq![],
    }
}

/// The retained payloads of a sequence of subtrees in pre-order.
pub open spec fn forest_vals<T>(ks: Seq<Decision<T>>) -> Seq<T>
    decreases ks,
{
    if ks.len() == 0 {
        seq![]
    } else {
        forest_vals(ks.drop_last()) + vals(ks.last())
    }
}

/// Where, relative to the start of a sequence of subtrees, the last retained
/// one begins.
pub open spec fn last_rel<T>(ks: Seq<Decision<T>>) -> int
    decreases ks,
{
    if ks.len() == 0 {
        0
    } else if ks.last().out is Some {
        forest_count(ks.drop_last()) as int
    } else {
        last_rel(ks.drop_last())
    }
}

/// The size of the last retained subtree of a sequence.
pub open spec fn last_cnt<T>(ks: Seq<Decision<T>>) -> int
    decreases ks,
{
    if ks.len() == 0 {
        0
    } else if ks.last().out is Some {
        count(ks.last()) as int
    } else {
        last_cnt(ks.drop_last())
    }
}

/// The sibling offsets of a retained subtree whose root is the last retained
/// child of its parent (or the root of the whole tree): `-1` when it has
/// retained children, else `0`.
pub open spec fn offs<T>(d: Decision<T>) -> Seq<int>
    decreases d,
{
    if d.out is Some {
        seq![if forest_count(d.kids) > 0 { -1int } else { 0int }] + forest_offs(d.kids)
    } else {
        seq![]
    }
}

/// The sibling offsets of a sequence of subtrees: every retained root but
/// the last points at the next retained one.
pub open spec fn forest_offs<T>(ks: Seq<Decision<T>>) -> Seq<int>
    decreases ks,
{
    if ks.len() == 0 {
        seq![]
    } else {
        let pre = ks.drop_last();
        if ks.last().out is None {
            forest_offs(pre)
        } else if forest_count(pre) == 0 {
            forest_offs(pre) + offs(ks.last())
        } else {
            forest_offs(pre).update(last_rel(pre), last_cnt(pre)) + offs(ks.last())
        }
    }
}

/// The full-enumeration index of each retained node of the subtree `n`,
/// whose root has index `start`; excluded subtrees still use up their indices.
pub open spec fn globals<S, T>(n: SourceNode<S>, d: Decision<T>, start: int) -> Seq<int>
    decreases d,
{
    if d.out is Some {
        seq![start] + forest_globals(n.children@, d.kids, start + 1)
    } else {
        seq![]
    }
}

/// The full-enumeration indices of the retained nodes of a sequence of
/// subtrees, the first of which starts at `start`.
pub open spec fn forest_globals<S, T>(cs: Seq<SourceNode<S>>, ks: Seq<Decision<T>>, start: int) -> Seq<int>
    decreases ks,
{
    if ks.len() == 0 {
        seq![]
    } else {
        forest_globals(cs.drop_last(), ks.drop_last(), start) + globals(
            cs[ks.len() - 1],
            ks.last(),
            start + forest_size(cs.drop_last()),
        )
    }
}

/// Where the last node of a chain's top level begins.
pub open spec fn final_head(o: Seq<int>) -> int
    decreases o.len(),
{
    if o.len() == 0 || !head_ok(o) {
        0
    } else if rest_of(o, o).len() == 0 {
        0
    } else {
        span(o) + final_head(rest_of(o, o))
    }
}

/// The last node of a well-formed chain's top level has no next sibling, and
/// its subtree runs to the chain's end.
pub proof fn lemma_final_head(o: Seq<int>)
    requires
        chain_ok(o),
        o.len() > 0,
    ensures
        0 <= final_head(o) < o.len(),
        o[final_head(o)] <= 0,
    decreases o.len(),
{
    lemma_chain_parts(o);
    let r = rest_of(o, o);
    if r.len() > 0 {
        lemma_final_head(r);
    }
}

/// Two well-formed chains joined: the last top-level node of the first gets
/// the second's first node as next sibling.
pub proof fn lemma_link(a: Seq<int>, b: Seq<int>)
    requires
        chain_ok(a),
        chain_ok(b),
        a.len() > 0,
        b.len() > 0,
    ensures
        0 <= final_head(a) < a.len(),
        chain_ok(a.update(final_head(a), a.len() - final_head(a)) + b),
        final_head(a.update(final_head(a), a.len() - final_head(a)) + b) == a.len() + final_head(b),
    decreases a.len(),
{
    lemma_chain_parts(a);
    lemma_chain_parts(b);
    lemma_final_head(a);
    let fh = final_head(a);
    let c = a.update(fh, a.len() - fh) + b;
    if a[0] <= 0 {
        assert(fh == 0);
        assert(kids_of(c, c) =~= kids_of(a, a));
        assert(rest_of(c, c) =~= b);
    } else {
        let ra = rest_of(a, a);
        lemma_link(ra, b);
        assert(kids_of(c, c) =~= kids_of(a, a));
        assert(rest_of(c, c) =~= ra.update(final_head(ra), ra.len() - final_head(ra)) + b);
    }
}

/// The encoding of a subtree is a well-formed chain of one retained root,
/// one element per retained node.
pub proof fn lemma_offs<T>(d: Decision<T>)
    ensures
        offs(d).len() == count(d),
        vals(d).len() == count(d),
        chain_ok(offs(d)),
        count(d) > 0 ==> offs(d)[0] <= 0 && final_head(offs(d)) == 0,
        (count(d) > 0) == (d.out is Some),
    decreases d,
{
    if d.out is Some {
        lemma_forest_offs(d.kids);
        let o = offs(d);
        assert(kids_of(o, o) =~= forest_offs(d.kids));
        assert(rest_of(o, o) =~= Seq::<int>::empty());
        assert(head_ok(o));
        assert(chain_ok(rest_of(o, o)));
    } else {
        assert(offs(d) =~= Seq::<int>::empty());
    }
}

/// The encoding of a sequence of subtrees is a well-formed chain whose last
/// top-level node is the last retained subtree's root.
pub proof fn lemma_forest_offs<T>(ks: Seq<Decision<T>>)
    ensures
        forest_offs(ks).len() == forest_count(ks),
        forest_vals(ks).len() == forest_count(ks),
        chain_ok(forest_offs(ks)),
        forest_count(ks) > 0 ==> {
            &&& final_head(forest_offs(ks)) == last_rel(ks)
            &&& 0 <= last_rel(ks)
            &&& 1 <= last_cnt(ks)
            &&& last_rel(ks) + last_cnt(ks) == forest_count(ks)
        },
    decreases ks,
{
    if ks.len() > 0 {
        let pre = ks.drop_last();
        let k = ks.last();
        lemma_forest_offs(pre);
        lemma_offs(k);
        if k.out is Some {
            if forest_count(pre) == 0 {
                assert(forest_offs(pre) =~= Seq::<int>::empty());
                assert(forest_offs(ks) =~= offs(k));
            } else {
                lemma_link(forest_offs(pre), offs(k));
            }
        }
    }
}

/// There is one full-enumeration index per retained node.
pub proof fn lemma_globals_len<S, T>(n: SourceNode<S>, d: Decision<T>, start: int)
    ensures
        globals(n, d, start).len() == count(d),
    decreases d,
{
    if d.out is Some {
        lemma_forest_globals_len(n.children@, d.kids, start + 1);
    }
}

/// There is one full-enumeration index per retained node of a sequence.
pub proof fn lemma_forest_globals_len<S, T>(cs: Seq<SourceNode<S>>, ks: Seq<Decision<T>>, start: int)
    ensures
        forest_globals(cs, ks, start).len() == forest_count(ks),
    decreases ks,
{
    if ks.len() > 0 {
        lemma_forest_globals_len(cs.drop_last(), ks.drop_last(), start);
        lemma_globals_len(cs[ks.len() - 1], ks.last(), start + forest_size(cs.drop_last()));
    }
}

/// Each retained node's full-enumeration index picks, in the pre-order
/// enumeration of the whole subtree, the source node whose transform
/// outcome is that node's payload; the indices rise in buffer order.
pub proof fn lemma_globals<S, T, F: Fn(&SourceNode<S>) -> Option<T>>(
    f: F,
    n: SourceNode<S>,
    d: Decision<T>,
    start: int,
)
    requires
        decided(f, n, d),
    ensures
        globals(n, d, start).len() == count(d),
        vals(d).len() == count(d),
        forall|i: int|
            0 <= i < count(d) ==> {
                let g = #[trigger] globals(n, d, start)[i];
                &&& start <= g < start + tree_size(n)
                &&& f.ensures((&preorder(n)[g - start],), Some(vals(d)[i]))
            },
        forall|i: int, j: int|
            0 <= i < j < count(d) ==> globals(n, d, start)[i] < globals(n, d, start)[j],
    decreases d,
{
    lemma_globals_len(n, d, start);
    lemma_offs(d);
    lemma_preorder_len(n);
    if d.out is Some {
        let cs = n.children@;
        lemma_forest_globals(f, cs, d.kids, start + 1);
        lemma_forest_preorder_len(cs);
        let gs = globals(n, d, start);
        let fg = forest_globals(cs, d.kids, start + 1);
        assert forall|i: int| 0 <= i < count(d) implies {
            let g = #[trigger] globals(n, d, start)[i];
            &&& start <= g < start + tree_size(n)
            &&& f.ensures((&preorder(n)[g - start],), Some(vals(d)[i]))
        } by {
            if i > 0 {
                assert(gs[i] == fg[i - 1]);
                assert(preorder(n)[gs[i] - start] == forest_preorder(cs)[fg[i - 1] - (start + 1)]);
                assert(vals(d)[i] == forest_vals(d.kids)[i - 1]);
            }
        }
        assert forall|i: int, j: int| 0 <= i < j < count(d) implies gs[i] < gs[j] by {
            if i > 0 {
                assert(gs[i] == fg[i - 1]);
                assert(gs[j] == fg[j - 1]);
            } else {
                assert(gs[j] == fg[j - 1]);
            }
        }
    }
}

/// `lemma_globals` for a sequence of subtrees that starts at index `start`.
pub proof fn lemma_forest_globals<S, T, F: Fn(&SourceNode<S>) -> Option<T>>(
    f: F,
    cs: Seq<SourceNode<S>>,
    ks: Seq<Decision<T>>,
    start: int,
)
    requires
        ks.len() == cs.len(),
        forall|j: int| 0 <= j < ks.len() ==> decided(f, cs[j], #[trigger] ks[j]),
    ensures
        forest_globals(cs, ks, start).len() == forest_count(ks),
        forest_vals(ks).len() == forest_count(ks),
        forall|i: int|
            0 <= i < forest_count(ks) ==> {
                let g = #[trigger] forest_globals(cs, ks, start)[i];
                &&& start <= g < start + forest_size(cs)
                &&& f.ensures((&forest_preorder(cs)[g - start],), Some(forest_vals(ks)[i]))
            },
        forall|i: int, j: int|
            0 <= i < j < forest_count(ks) ==> forest_globals(cs, ks, start)[i] < forest_globals(
                cs,
                ks,
                start,
            )[j],
    decreases ks,
{
    lemma_forest_globals_len(cs, ks, start);
    lemma_forest_offs(ks);
    if ks.len() > 0 {
        let pc = cs.drop_last();
        let pk = ks.drop_last();
        let last = cs[ks.len() - 1];
        let k = ks.last();
        let s2 = start + forest_size(pc);
        assert(cs.last() == last);
        assert forall|j: int| 0 <= j < pk.len() implies decided(f, pc[j], #[trigger] pk[j]) by {
            assert(pk[j] == ks[j]);
        }
        assert(decided(f, last, ks[ks.len() - 1]));
        lemma_forest_globals(f, pc, pk, start);
        lemma_globals(f, last, k, s2);
        lemma_forest_preorder_len(pc);
        lemma_preorder_len(last);
        let gs = forest_globals(cs, ks, start);
        let g1 = forest_globals(pc, pk, start);
        let g2 = globals(last, k, s2);
        let c1 = forest_count(pk);
        assert(gs == g1 + g2);
        assert(forest_vals(ks) == forest_vals(pk) + vals(k));
        assert(forest_preorder(cs) == forest_preorder(pc) + preorder(last));
        assert forall|i: int| 0 <= i < forest_count(ks) implies {
            let g = #[trigger] forest_globals(cs, ks, start)[i];
            &&& start <= g < start + forest_size(cs)
            &&& f.ensures((&forest_preorder(cs)[g - start],), Some(forest_vals(ks)[i]))
        } by {
            if i < c1 {
                assert(gs[i] == g1[i]);
            } else {
                assert(gs[i] == g2[i - c1]);
                assert(forest_preorder(cs)[gs[i] - start] == preorder(last)[g2[i - c1] - s2]);
                assert(forest_vals(ks)[i] == vals(k)[i - c1]);
            }
        }
        assert forall|i: int, j: int| 0 <= i < j < forest_count(ks) implies gs[i] < gs[j] by {
            if j < c1 {
                assert(gs[i] == g1[i] && gs[j] == g1[j]);
            } else if i < c1 {
                assert(gs[i] == g1[i] && gs[j] == g2[j - c1]);
            } else {
                assert(gs[i] == g2[i - c1] && gs[j] == g2[j - c1]);
            }
        }
    }
}

} // verus!
