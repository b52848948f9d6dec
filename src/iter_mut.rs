//! Traversal with write access to payloads. Each node handed out, the
//! children of each node and its later siblings are disjoint parts of the
//! buffer, so writes through one never show through another.
use vstd::prelude::*;

use crate::chain::{
    chain_wf, kids_of, lemma_chain_parts, lemma_skip_n, lemma_step, offsets, skip_n,
    span, step,
};
use crate::iter::{Children, FlatTreeIter};
use crate::node::TreeNode;

verus! {

/// A cursor over a chain of siblings, with write access to their subtrees.
///
/// `chain` is the part of the buffer that starts at the next sibling to
/// visit and ends with the subtree of the chain's last node; `base` is the
/// buffer position where it starts.
pub struct FlatTreeIterMut<'a, T> {
    pub chain: &'a mut [TreeNode<T>],
    pub base: usize,
}

/// The children of one node, with write access to them.
///
/// `kids` holds the node's descendants, `parent_offset` the node's sibling
/// offset, and `parent_pos` its buffer position.
pub struct ChildrenMut<'a, T> {
    pub kids: &'a mut [TreeNode<T>],
    pub parent_offset: isize,
    pub parent_pos: usize,
}

impl<'a, T> FlatTreeIterMut<'a, T> {
    /// The chain is well formed and its positions fit in a usize.
    pub open spec fn wf(&self) -> bool {
        &&& chain_wf(self.chain@)
        &&& self.base + self.chain@.len() <= usize::MAX
    }

    /// A cursor over a whole flat tree, starting at its root.
    pub fn new(flat: &'a mut [TreeNode<T>]) -> (r: FlatTreeIterMut<'a, T>)
        requires
            chain_wf(old(flat)@),
        ensures
            r.wf(),
            r.chain@ == old(flat)@,
            final(r.chain)@ == final(flat)@,
            r.base == 0,
    {
        // A slice's length is a usize: this bounds the positions the cursor reaches.
        let _len = flat.len();
        FlatTreeIterMut { chain: flat, base: 0 }
    }

    /// A cursor that yields nothing.
    pub fn new_empty() -> (r: FlatTreeIterMut<'a, T>)
        ensures
            r.wf(),
            r.chain@.len() == 0,
            r.base == 0,
    {
        let empty: &'a mut [TreeNode<T>] = &mut [];
        FlatTreeIterMut { chain: empty, base: 0 }
    }

    /// Yields the next sibling with the view of its children, and moves on
    /// to the sibling after it; `None` once the chain is done. The node, its
    /// children and the rest of the chain are disjoint: what each ends up
    /// holding makes up, in that order, what the chain ends up holding.
    pub fn next(&mut self) -> (r: Option<(&'a mut TreeNode<T>, ChildrenMut<'a, T>)>)
        requires
            old(self).wf(),
        ensures
            final(self).wf(),
            final(self).chain@ == step(old(self).chain@),
            (r is None) == (old(self).chain@.len() == 0),
            r is None ==> {
                &&& final(self).base == old(self).base
                &&& final(final(self).chain)@ == final(old(self).chain)@
            },
            r matches Some((node, children)) ==> {
                let s = old(self).chain@;
                &&& *node == s[0]
                &&& children.wf()
                &&& children.parent_offset == s[0].offset()
                &&& children.kids@ == kids_of(offsets(s), s)
                &&& children.parent_pos == old(self).base
                &&& final(self).base == old(self).base + span(offsets(s))
                &&& final(old(self).chain)@
                    == seq![*final(node)] + final(children.kids)@ + final(final(self).chain)@
            },
    {
        let mut chain: &'a mut [TreeNode<T>] = &mut [];
        std::mem::swap(&mut chain, &mut self.chain);
        let len = chain.len();
        if len == 0 {
            self.chain = chain;
            return None;
        }
        proof {
            lemma_step(chain@);
            lemma_chain_parts(offsets(chain@));
        }
        let offset = chain[0].next_sibling();
        let span: usize = if offset > 0 {
            offset as usize
        } else {
            len
        };
        let ghost s = chain@;
        let (head, rest) = chain.split_at_mut(span);
        let (first, kids) = head.split_at_mut(1);
        proof {
            assert(kids@ =~= kids_of(offsets(s), s));
        }
        let node = first.first_mut().unwrap();
        let children = ChildrenMut { kids, parent_offset: offset, parent_pos: self.base };
        self.chain = rest;
        self.base = self.base + span;
        Some((node, children))
    }
}

impl<'a, T> FlatTreeIterMut<'a, T> {
    /// Skips `n` siblings and yields the one after them as `next` would;
    /// `None` when the chain ends first. The skipped subtrees keep what
    /// they held.
    pub fn nth(&mut self, n: usize) -> (r: Option<(&'a mut TreeNode<T>, ChildrenMut<'a, T>)>)
        requires
            old(self).wf(),
        ensures
            final(self).wf(),
            ({
                let s = old(self).chain@;
                let c = skip_n(s, n as nat);
                let p = s.len() - c.len();
                &&& final(self).chain@ == step(c)
                &&& (r is Some) == (c.len() > 0)
                &&& r is None ==> final(old(self).chain)@ == s + final(final(self).chain)@
                &&& r matches Some((node, children)) ==> {
                    &&& *node == c[0]
                    &&& children.wf()
                    &&& children.parent_offset == c[0].offset()
                    &&& children.kids@ == kids_of(offsets(c), c)
                    &&& children.parent_pos == old(self).base + p
                    &&& final(old(self).chain)@ == s.subrange(0, p) + seq![*final(node)]
                        + final(children.kids)@ + final(final(self).chain)@
                }
            }),
    {
        let ghost s = self.chain@;
        proof {
            assert(s.subrange(0, 0) =~= Seq::<TreeNode<T>>::empty());
        }
        let mut i: usize = 0;
        while i < n
            invariant
                self.wf(),
                i <= n,
                self.chain@ == skip_n(s, i as nat),
                self.base + self.chain@.len() == old(self).base + s.len(),
                self.chain@.len() <= s.len(),
                chain_wf(s),
                final(old(self).chain)@ == s.subrange(0, s.len() - self.chain@.len()) + final(
                    self.chain)@,
            decreases n - i,
        {
            let ghost c = self.chain@;
            proof {
                lemma_skip_n(s, i as nat);
            }
            let r = self.next();
            proof {
                if r is Some {
                    lemma_chain_parts(offsets(c));
                    assert(s.subrange(0, s.len() - self.chain@.len()) =~= s.subrange(
                        0,
                        s.len() - c.len(),
                    ) + c.subrange(0, span(offsets(c))));
                }
            }
            i = i + 1;
        }
        proof {
            lemma_skip_n(s, i as nat);
        }
        self.next()
    }
}

impl<'a, T> ChildrenMut<'a, T> {
    /// The descendants form a chain, their positions fit in a usize, and
    /// the parent's offset says children exist exactly when there are some.
    pub open spec fn wf(&self) -> bool {
        &&& chain_wf(self.kids@)
        &&& self.parent_pos + 1 + self.kids@.len() <= usize::MAX
        &&& (self.kids@.len() > 0) == (self.parent_offset > 1 || self.parent_offset == -1)
    }

    /// What the parent's descendants currently hold.
    pub open spec fn descendants(&self) -> Seq<TreeNode<T>> {
        self.kids@
    }

    /// A cursor over the children, with write access, starting at the first
    /// one. What it ends up holding is what the children end up holding.
    pub fn children_mut<'b>(&'b mut self) -> (r: FlatTreeIterMut<'b, T>)
        requires
            old(self).wf(),
        ensures
            r.wf(),
            r.chain@ == old(self).kids@,
            r.base == old(self).parent_pos + 1,
            final(self).kids@ == final(r.chain)@,
            final(final(self).kids)@ == final(old(self).kids)@,
            final(self).parent_offset == old(self).parent_offset,
            final(self).parent_pos == old(self).parent_pos,
    {
        FlatTreeIterMut { chain: &mut *self.kids, base: self.parent_pos + 1 }
    }

    /// The child at `index` (counted from 0), with write access, and the view
    /// of its own children; `None` when there are not that many. The other
    /// children keep what they held.
    pub fn get_mut<'b>(&'b mut self, index: usize) -> (r: Option<(&'b mut TreeNode<T>, ChildrenMut<'b, T>)>)
        requires
            old(self).wf(),
        ensures
            final(self).parent_offset == old(self).parent_offset,
            final(self).parent_pos == old(self).parent_pos,
            final(final(self).kids)@ == final(old(self).kids)@,
            ({
                let s = old(self).kids@;
                let c = skip_n(s, index as nat);
                let p = s.len() - c.len();
                &&& (r is Some) == (c.len() > 0)
                &&& r is None ==> final(self).kids@ == s
                &&& r matches Some((node, children)) ==> {
                    &&& *node == c[0]
                    &&& children.wf()
                    &&& children.parent_offset == c[0].offset()
                    &&& children.kids@ == kids_of(offsets(c), c)
                    &&& children.parent_pos == old(self).parent_pos + 1 + p
                    &&& final(self).kids@ == s.subrange(0, p) + seq![*final(node)]
                        + final(children.kids)@ + s.subrange(p + span(offsets(c)), s.len() as int)
                }
            }),
    {
        let ghost s = self.kids@;
        proof {
            lemma_skip_n(s, index as nat);
        }
        let mut it = self.children_mut();
        let r = it.nth(index);
        proof {
            let c = skip_n(s, index as nat);
            if c.len() > 0 {
                lemma_step(c);
                lemma_chain_parts(offsets(c));
            }
        }
        r
    }

    /// A read-only cursor over the children, starting at the first one.
    pub fn children<'b>(&'b self) -> (r: FlatTreeIter<'b, T>)
        requires
            self.wf(),
        ensures
            r.wf(),
            r.chain() == self.descendants(),
            r.base() == self.parent_pos + 1,
    {
        FlatTreeIter::at(&*self.kids, self.parent_pos + 1)
    }

    /// The child at `index` (counted from 0), read-only, with the view of its
    /// own children; `None` when there are not that many.
    pub fn get<'b>(&'b self, index: usize) -> (r: Option<(&'b TreeNode<T>, Children<'b, T>)>)
        requires
            self.wf(),
        ensures
            ({
                let c = skip_n(self.descendants(), index as nat);
                &&& (r is Some) == (c.len() > 0)
                &&& r matches Some((node, children)) ==> {
                    &&& *node == c[0]
                    &&& children.wf()
                    &&& children.parent() == c[0]
                    &&& children.kids() == kids_of(offsets(c), c)
                    &&& children.position() == self.parent_pos + 1 + self.descendants().len()
                        - c.len()
                }
            }),
    {
        self.children().nth(index)
    }

    /// Whether the parent has no children, read from its sibling offset.
    pub fn is_empty(&self) -> (r: bool)
        requires
            self.wf(),
        ensures
            r == !(self.parent_offset > 1 || self.parent_offset == -1),
            r == (self.descendants().len() == 0),
    {
        !(self.parent_offset > 1 || self.parent_offset == -1)
    }
}

} // verus!
