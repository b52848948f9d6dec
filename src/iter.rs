//! Read-only traversal: a cursor over a chain of siblings, and the view of a
//! node's children.
use vstd::prelude::*;

use crate::chain::{
    chain_wf, kids_of, lemma_chain_parts, lemma_step, offsets, skip_n, span, step,
};
use crate::node::TreeNode;

verus! {

/// A cursor over a chain of siblings in a flat buffer.
///
/// It holds the part of the buffer that starts at the next sibling to visit
/// and ends with the subtree of the chain's last node, together with the
/// position in the whole buffer where that part starts.
pub struct FlatTreeIter<'a, T> {
    chain: &'a [TreeNode<T>],
    base: usize,
}

/// The children of one node, found from the node's sibling offset when asked.
pub struct Children<'a, T> {
    parent: &'a TreeNode<T>,
    kids: &'a [TreeNode<T>],
    parent_pos: usize,
}

impl<'a, T> FlatTreeIter<'a, T> {
    /// The nodes still ahead of the cursor: the next sibling's subtree,
    /// followed by those of the later siblings.
    pub closed spec fn chain(&self) -> Seq<TreeNode<T>> {
        self.chain@
    }

    /// The buffer position of the next sibling.
    pub closed spec fn base(&self) -> int {
        self.base as int
    }

    /// The chain is well formed and its positions fit in a usize.
    pub open spec fn wf(&self) -> bool {
        &&& chain_wf(self.chain())
        &&& 0 <= self.base()
        &&& self.base() + self.chain().len() <= usize::MAX
    }

    /// A cursor over a whole flat tree, starting at its root.
    pub fn new(flat: &'a [TreeNode<T>]) -> (r: FlatTreeIter<'a, T>)
        requires
            chain_wf(flat@),
        ensures
            r.wf(),
            r.chain() == flat@,
            r.base() == 0,
    {
        // A slice's length is a usize: this bounds the positions the cursor reaches.
        let _len = flat.len();
        FlatTreeIter { chain: flat, base: 0 }
    }

    /// A cursor that yields nothing.
    pub fn new_empty() -> (r: FlatTreeIter<'a, T>)
        ensures
            r.wf(),
            r.chain().len() == 0,
            r.base() == 0,
    {
        let empty: &'a [TreeNode<T>] = &[];
        FlatTreeIter { chain: empty, base: 0 }
    }

    /// Yields the next sibling with the view of its children, and moves on
    /// to the sibling after it; `None` once the chain is done.
    pub fn next(&mut self) -> (r: Option<(&'a TreeNode<T>, Children<'a, T>)>)
        requires
            old(self).wf(),
        ensures
            final(self).wf(),
            final(self).chain() == step(old(self).chain()),
            (r is None) == (old(self).chain().len() == 0),
            r is None ==> final(self).base() == old(self).base(),
            r matches Some((node, children)) ==> {
                let s = old(self).chain();
                &&& *node == s[0]
                &&& children.wf()
                &&& children.parent() == s[0]
                &&& children.kids() == kids_of(offsets(s), s)
                &&& children.position() == old(self).base()
                &&& final(self).base() == old(self).base() + span(offsets(s))
            },
    {
        let len = self.chain.len();
        if len == 0 {
            return None;
        }
        proof {
            lemma_step(self.chain@);
            lemma_chain_parts(offsets(self.chain@));
        }
        let node: &'a TreeNode<T> = &self.chain[0];
        let offset = node.next_sibling();
        let span: usize = if offset > 0 {
            offset as usize
        } else {
            len
        };
        let (head, rest) = self.chain.split_at(span);
        let (_, kids) = head.split_at(1);
        proof {
            assert(kids@ =~= kids_of(offsets(self.chain@), self.chain@));
        }
        let children = Children { parent: node, kids, parent_pos: self.base };
        self.chain = rest;
        self.base = self.base + span;
        Some((node, children))
    }

    /// A cursor over `chain`, which starts at buffer position `base`.
    pub(crate) fn at(chain: &'a [TreeNode<T>], base: usize) -> (r: FlatTreeIter<'a, T>)
        requires
            chain_wf(chain@),
            base + chain@.len() <= usize::MAX,
        ensures
            r.wf(),
            r.chain() == chain@,
            r.base() == base,
    {
        FlatTreeIter { chain, base }
    }

    /// Skips `n` siblings and yields the one after them as `next` would;
    /// `None` when the chain ends first.
    pub fn nth(&mut self, n: usize) -> (r: Option<(&'a TreeNode<T>, Children<'a, T>)>)
        requires
            old(self).wf(),
        ensures
            final(self).wf(),
            ({
                let s = old(self).chain();
                let c = skip_n(s, n as nat);
                &&& final(self).chain() == step(c)
                &&& (r is Some) == (c.len() > 0)
                &&& r matches Some((node, children)) ==> {
                    &&& *node == c[0]
                    &&& children.wf()
                    &&& children.parent() == c[0]
                    &&& children.kids() == kids_of(offsets(c), c)
                    &&& children.position() == old(self).base() + s.len() - c.len()
                }
            }),
    {
        let ghost s = self.chain@;
        let mut i: usize = 0;
        while i < n
            invariant
                self.wf(),
                i <= n,
                self.chain() == skip_n(s, i as nat),
                self.base() + self.chain().len() == old(self).base() + s.len(),
            decreases n - i,
        {
            self.next();
            i = i + 1;
        }
        self.next()
    }
}

impl<'a, T> Children<'a, T> {
    /// The node whose children these are.
    pub closed spec fn parent(&self) -> TreeNode<T> {
        *self.parent
    }

    /// The parent's descendants, in buffer order.
    pub closed spec fn kids(&self) -> Seq<TreeNode<T>> {
        self.kids@
    }

    /// The parent's position in the buffer; its children start right after it.
    pub closed spec fn position(&self) -> int {
        self.parent_pos as int
    }

    /// The descendants form a chain, their positions fit in a usize, and
    /// the parent's offset says children exist exactly when there are some.
    pub open spec fn wf(&self) -> bool {
        &&& chain_wf(self.kids())
        &&& 0 <= self.position()
        &&& self.position() + 1 + self.kids().len() <= usize::MAX
        &&& (self.kids().len() > 0) == (self.parent().offset() > 1 || self.parent().offset() == -1)
    }

    /// Whether the parent has children, read from its sibling offset.
    pub open spec fn has_children(&self) -> bool {
        self.parent().offset() > 1 || self.parent().offset() == -1
    }

    /// The parent's position in the buffer.
    pub fn parent_position(&self) -> (r: usize)
        requires
            self.wf(),
        ensures
            r == self.position(),
    {
        self.parent_pos
    }

    /// A cursor over the children, starting at the first one.
    pub fn children<'b>(&'b self) -> (r: FlatTreeIter<'b, T>)
        requires
            self.wf(),
        ensures
            r.wf(),
            r.chain() == self.kids(),
            r.base() == self.position() + 1,
    {
        let offset = self.parent.next_sibling();
        let chain: &'b [TreeNode<T>] = if offset > 1 || offset == -1 {
            self.kids
        } else {
            self.kids.split_at(0).0
        };
        proof {
            assert(chain@ =~= self.kids@);
        }
        FlatTreeIter::at(chain, self.parent_pos + 1)
    }

    /// The child at `index` (counted from 0) with the view of its own
    /// children, found by walking the chain of children; `None` when there
    /// are not that many.
    pub fn get<'b>(&'b self, index: usize) -> (r: Option<(&'b TreeNode<T>, Children<'b, T>)>)
        requires
            self.wf(),
        ensures
            ({
                let c = skip_n(self.kids(), index as nat);
                &&& (r is Some) == (c.len() > 0)
                &&& r matches Some((node, children)) ==> {
                    &&& *node == c[0]
                    &&& children.wf()
                    &&& children.parent() == c[0]
                    &&& children.kids() == kids_of(offsets(c), c)
                    &&& children.position() == self.position() + 1 + self.kids().len() - c.len()
                }
            }),
    {
        self.children().nth(index)
    }

    /// Whether the parent has no children, read from its sibling offset.
    pub fn is_empty(&self) -> (r: bool)
        requires
            self.wf(),
        ensures
            r == !self.has_children(),
            r == (self.kids().len() == 0),
    {
        let offset = self.parent.next_sibling();
        !(offset > 1 || offset == -1)
    }
}

} // verus!
