use vstd::prelude::*;

verus! {

/// One element of the flat buffer: a payload and its sibling offset.
///
/// The offset is counted in elements, from this node's own position:
/// * `0`: no next sibling and no children;
/// * `-1`: no next sibling, children start right after this node;
/// * `1`: the next sibling is right after this node, no children;
/// * `n > 1`: the next sibling is `n` elements on, and the children
///   fill the positions in between.
#[derive(Debug)]
pub struct TreeNode<T> {
    data: T,
    next_sibling: isize,
}

impl<T> TreeNode<T> {
    /// The payload.
    pub closed spec fn value(&self) -> T {
        self.data
    }

    /// The sibling offset.
    pub closed spec fn offset(&self) -> int {
        self.next_sibling as int
    }

    pub(crate) fn new(data: T, next_sibling: isize) -> (r: TreeNode<T>)
        ensures
            r.value() == data,
            r.offset() == next_sibling as int,
    {
        TreeNode { data, next_sibling }
    }

    pub(crate) fn set_next_sibling(&mut self, next_sibling: isize)
        ensures
            final(self).value() == old(self).value(),
            final(self).offset() == next_sibling as int,
    {
        self.next_sibling = next_sibling;
    }

    /// Reads the payload.
    pub fn data(&self) -> (r: &T)
        ensures
            *r == self.value(),
    {
        &self.data
    }

    /// Gives write access to the payload; the offset stays as it is.
    pub fn data_mut(&mut self) -> (r: &mut T)
        ensures
            *r == old(self).value(),
            final(self).value() == *final(r),
            final(self).offset() == old(self).offset(),
    {
        &mut self.data
    }

    /// Reads the sibling offset.
    pub fn next_sibling(&self) -> (r: isize)
        ensures
            r as int == self.offset(),
    {
        self.next_sibling
    }
}

impl<T> std::ops::Deref for TreeNode<T> {
    type Target = T;

    fn deref(&self) -> (r: &T)
        ensures
            *r == self.value(),
    {
        &self.data
    }
}

impl<T> std::ops::DerefMut for TreeNode<T> {
    fn deref_mut(&mut self) -> (r: &mut T)
        ensures
            *r == old(self).value(),
            final(self).value() == *final(r),
            final(self).offset() == old(self).offset(),
    {
        &mut self.data
    }
}

} // verus!
