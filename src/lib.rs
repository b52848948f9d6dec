//! A tree flattened into one contiguous pre-order buffer, where each node
//! carries a single signed offset that encodes both its next sibling and
//! whether it has children.
use vstd::prelude::*;

pub mod buffer;
pub mod chain;
pub mod flatten;
pub mod iter;
pub mod iter_mut;
pub mod laws;
pub mod node;
pub mod source;

pub use buffer::{FlatTree, FlatTreeWithLookup};
pub use iter::{Children, FlatTreeIter};
pub use iter_mut::{ChildrenMut, FlatTreeIterMut};
pub use node::TreeNode;
pub use source::{HasChildren, SourceNode};

verus! {

} // verus!
