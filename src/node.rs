use crate::arena::Handle;
use vstd::prelude::*;

verus! {

/// A tree node. Its parent and children are handles into the arena that owns
/// every node; they name a relationship, not ownership.
pub struct Node<T> {
    pub key: T,
    /// Size of the subtree rooted here; set to 1 when the node is made.
    pub sz: usize,
    pub parent: Option<Handle>,
    pub left: Option<Handle>,
    pub right: Option<Handle>,
}

impl<T> Node<T> {
    /// A childless node holding `value` under `parent`.
    pub fn new(value: T, parent: Option<Handle>) -> (r: Self)
        ensures
            r.key == value,
            r.sz == 1,
            r.parent == parent,
            r.left.is_none(),
            r.right.is_none(),
    {
        Node { key: value, sz: 1, parent, left: None, right: None }
    }
}

} // verus!
