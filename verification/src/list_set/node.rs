//! The node of a chain.

use vstd::prelude::*;

verus! {

/// One node of a chain: a value and the slot of the node that follows it.
///
/// Nodes live in the slots of an arena and name their successor by its slot,
/// so a chain of any length is torn down without recursion.
pub struct Node<T> {
    pub elem: T,
    pub next: Option<usize>,
}

impl<T> Node<T> {
    /// A node that ends its chain.
    pub fn new_tail(elem: T) -> (node: Self)
        ensures
            node.elem == elem,
            node.next is None,
    {
        Node { elem, next: None }
    }

    /// A node followed by the node in slot `next`.
    pub fn new_intermediate(elem: T, next: usize) -> (node: Self)
        ensures
            node.elem == elem,
            node.next == Some(next),
    {
        Node { elem, next: Some(next) }
    }

    /// The value held by the node.
    pub fn get(&self) -> (elem: &T)
        ensures
            *elem == self.elem,
    {
        &self.elem
    }

    /// The slot of the node that follows, or `None` at the end of the chain.
    pub fn next(&self) -> (next: Option<usize>)
        ensures
            next == self.next,
    {
        self.next
    }

    /// Points the node at another successor and keeps its value.
    pub fn set_next(&mut self, next: Option<usize>)
        ensures
            final(self).elem == old(self).elem,
            final(self).next == next,
    {
        self.next = next;
    }
}

} // verus!
