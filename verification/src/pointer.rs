//! Pointers to listeners.
use vstd::prelude::*;

verus! {

/// A pointer to a listener: the node that keeps it. It stays what it is for as long as the
/// guard is there, and so does the node, even once the listener is destructed. What lies
/// there is asked of the registry.
#[derive(Clone, Copy)]
pub struct ListenerPtr {
    node: u64,
}

impl ListenerPtr {
    /// The node that keeps the listener.
    pub closed spec fn node(&self) -> u64 {
        self.node
    }

    /// The pointer to the listener of a node.
    pub(crate) fn new(node: u64) -> (ptr: Self)
        ensures
            ptr.node() == node,
    {
        ListenerPtr { node }
    }

    /// The node that keeps the listener.
    pub(crate) fn target(&self) -> (node: u64)
        ensures
            node == self.node(),
    {
        self.node
    }
}

} // verus!
