//! The order in which a registry keeps and serves its listeners.
use crate::private::Private;
use vstd::prelude::*;

verus! {

/// First in, first out: listeners are served in the order of registration.
pub struct FIFO;

/// Last in, first out: the latest listener is served first.
pub struct LIFO;

impl Private for FIFO {

}

impl Private for LIFO {

}

/// An ordering of listeners, fixed at compile time.
///
/// Only a first-in-first-out list needs to know its last node; `Tail` is what a list
/// stores for it, and is empty otherwise.
pub trait Order: Private {
    /// What the list remembers of its last node.
    type Tail: Copy + Default;

    /// Whether new listeners go to the end of the list.
    spec fn is_fifo() -> bool;

    /// The last node that a stored tail stands for.
    spec fn tail_node(tail: Self::Tail) -> Option<u64>;

    /// Whether new listeners go to the end of the list.
    fn fifo() -> (fifo: bool)
        ensures
            fifo == Self::is_fifo(),
    ;

    /// Reads a stored tail; only a first-in-first-out list has one.
    fn from_tail(tail: Self::Tail) -> (node: Option<u64>)
        requires
            Self::is_fifo(),
        ensures
            node == Self::tail_node(tail),
    ;

    /// What to store for the given last node.
    fn into_tail(node: Option<u64>) -> (tail: Self::Tail)
        ensures
            Self::is_fifo() ==> Self::tail_node(tail) == node,
    ;
}

/// What a last-in-first-out list stores for its last node: nothing.
#[derive(Clone, Copy)]
pub struct NoTail;

impl Default for NoTail {
    fn default() -> (tail: Self)
        ensures
            tail == NoTail,
    {
        NoTail
    }
}

impl Order for LIFO {
    type Tail = NoTail;

    open spec fn is_fifo() -> bool {
        false
    }

    open spec fn tail_node(tail: NoTail) -> Option<u64> {
        None
    }

    fn fifo() -> (fifo: bool) {
        false
    }

    fn from_tail(tail: NoTail) -> (node: Option<u64>) {
        None
    }

    fn into_tail(node: Option<u64>) -> (tail: NoTail) {
        NoTail
    }
}

impl Order for FIFO {
    type Tail = Option<u64>;

    open spec fn is_fifo() -> bool {
        true
    }

    open spec fn tail_node(tail: Option<u64>) -> Option<u64> {
        tail
    }

    fn fifo() -> (fifo: bool) {
        true
    }

    fn from_tail(tail: Option<u64>) -> (node: Option<u64>) {
        tail
    }

    fn into_tail(node: Option<u64>) -> (tail: Option<u64>) {
        node
    }
}

/// Which of the two orders is which, and that a tail that was stored is the one that is read.
pub proof fn law_orders(fifo: bool, lifo: bool, node: Option<u64>, tail: Option<u64>, read: Option<u64>)
    requires
        call_ensures(<FIFO as Order>::fifo, (), fifo),
        call_ensures(<LIFO as Order>::fifo, (), lifo),
        call_ensures(<FIFO as Order>::into_tail, (node,), tail),
        call_ensures(<FIFO as Order>::from_tail, (tail,), read),
    ensures
        fifo && <FIFO as Order>::is_fifo(),
        !lifo && !<LIFO as Order>::is_fifo(),
        read == node,
{
}

} // verus!
