//! A doubly linked list of nodes, each linked by number to its neighbours, so that any
//! node leaves the list without a search.
use crate::history::{enqueue, live_slot};
use crate::order::Order;
use crate::state::{Slot, State};
use std::collections::HashMap;
use vstd::prelude::*;

verus! {

broadcast use vstd::std_specs::hash::group_hash_axioms;

/// A node: its neighbours, where `None` stands for the list itself, and its state.
#[derive(Clone, Copy)]
pub struct Node {
    prev: Option<u64>,
    next: Option<u64>,
    state: State,
}

/// The allocated nodes, and the list that runs through some of them.
pub struct Chain<O: Order> {
    nodes: HashMap<u64, Node>,
    head: Option<u64>,
    tail: O::Tail,
    order: Ghost<Seq<u64>>,
}

/// The neighbour before index `i` of a list.
pub open spec fn prev_at(order: Seq<u64>, i: int) -> Option<u64> {
    if 0 < i <= order.len() {
        Some(order[i - 1])
    } else {
        None
    }
}

/// The neighbour after index `i` of a list; the first node for index -1.
pub open spec fn next_at(order: Seq<u64>, i: int) -> Option<u64> {
    if -1 <= i < order.len() - 1 {
        Some(order[i + 1])
    } else {
        None
    }
}

impl<O: Order> Chain<O> {
    /// The nodes in the list, first to last.
    pub closed spec fn order(&self) -> Seq<u64> {
        self.order@
    }

    /// The allocated nodes with their states.
    pub closed spec fn slots(&self) -> Map<u64, Slot> {
        self.nodes@.map_values(|node: Node| node.state@)
    }

    spec fn linked_at(&self, i: int) -> bool {
        let id = self.order@[i];
        &&& self.nodes@.contains_key(id)
        &&& self.nodes@[id].prev == prev_at(self.order@, i)
        &&& self.nodes@[id].next == next_at(self.order@, i)
    }

    /// The links agree with the list, and no node is listed twice.
    pub closed spec fn wf(&self) -> bool {
        &&& self.order@.no_duplicates()
        &&& forall|i: int| 0 <= i < self.order@.len() ==> #[trigger] self.linked_at(i)
        &&& self.head == next_at(self.order@, -1)
        &&& O::is_fifo() ==> O::tail_node(self.tail) == prev_at(
            self.order@,
            self.order@.len() as int,
        )
    }

    /// The listed nodes are distinct and allocated.
    pub proof fn lemma_listed(&self)
        requires
            self.wf(),
        ensures
            self.order().no_duplicates(),
            forall|id: u64| #[trigger]
                self.order().contains(id) ==> self.slots().contains_key(id),
    {
        assert forall|id: u64| #[trigger] self.order().contains(id) implies self.slots().contains_key(
            id,
        ) by {
            assert(self.linked_at(self.order@.index_of(id)));
        }
    }

    /// An empty list.
    pub fn new() -> (chain: Self)
        ensures
            chain.wf(),
            chain.order() == Seq::<u64>::empty(),
            chain.slots() == Map::<u64, Slot>::empty(),
    {
        let chain = Chain {
            nodes: HashMap::new(),
            head: None,
            tail: O::into_tail(None),
            order: Ghost(Seq::empty()),
        };
        assert(chain.slots() =~= Map::<u64, Slot>::empty());
        chain
    }

    /// Whether no node is listed.
    pub fn is_empty(&self) -> (empty: bool)
        requires
            self.wf(),
        ensures
            empty == (self.order().len() == 0),
    {
        self.head.is_none()
    }

    /// The first node.
    pub fn first(&self) -> (id: Option<u64>)
        requires
            self.wf(),
        ensures
            id == next_at(self.order(), -1),
    {
        self.head
    }

    /// The node after a listed node.
    pub fn next(&self, id: u64) -> (next: Option<u64>)
        requires
            self.wf(),
            self.order().contains(id),
        ensures
            next == next_at(self.order(), self.order().index_of(id)),
    {
        assert(self.linked_at(self.order@.index_of(id)));
        match self.nodes.get(&id) {
            Some(node) => node.next,
            None => None,
        }
    }

    /// The state of a node, if it is allocated.
    pub fn state(&self, id: u64) -> (state: Option<State>)
        ensures
            state is Some <==> self.slots().contains_key(id),
            state matches Some(s) ==> s@ == self.slots()[id],
    {
        match self.nodes.get(&id) {
            Some(node) => Some(node.state),
            None => None,
        }
    }

    /// Gives a node a new state.
    pub fn set_state(&mut self, id: u64, state: State)
        requires
            old(self).wf(),
            old(self).slots().contains_key(id),
        ensures
            final(self).wf(),
            final(self).order() == old(self).order(),
            final(self).slots() == old(self).slots().insert(id, state@),
    {
        if let Some(node) = self.nodes.get(&id) {
            let node = Node { state, ..*node };
            self.nodes.insert(id, node);
        }
        assert(self.slots() =~= old(self).slots().insert(id, state@));
        assert forall|i: int| 0 <= i < self.order@.len() implies #[trigger] self.linked_at(i) by {
            assert(old(self).linked_at(i));
        }
    }

    fn set_prev(&mut self, id: u64, prev: Option<u64>)
        requires
            old(self).nodes@.contains_key(id),
        ensures
            final(self).nodes@ == old(self).nodes@.insert(
                id,
                (Node { prev, ..old(self).nodes@[id] }),
            ),
            final(self).head == old(self).head,
            final(self).tail == old(self).tail,
            final(self).order == old(self).order,
            final(self).slots() == old(self).slots(),
    {
        if let Some(node) = self.nodes.get(&id) {
            let node = Node { prev, ..*node };
            self.nodes.insert(id, node);
        }
        assert(self.slots() =~= old(self).slots());
    }

    fn set_next(&mut self, id: u64, next: Option<u64>)
        requires
            old(self).nodes@.contains_key(id),
        ensures
            final(self).nodes@ == old(self).nodes@.insert(
                id,
                (Node { next, ..old(self).nodes@[id] }),
            ),
            final(self).head == old(self).head,
            final(self).tail == old(self).tail,
            final(self).order == old(self).order,
            final(self).slots() == old(self).slots(),
    {
        if let Some(node) = self.nodes.get(&id) {
            let node = Node { next, ..*node };
            self.nodes.insert(id, node);
        }
        assert(self.slots() =~= old(self).slots());
    }

    /// Allocates a node and lists it, last or first as the ordering has it.
    pub fn enqueue(&mut self, id: u64)
        requires
            old(self).wf(),
            !old(self).slots().contains_key(id),
        ensures
            final(self).wf(),
            final(self).order() == enqueue(O::is_fifo(), old(self).order(), id),
            final(self).slots() == old(self).slots().insert(id, live_slot()),
    {
        let neighbour = if O::fifo() {
            O::from_tail(self.tail)
        } else {
            self.head
        };
        let (prev, next) = if O::fifo() {
            (neighbour, None)
        } else {
            (None, neighbour)
        };
        self.nodes.insert(id, Node { prev, next, state: State::live() });
        proof {
            self.lemma_listed_nodes(*old(self));
        }
        if O::fifo() {
            match neighbour {
                Some(last) => {
                    self.set_next(last, Some(id));
                },
                None => {
                    self.head = Some(id);
                },
            }
            self.tail = O::into_tail(Some(id));
        } else {
            self.head = Some(id);
            if let Some(first) = neighbour {
                self.set_prev(first, Some(id));
            }
        }
        proof {
            self.order@ = enqueue(O::is_fifo(), old(self).order@, id);
            let was = old(self).order@;
            let now = self.order@;
            assert forall|i: int| 0 <= i < now.len() implies #[trigger] self.linked_at(i) by {
                let o = if O::is_fifo() { i } else { i - 1 };
                if 0 <= o < was.len() {
                    assert(old(self).linked_at(o));
                    assert(was[o] == now[i]);
                    assert(was[o] != id);
                    if O::is_fifo() && o < was.len() - 1 {
                        assert(was[o] != was[was.len() - 1]);
                        assert(now[i + 1] == was[o + 1]);
                    }
                    if !O::is_fifo() && o > 0 {
                        assert(was[o] != was[0]);
                        assert(now[i - 1] == was[o - 1]);
                    }
                } else {
                    assert(now[i] == id);
                    if was.len() > 0 {
                        assert(old(self).linked_at(0));
                        assert(old(self).linked_at(was.len() - 1));
                        assert(was[if O::is_fifo() { i - 1 } else { 0 }] == now[if O::is_fifo() {
                            i - 1
                        } else {
                            1
                        }]);
                    }
                }
            }
            assert(now.no_duplicates()) by {
                assert forall|i: int, j: int| 0 <= i < j < now.len() implies now[i] != now[j] by {
                    let a = if O::is_fifo() { i } else { i - 1 };
                    let b = if O::is_fifo() { j } else { j - 1 };
                    if 0 <= a < was.len() {
                        assert(old(self).linked_at(a));
                    }
                    if 0 <= b < was.len() {
                        assert(old(self).linked_at(b));
                    }
                }
            }
            assert(self.slots() =~= old(self).slots().insert(id, live_slot()));
        }
    }

    proof fn lemma_listed_nodes(&self, old: Self)
        requires
            old.wf(),
            forall|id: u64| #[trigger]
                old.nodes@.contains_key(id) ==> self.nodes@.contains_key(id),
        ensures
            forall|i: int|
                0 <= i < old.order@.len() ==> self.nodes@.contains_key(#[trigger] old.order@[i]),
    {
        assert forall|i: int| 0 <= i < old.order@.len() implies self.nodes@.contains_key(
            #[trigger] old.order@[i],
        ) by {
            assert(old.linked_at(i));
        }
    }

    /// Takes a node out of the list, in constant time. The node stays allocated. Returns
    /// whether the list just became empty.
    pub fn unlink(&mut self, id: u64) -> (emptied: bool)
        requires
            old(self).wf(),
            old(self).order().contains(id),
        ensures
            final(self).wf(),
            final(self).order() == old(self).order().remove(old(self).order().index_of(id)),
            final(self).slots() == old(self).slots(),
            emptied == (final(self).order().len() == 0),
    {
        let ghost was = self.order@;
        let ghost k = was.index_of(id);
        proof {
            assert(self.linked_at(k));
            self.lemma_listed_nodes(*self);
        }
        let (prev, next) = match self.nodes.get(&id) {
            Some(node) => (node.prev, node.next),
            None => (None, None),
        };
        match prev {
            Some(before) => {
                self.set_next(before, next);
            },
            None => {
                self.head = next;
            },
        }
        match next {
            Some(after) => {
                self.set_prev(after, prev);
            },
            None => {
                if O::fifo() {
                    self.tail = O::into_tail(prev);
                }
            },
        }
        proof {
            self.order@ = was.remove(k);
            let now = self.order@;
            assert forall|i: int| 0 <= i < now.len() implies #[trigger] self.linked_at(i) by {
                let o = if i < k { i } else { i + 1 };
                assert(now[i] == was[o]);
                assert(old(self).linked_at(o));
                assert(now[i] != id);
            }
            assert(now.no_duplicates());
        }
        prev.is_none() && next.is_none()
    }

    /// Frees a node that is not listed.
    pub fn free(&mut self, id: u64)
        requires
            old(self).wf(),
            !old(self).order().contains(id),
        ensures
            final(self).wf(),
            final(self).order() == old(self).order(),
            final(self).slots() == old(self).slots().remove(id),
    {
        self.nodes.remove(&id);
        assert(self.slots() =~= old(self).slots().remove(id));
        assert forall|i: int| 0 <= i < self.order@.len() implies #[trigger] self.linked_at(i) by {
            assert(old(self).linked_at(i));
            assert(old(self).order@.contains(old(self).order@[i]));
        }
    }
}

/// A walk through the list meets its nodes one after another, from the first to the last.
pub proof fn law_walk<O: Order>(
    chain: Chain<O>,
    empty: bool,
    first: Option<u64>,
    i: int,
    next: Option<u64>,
)
    requires
        chain.wf(),
        call_ensures(Chain::<O>::is_empty, (&chain,), empty),
        call_ensures(Chain::<O>::first, (&chain,), first),
        0 <= i < chain.order().len() ==> call_ensures(
            Chain::<O>::next,
            (&chain, chain.order()[i]),
            next,
        ),
    ensures
        empty <==> chain.order().len() == 0,
        empty ==> first is None,
        !empty ==> first == Some(chain.order()[0]),
        0 <= i < chain.order().len() - 1 ==> next == Some(chain.order()[i + 1]),
        0 <= i == chain.order().len() - 1 ==> next is None,
{
    chain.lemma_listed();
    if 0 <= i < chain.order().len() {
        assert(chain.order().contains(chain.order()[i]));
        assert(chain.order().index_of(chain.order()[i]) == i);
    }
}

/// A node that is put in is the last one when the first in is the first out, and the first one
/// otherwise. The others stay as they are.
pub proof fn law_enqueued_at_its_end<O: Order>(chain: &mut Chain<O>, id: u64, i: int)
    requires
        old(chain).wf(),
        call_ensures(Chain::<O>::enqueue, (chain, id), ()),
        0 <= i < old(chain).order().len(),
    ensures
        final(chain).order().len() == old(chain).order().len() + 1,
        O::is_fifo() ==> final(chain).order().last() == id && final(chain).order()[i]
            == old(chain).order()[i],
        !O::is_fifo() ==> final(chain).order()[0] == id && final(chain).order()[i + 1]
            == old(chain).order()[i],
        final(chain).slots().contains_key(id),
{
}

/// Taking a node out takes out that one and no other, and keeps the others in order. The list
/// became empty exactly if it was the only one.
pub proof fn law_unlinked<O: Order>(chain: &mut Chain<O>, k: int, emptied: bool, i: int)
    requires
        old(chain).wf(),
        0 <= k < old(chain).order().len(),
        call_ensures(Chain::<O>::unlink, (chain, old(chain).order()[k]), emptied),
        0 <= i < old(chain).order().len(),
    ensures
        final(chain).order().len() == old(chain).order().len() - 1,
        i < k ==> final(chain).order()[i] == old(chain).order()[i],
        i > k ==> final(chain).order()[i - 1] == old(chain).order()[i],
        emptied <==> old(chain).order().len() == 1,
        final(chain).slots() == old(chain).slots(),
{
    let order = old(chain).order();
    old(chain).lemma_listed();
    assert(order.contains(order[k]));
    assert(order.index_of(order[k]) == k);
}

/// A node has the state that it was given last, until it is freed.
pub proof fn law_state_is_kept<O: Order>(
    chain: &mut Chain<O>,
    freed: &mut Chain<O>,
    id: u64,
    state: State,
    found: Option<State>,
    gone: Option<State>,
)
    requires
        call_ensures(Chain::<O>::set_state, (chain, id, state), ()),
        call_ensures(Chain::<O>::state, (&*final(chain), id), found),
        call_ensures(Chain::<O>::free, (freed, id), ()),
        call_ensures(Chain::<O>::state, (&*final(freed), id), gone),
    ensures
        found matches Some(s) && s@ == state@,
        gone is None,
        final(chain).order() == old(chain).order(),
        final(freed).order() == old(freed).order(),
{
}

} // verus!
