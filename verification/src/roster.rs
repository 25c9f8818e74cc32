//! The listeners of a registry, and the steps by which they come, are called and go. Each
//! step runs without calling anyone, so that a listener, a policy or another thread acts
//! only between steps.
use crate::chain::{next_at, Chain};
use crate::history::{
    doomed_slot, is_next, later, lemma_called, lemma_inv, lemma_not_called, lemma_ordered_index,
    lemma_push, lemma_remove, lemma_step_inv, run, valid, Entry, Model,
};
use crate::load::{
    lemma_load_add, lemma_load_frame, lemma_load_member, lemma_load_remove, lemma_load_update,
    load,
};
use crate::order::Order;
use crate::state::{max_visits, Slot, State};
use std::collections::HashMap;
use vstd::prelude::*;

verus! {

broadcast use vstd::std_specs::hash::group_hash_axioms;

/// The listeners of a registry. Events have content `C`, listeners are kept by a handle
/// `H`, and served in the order `O`.
pub struct Roster<C, H, O: Order> {
    chain: Chain<O>,
    listeners: HashMap<u64, H>,
    next_id: u64,
    depth: usize,
    open: bool,
    log: Ghost<Seq<Entry<C, H>>>,
}

/// Whether the nodes from index `start` of the list on are those served after `at`.
pub open spec fn splits(fifo: bool, order: Seq<u64>, at: Option<u64>, start: int) -> bool {
    &&& 0 <= start <= order.len()
    &&& forall|j: int|
        0 <= j < order.len() ==> (j >= start <==> (at is None || later(
            fifo,
            at->0 as int,
            #[trigger] order[j] as int,
        )))
}

/// What dropping a guard comes to.
pub enum Cancel<H> {
    /// The node is in use; whoever uses it will remove it.
    Deferred,
    /// The node is gone; its listener is to be destructed. `emptied` says whether it was
    /// the last one.
    Removed { listener: H, emptied: bool },
    /// The registry was dropped before, and so was the listener: only the node is gone.
    Freed,
}

/// A broadcast in progress.
pub struct Sweep<H> {
    at: Option<u64>,
    calling: bool,
    dropped: Vec<(u64, H)>,
    round: Ghost<nat>,
    bound: Ghost<nat>,
}

impl<H> Sweep<H> {
    /// The node that was called last.
    pub closed spec fn at(&self) -> Option<u64> {
        self.at
    }

    /// Whether that call is in progress.
    pub closed spec fn calling(&self) -> bool {
        self.calling
    }

    /// The nodes that this broadcast removed, with their listeners, first to last.
    pub closed spec fn dropped(&self) -> Seq<(u64, H)> {
        self.dropped@
    }

    /// The number of this broadcast.
    pub closed spec fn round(&self) -> nat {
        self.round@
    }

    /// How many nodes had been registered when it began.
    pub closed spec fn bound(&self) -> nat {
        self.bound@
    }

    /// Whether a call is in progress.
    pub fn is_calling(&self) -> (calling: bool)
        ensures
            calling == self.calling(),
    {
        self.calling
    }

    /// The node whose listener is being called, if any.
    pub fn current(&self) -> (id: Option<u64>)
        ensures
            id == (if self.calling() { self.at() } else { None }),
    {
        if self.calling {
            self.at
        } else {
            None
        }
    }

    /// Whether this broadcast has removed a node whose listener is still to be destructed.
    pub fn has_dropped(&self) -> (any: bool)
        ensures
            any == (self.dropped().len() > 0),
    {
        self.dropped.len() > 0
    }

    /// Hands out the node that was removed last, with its listener.
    pub fn take_dropped(&mut self) -> (last: Option<(u64, H)>)
        ensures
            final(self).at() == old(self).at(),
            final(self).calling() == old(self).calling(),
            final(self).round() == old(self).round(),
            final(self).bound() == old(self).bound(),
            last is None <==> old(self).dropped().len() == 0,
            last is None ==> final(self).dropped() == old(self).dropped(),
            last is Some ==> last->0 == old(self).dropped().last() && final(self).dropped()
                == old(self).dropped().drop_last(),
    {
        self.dropped.pop()
    }
}

impl<C, H, O: Order> Roster<C, H, O> {
    /// All that happened so far.
    pub closed spec fn log(&self) -> Seq<Entry<C, H>> {
        self.log@
    }

    /// What that makes of the registry.
    pub open spec fn model(&self) -> Model<H> {
        run(O::is_fifo(), self.log())
    }

    /// How many calls of listeners are in progress.
    pub closed spec fn depth(&self) -> nat {
        self.depth as nat
    }

    /// The log is one that can come about, and the data is what it leaves behind.
    pub closed spec fn wf(&self) -> bool {
        let m = self.model();
        &&& valid(O::is_fifo(), self.log@)
        &&& self.chain.wf()
        &&& self.chain.order() == m.order
        &&& self.chain.slots() == m.slots
        &&& self.listeners@ == m.listeners
        &&& self.next_id == m.next_id
        &&& self.open == m.open
        &&& self.depth == (if m.open { load(m.order, m.slots) } else { 0 })
        &&& self.depth <= max_visits()
    }

    /// What follows from being well formed.
    pub proof fn lemma_wf(&self)
        requires
            self.wf(),
        ensures
            valid(O::is_fifo(), self.log()),
            self.model().inv(O::is_fifo()),
            self.model().order.no_duplicates(),
            self.model().next_id <= u64::MAX,
            self.model().open ==> forall|id: u64| #[trigger]
                self.model().visits(id) <= self.depth(),
            self.model().open ==> self.depth() == load(self.model().order, self.model().slots),
            !self.model().open ==> self.depth() == 0,
            self.depth() <= max_visits(),
    {
        let m = self.model();
        lemma_inv(O::is_fifo(), self.log@);
        self.chain.lemma_listed();
        if m.open {
            assert forall|id: u64| #[trigger] m.visits(id) <= self.depth() by {
                if m.slots.contains_key(id) {
                    lemma_load_member(m.order, m.slots, id);
                }
            }
        }
    }

    /// No call is in progress while the list is empty.
    pub proof fn lemma_idle(&self)
        requires
            self.wf(),
            self.model().order.len() == 0,
        ensures
            self.depth() == 0,
    {
    }

    /// No listeners.
    pub fn new() -> (roster: Self)
        ensures
            roster.wf(),
            roster.log() == Seq::<Entry<C, H>>::empty(),
            roster.depth() == 0,
    {
        let roster = Roster {
            chain: Chain::new(),
            listeners: HashMap::new(),
            next_id: 0,
            depth: 0,
            open: true,
            log: Ghost(Seq::empty()),
        };
        proof {
            reveal(valid);
            assert(roster.listeners@ =~= roster.model().listeners);
        }
        roster
    }

    /// Whether the list is empty.
    pub fn is_empty(&self) -> (empty: bool)
        requires
            self.wf(),
        ensures
            empty == (self.model().order.len() == 0),
    {
        self.chain.is_empty()
    }

    /// Whether the registry is not being, and was not, dropped.
    pub fn is_open(&self) -> (open: bool)
        requires
            self.wf(),
        ensures
            open == self.model().open,
    {
        self.open
    }

    /// How many listeners were ever registered.
    pub fn registered(&self) -> (count: u64)
        requires
            self.wf(),
        ensures
            count == self.model().next_id,
    {
        self.next_id
    }

    /// How many calls of listeners are in progress.
    pub fn calls_in_progress(&self) -> (calls: usize)
        ensures
            calls == self.depth(),
    {
        self.depth
    }

    /// Whether the guard of the node has not been dropped.
    pub fn holds(&self, id: u64) -> (held: bool)
        requires
            self.wf(),
        ensures
            held == self.model().held(id),
    {
        match self.chain.state(id) {
            Some(state) => !state.is_cancelled(),
            None => false,
        }
    }

    /// Whether the listener of the node is neither destructed nor about to be.
    pub fn is_alive(&self, id: u64) -> (alive: bool)
        requires
            self.wf(),
        ensures
            alive == self.model().alive(id),
    {
        match self.chain.state(id) {
            Some(state) => state.is_alive(),
            None => false,
        }
    }

    /// Whether the node is in use.
    pub fn in_use(&self, id: u64) -> (used: bool)
        requires
            self.wf(),
        ensures
            used == (self.model().visits(id) > 0),
    {
        match self.chain.state(id) {
            Some(state) => state.is_visited(),
            None => false,
        }
    }

    /// The listener in the node.
    pub fn listener(&self, id: u64) -> (listener: Option<&H>)
        requires
            self.wf(),
        ensures
            listener is Some <==> self.model().listeners.contains_key(id),
            listener matches Some(l) ==> *l == self.model().listeners[id],
    {
        self.listeners.get(&id)
    }

    /// Takes in a listener.
    pub fn register(&mut self, listener: H) -> (id: u64)
        requires
            old(self).wf(),
            old(self).model().open,
            !old(self).model().sealed,
            old(self).model().next_id < u64::MAX,
        ensures
            final(self).wf(),
            id == old(self).model().next_id,
            final(self).log() == old(self).log().push(Entry::Registered { id, listener }),
            final(self).model().sealed == old(self).model().sealed,
            final(self).depth() == old(self).depth(),
    {
        let id: u64 = self.next_id;
        proof {
            self.lemma_wf();
            lemma_push(O::is_fifo(), self.log@, Entry::Registered { id, listener });
        }
        self.chain.enqueue(id);
        self.listeners.insert(id, listener);
        self.next_id = id + 1;
        proof {
            let m = old(self).model();
            self.log@ = self.log@.push(Entry::Registered { id, listener });
            let n = self.model();
            lemma_load_add(m.order, n.slots, id);
            assert forall|i: int| 0 <= i < m.order.len() implies m.slots[#[trigger] m.order[i]].visits
                == n.slots[m.order[i]].visits by {
                assert(m.order.contains(m.order[i]));
            }
            lemma_load_frame(m.order, m.slots, n.slots);
        }
        id
    }

    /// Drops the guard of a node.
    pub fn cancel(&mut self, id: u64) -> (outcome: Cancel<H>)
        requires
            old(self).wf(),
            old(self).model().held(id),
        ensures
            final(self).wf(),
            final(self).log() == old(self).log().push(Entry::Cancelled(id)),
            final(self).model().sealed == old(self).model().sealed,
            final(self).depth() == old(self).depth(),
            outcome is Deferred <==> old(self).model().visits(id) > 0,
            outcome is Removed <==> old(self).model().visits(id) == 0 && old(self).model().alive(
                id,
            ),
            outcome matches Cancel::Removed { listener, emptied } ==> {
                &&& old(self).model().listeners.contains_key(id)
                &&& listener == old(self).model().listeners[id]
                &&& emptied == (final(self).model().order.len() == 0)
            },
    {
        let ghost m = self.model();
        proof {
            self.lemma_wf();
            lemma_push(O::is_fifo(), self.log@, Entry::Cancelled(id));
            lemma_step_inv(O::is_fifo(), m, Entry::<C, H>::Cancelled(id));
            if m.order.contains(id) {
                lemma_remove(O::is_fifo(), m, id);
            }
        }
        let state = self.chain.state(id).unwrap();
        let outcome = if state.is_visited() {
            self.chain.set_state(id, state.cancel());
            Cancel::Deferred
        } else if state.is_alive() {
            let emptied = self.chain.unlink(id);
            self.chain.free(id);
            let listener = self.listeners.remove(&id).unwrap();
            Cancel::Removed { listener, emptied }
        } else {
            self.chain.free(id);
            Cancel::Freed
        };
        proof {
            self.log@ = self.log@.push(Entry::Cancelled(id));
            let n = self.model();
            if m.open {
                if m.visits(id) > 0 {
                    lemma_load_update(m.order, m.slots, id, n.slots[id]);
                } else {
                    Self::lemma_load_removed(m, id);
                }
            }
        }
        outcome
    }

    proof fn lemma_load_removed(m: Model<H>, id: u64)
        requires
            m.inv(O::is_fifo()),
            m.order.contains(id),
        ensures
            load(m.order, m.slots) == load(m.remove(id).order, m.remove(id).slots)
                + m.slots[id].visits,
    {
        let n = m.remove(id);
        lemma_ordered_index(O::is_fifo(), m, id);
        lemma_remove(O::is_fifo(), m, id);
        lemma_load_remove(m.order, m.slots, m.order.index_of(id));
        assert forall|i: int| 0 <= i < n.order.len() implies m.slots[#[trigger] n.order[i]].visits
            == n.slots[n.order[i]].visits by {
            assert(n.order.contains(n.order[i]));
        }
        lemma_load_frame(n.order, m.slots, n.slots);
    }

    /// Begins a broadcast.
    pub fn begin(&mut self) -> (sweep: Sweep<H>)
        requires
            old(self).wf(),
            old(self).model().open,
        ensures
            final(self).wf(),
            final(self).log() == old(self).log().push(Entry::Begun(old(self).model().rounds)),
            final(self).model().sealed == old(self).model().sealed,
            final(self).depth() == old(self).depth(),
            sweep.at() is None,
            !sweep.calling(),
            sweep.dropped() == Seq::<(u64, H)>::empty(),
            sweep.round() == old(self).model().rounds,
            sweep.bound() == old(self).model().next_id,
            !final(self).model().calling.contains_key(sweep.round()),
    {
        let ghost m = self.model();
        proof {
            self.lemma_wf();
            lemma_not_called(O::is_fifo(), m);
            lemma_push(O::is_fifo(), self.log@, Entry::Begun(m.rounds));
            self.log@ = self.log@.push(Entry::Begun(m.rounds));
        }
        Sweep {
            at: None,
            calling: false,
            dropped: Vec::new(),
            round: Ghost(m.rounds),
            bound: Ghost(m.next_id),
        }
    }

    /// Ends a call: the node leaves the list if its guard went meanwhile and no other call
    /// of it is in progress.
    fn leave(&mut self, id: u64, Ghost(round): Ghost<nat>) -> (removed: Option<H>)
        requires
            old(self).wf(),
            old(self).model().open,
            old(self).model().calls(round, id),
        ensures
            final(self).wf(),
            final(self).log() == old(self).log().push(Entry::Returned { round, id }),
            final(self).model().sealed == old(self).model().sealed,
            final(self).depth() == old(self).depth() - 1,
            removed is Some <==> old(self).model().leaves(id),
            removed matches Some(l) ==> l == old(self).model().listeners[id],
    {
        let ghost m = self.model();
        let ghost entry = Entry::<C, H>::Returned { round, id };
        proof {
            self.lemma_wf();
            lemma_called(O::is_fifo(), m, round);
            lemma_push(O::is_fifo(), self.log@, entry);
            lemma_step_inv(O::is_fifo(), m, entry);
            lemma_remove(O::is_fifo(), m, id);
            Self::lemma_load_removed(m, id);
            lemma_load_update(
                m.order,
                m.slots,
                id,
                Slot { visits: (m.slots[id].visits - 1) as nat, ..m.slots[id] },
            );
        }
        let state = self.chain.state(id).unwrap().end_visit();
        self.depth = self.depth - 1;
        let removed = if state.is_due() {
            self.chain.unlink(id);
            self.chain.free(id);
            self.listeners.remove(&id)
        } else {
            self.chain.set_state(id, state);
            None
        };
        proof {
            self.log@ = self.log@.push(entry);
        }
        removed
    }

    /// Ends the call in progress, if there is one. Returns the node after it, to go on from,
    /// and where that stands in the list.
    fn end_call(&mut self, sweep: &mut Sweep<H>) -> (from: (Option<u64>, Ghost<int>))
        requires
            old(self).wf(),
            old(self).model().open,
            old(sweep).round() < old(self).model().rounds,
            old(sweep).at() is Some <==> old(sweep).calling(),
            old(sweep).calling() ==> old(self).model().calls(
                old(sweep).round(),
                old(sweep).at()->0,
            ),
            !old(sweep).calling() ==> !old(self).model().calling.contains_key(old(sweep).round()),
        ensures
            final(self).wf(),
            final(self).log() == Self::called(old(self).log(), *old(sweep)),
            final(self).model().open,
            final(self).model().sealed == old(self).model().sealed,
            final(self).model().rounds == old(self).model().rounds,
            final(self).model().calling == old(self).model().calling.remove(old(sweep).round()),
            final(self).depth() == old(self).depth() - (if old(sweep).calling() {
                1int
            } else {
                0
            }),
            final(sweep).at() == old(sweep).at(),
            !final(sweep).calling(),
            final(sweep).round() == old(sweep).round(),
            final(sweep).bound() == old(sweep).bound(),
            final(sweep).dropped() == (if old(sweep).calling() && old(self).model().leaves(
                old(sweep).at()->0,
            ) {
                old(sweep).dropped().push(
                    (
                        old(sweep).at()->0,
                        old(self).model().listeners[old(sweep).at()->0],
                    ),
                )
            } else {
                old(sweep).dropped()
            }),
            from.0 == next_at(final(self).model().order, from.1@ - 1),
            splits(O::is_fifo(), final(self).model().order, old(sweep).at(), from.1@),
    {
        let ghost m = self.model();
        if sweep.calling {
            let id: u64 = sweep.at.unwrap();
            let ghost entry = Entry::<C, H>::Returned { round: sweep.round@, id };
            let ghost start = m.order.index_of(id) + if m.leaves(id) { 0int } else { 1 };
            proof {
                self.lemma_used(sweep.round@);
                lemma_push(O::is_fifo(), self.log@, entry);
                Self::lemma_after(m, id);
            }
            let cursor = self.chain.next(id);
            if let Some(listener) = self.leave(id, sweep.round) {
                sweep.dropped.push((id, listener));
            }
            sweep.calling = false;
            (cursor, Ghost(start))
        } else {
            assert(m.calling.remove(sweep.round@) =~= m.calling);
            (self.chain.first(), Ghost(0int))
        }
    }

    proof fn lemma_used(&self, round: nat)
        requires
            self.wf(),
            self.model().calling.contains_key(round),
        ensures
            self.model().order.contains(self.model().calling[round]),
            self.model().inv(O::is_fifo()),
    {
        self.lemma_wf();
        lemma_called(O::is_fifo(), self.model(), round);
    }

    /// Where the next node stands, once the end of one use of a node made it leave the list
    /// or not.
    proof fn lemma_after(m: Model<H>, id: u64)
        requires
            m.inv(O::is_fifo()),
            m.order.contains(id),
        ensures
            ({
                let n = m.end_visit(id);
                let start = m.order.index_of(id) + if m.leaves(id) { 0int } else { 1 };
                &&& next_at(m.order, m.order.index_of(id)) == next_at(n.order, start - 1)
                &&& splits(O::is_fifo(), n.order, Some(id), start)
            }),
    {
        let n = m.end_visit(id);
        let k = m.order.index_of(id);
        lemma_ordered_index(O::is_fifo(), m, id);
        lemma_remove(O::is_fifo(), m, id);
        let start = k + if m.leaves(id) { 0int } else { 1 };
        assert forall|j: int| 0 <= j < n.order.len() implies (j >= start <==> later(
            O::is_fifo(),
            id as int,
            #[trigger] n.order[j] as int,
        )) by {
            let o = if m.leaves(id) && j >= k { j + 1 } else { j };
            assert(n.order[j] == m.order[o]);
            assert(m.order[k] == id);
        }
    }

    /// The first node, from the one at index `start` of the list on, that was not cancelled.
    fn seek(&self, from: Option<u64>, Ghost(start): Ghost<int>) -> (next: Option<u64>)
        requires
            self.wf(),
            0 <= start <= self.model().order.len(),
            from == next_at(self.model().order, start - 1),
        ensures
            next matches Some(id) ==> {
                &&& self.model().held(id)
                &&& self.model().order.contains(id)
                &&& start <= self.model().order.index_of(id)
                &&& forall|j: int|
                    start <= j < self.model().order.index_of(id) ==> !self.model().held(
                        #[trigger] self.model().order[j],
                    )
            },
            next is None ==> forall|j: int|
                start <= j < self.model().order.len() ==> !self.model().held(
                    #[trigger] self.model().order[j],
                ),
    {
        let ghost n = self.model();
        let ghost mut at: int = start;
        let mut cursor: Option<u64> = from;
        proof {
            self.lemma_wf();
        }
        loop
            invariant
                self.wf(),
                n == self.model(),
                n.inv(O::is_fifo()),
                0 <= start <= at <= n.order.len(),
                cursor == next_at(n.order, at - 1),
                forall|j: int| start <= j < at ==> !n.held(#[trigger] n.order[j]),
            decreases n.order.len() - at,
        {
            match cursor {
                None => {
                    return None;
                },
                Some(id) => {
                    assert(n.order[at] == id);
                    assert(n.order.contains(id));
                    proof {
                        lemma_ordered_index(O::is_fifo(), n, id);
                    }
                    if self.holds(id) {
                        return Some(id);
                    }
                    cursor = self.chain.next(id);
                    proof {
                        at = at + 1;
                    }
                },
            }
        }
    }

    /// Ends the call in progress, if there is one, and finds the next node that was not
    /// cancelled; without one, the broadcast has reached the end of the list.
    pub fn advance(&mut self, sweep: &mut Sweep<H>) -> (next: Option<u64>)
        requires
            old(self).wf(),
            old(self).model().open,
            old(sweep).round() < old(self).model().rounds,
            old(sweep).at() is Some <==> old(sweep).calling(),
            old(sweep).calling() ==> old(self).model().calls(
                old(sweep).round(),
                old(sweep).at()->0,
            ),
            !old(sweep).calling() ==> !old(self).model().calling.contains_key(old(sweep).round()),
        ensures
            final(self).wf(),
            final(self).log() == (if next is Some {
                Self::called(old(self).log(), *old(sweep))
            } else {
                Self::called(old(self).log(), *old(sweep)).push(Entry::Swept(old(sweep).round()))
            }),
            final(self).depth() == old(self).depth() - (if old(sweep).calling() {
                1int
            } else {
                0
            }),
            final(self).model().sealed == old(self).model().sealed,
            !final(self).model().calling.contains_key(old(sweep).round()),
            is_next(O::is_fifo(), final(self).model(), old(sweep).at(), next),
            final(sweep).at() == old(sweep).at(),
            !final(sweep).calling(),
            final(sweep).round() == old(sweep).round(),
            final(sweep).bound() == old(sweep).bound(),
            final(sweep).dropped() == (if old(sweep).calling() && old(self).model().leaves(
                old(sweep).at()->0,
            ) {
                old(sweep).dropped().push(
                    (
                        old(sweep).at()->0,
                        old(self).model().listeners[old(sweep).at()->0],
                    ),
                )
            } else {
                old(sweep).dropped()
            }),
    {
        let (from, Ghost(start)) = self.end_call(sweep);
        let ghost n = self.model();
        let next = self.seek(from, Ghost(start));
        proof {
            self.lemma_wf();
            Self::lemma_found(n, sweep.at(), start, next);
            if next is None {
                lemma_push(O::is_fifo(), self.log@, Entry::Swept(sweep.round@));
                self.log@ = self.log@.push(Entry::Swept(sweep.round@));
            }
        }
        next
    }

    proof fn lemma_found(n: Model<H>, at: Option<u64>, start: int, next: Option<u64>)
        requires
            n.inv(O::is_fifo()),
            n.open,
            splits(O::is_fifo(), n.order, at, start),
            next matches Some(id) ==> {
                &&& n.held(id)
                &&& n.order.contains(id)
                &&& start <= n.order.index_of(id)
                &&& forall|j: int|
                    start <= j < n.order.index_of(id) ==> !n.held(#[trigger] n.order[j])
            },
            next is None ==> forall|j: int|
                start <= j < n.order.len() ==> !n.held(#[trigger] n.order[j]),
        ensures
            is_next(O::is_fifo(), n, at, next),
    {
        assert forall|x: u64| #[trigger] n.held(x) implies (n.order[n.order.index_of(x)] == x && 0
            <= n.order.index_of(x) < n.order.len()) by {
            assert(n.order.contains(x));
        }
        if let Some(id) = next {
            lemma_ordered_index(O::is_fifo(), n, id);
            let k = n.order.index_of(id);
            assert(n.order[k] == id);
            assert forall|x: u64| #[trigger]
                n.held(x) && (at is None || later(O::is_fifo(), at->0 as int, x as int)) implies !later(
                O::is_fifo(), x as int, id as int) by {
                let j = n.order.index_of(x);
                assert(n.order[j] == x);
            }
        } else {
            assert forall|x: u64| #[trigger] n.held(x) implies at is Some && !later(
                O::is_fifo(),
                at->0 as int,
                x as int,
            ) by {
                let j = n.order.index_of(x);
                assert(n.order[j] == x);
            }
        }
    }

    /// The log once the call in progress has come back.
    pub open spec fn called(log: Seq<Entry<C, H>>, sweep: Sweep<H>) -> Seq<Entry<C, H>> {
        if sweep.calling() {
            log.push(Entry::Returned { round: sweep.round(), id: sweep.at()->0 })
        } else {
            log
        }
    }

    /// Begins the call of the listener of a node.
    pub fn enter(&mut self, sweep: &mut Sweep<H>, id: u64, Ghost(content): Ghost<C>)
        requires
            old(self).wf(),
            old(self).model().open,
            old(self).model().held(id),
            old(self).depth() < max_visits(),
            old(sweep).round() < old(self).model().rounds,
            !old(self).model().calling.contains_key(old(sweep).round()),
        ensures
            final(self).wf(),
            final(self).log() == old(self).log().push(
                Entry::Delivered { round: old(sweep).round(), id, content },
            ),
            final(self).model().sealed == old(self).model().sealed,
            final(self).depth() == old(self).depth() + 1,
            final(sweep).at() == Some(id),
            final(sweep).calling(),
            final(sweep).round() == old(sweep).round(),
            final(sweep).bound() == old(sweep).bound(),
            final(sweep).dropped() == old(sweep).dropped(),
    {
        let ghost m = self.model();
        let ghost entry = Entry::<C, H>::Delivered { round: sweep.round@, id, content };
        proof {
            self.lemma_wf();
            lemma_push(O::is_fifo(), self.log@, entry);
            assert(m.visits(id) <= self.depth());
            lemma_load_update(
                m.order,
                m.slots,
                id,
                Slot { visits: m.slots[id].visits + 1, ..m.slots[id] },
            );
        }
        let state = self.chain.state(id).unwrap();
        self.chain.set_state(id, state.begin_visit());
        self.depth = self.depth + 1;
        sweep.at = Some(id);
        sweep.calling = true;
        proof {
            self.log@ = self.log@.push(entry);
        }
    }

    /// The registry begins to be dropped: every node is put in use by the drop, and none
    /// counts as alive from here on.
    pub fn close(&mut self)
        requires
            old(self).wf(),
            old(self).model().open,
            old(self).depth() == 0,
        ensures
            final(self).wf(),
            final(self).log() == old(self).log().push(Entry::Closed),
            final(self).model().sealed == old(self).model().sealed,
            final(self).depth() == 0,
    {
        let ghost m = self.model();
        let ghost mut at: int = 0;
        proof {
            self.lemma_wf();
            lemma_push(O::is_fifo(), self.log@, Entry::Closed);
            assert forall|id: u64| m.visits(id) == 0 by {
                assert(m.visits(id) <= self.depth());
            }
        }
        let mut cursor: Option<u64> = self.chain.first();
        while cursor.is_some()
            invariant
                self.chain.wf(),
                self.chain.order() == m.order,
                m.inv(O::is_fifo()),
                0 <= at <= m.order.len(),
                cursor == next_at(m.order, at - 1),
                self.chain.slots().dom() == m.slots.dom(),
                forall|j: int| 0 <= j < at ==> self.chain.slots()[#[trigger] m.order[j]]
                    == doomed_slot(),
                self.listeners == old(self).listeners,
                self.next_id == old(self).next_id,
                self.depth == old(self).depth,
                self.open == old(self).open,
                self.log == old(self).log,
            decreases m.order.len() - at,
        {
            let id: u64 = cursor.unwrap();
            proof {
                assert(m.order[at] == id);
                assert(m.order.contains(id));
                lemma_ordered_index(O::is_fifo(), m, id);
            }
            self.chain.set_state(id, State::doomed());
            assert(self.chain.slots().dom() =~= m.slots.dom());
            cursor = self.chain.next(id);
            proof {
                at = at + 1;
            }
        }
        self.open = false;
        proof {
            self.log@ = self.log@.push(Entry::Closed);
            let n = self.model();
            assert(self.chain.slots() =~= n.slots) by {
                assert forall|id: u64| #[trigger]
                    m.slots.contains_key(id) implies self.chain.slots()[id] == doomed_slot() by {
                    let j = m.order.index_of(id);
                    assert(m.order[j] == id);
                }
            }
        }
    }

    /// The dropping registry takes the listener out of the first node, if one is left.
    pub fn detach(&mut self) -> (first: Option<(u64, H)>)
        requires
            old(self).wf(),
            !old(self).model().open,
        ensures
            final(self).wf(),
            first is None <==> old(self).model().order.len() == 0,
            first is None ==> final(self).log() == old(self).log(),
            first matches Some((id, listener)) ==> {
                &&& id == old(self).model().order[0]
                &&& listener == old(self).model().listeners[id]
                &&& final(self).log() == old(self).log().push(Entry::Detached(id))
            },
            final(self).model().sealed == old(self).model().sealed,
            final(self).depth() == old(self).depth(),
    {
        let ghost m = self.model();
        proof {
            self.lemma_wf();
        }
        match self.chain.first() {
            None => None,
            Some(id) => {
                proof {
                    assert(m.order[0] == id);
                    assert(m.order.contains(id));
                    lemma_ordered_index(O::is_fifo(), m, id);
                    lemma_push(O::is_fifo(), self.log@, Entry::Detached(id));
                    assert(m.order.remove(0) =~= m.order.skip(1));
                }
                self.chain.unlink(id);
                let listener = self.listeners.remove(&id).unwrap();
                proof {
                    self.log@ = self.log@.push(Entry::Detached(id));
                }
                Some((id, listener))
            },
        }
    }

    /// The dropping registry is done with a node: it is freed if its guard went meanwhile,
    /// and left to its guard otherwise.
    pub fn bury(&mut self, id: u64)
        requires
            old(self).wf(),
            !old(self).model().open,
            old(self).model().visits(id) > 0,
            !old(self).model().order.contains(id),
        ensures
            final(self).wf(),
            final(self).log() == old(self).log().push(Entry::Buried(id)),
            final(self).model().sealed == old(self).model().sealed,
            final(self).depth() == old(self).depth(),
    {
        proof {
            self.lemma_wf();
            lemma_push(O::is_fifo(), self.log@, Entry::Buried(id));
        }
        let state = self.chain.state(id).unwrap();
        if state.is_cancelled() {
            self.chain.free(id);
        } else {
            self.chain.set_state(id, State::dead());
        }
        proof {
            self.log@ = self.log@.push(Entry::Buried(id));
        }
    }

    /// The destructor of a listener that was taken out is about to run.
    pub fn destructing(&mut self, id: u64)
        requires
            old(self).wf(),
            old(self).model().pending.contains_key(id),
        ensures
            final(self).wf(),
            final(self).log() == old(self).log().push(Entry::Destructed(id)),
            final(self).model().sealed == old(self).model().sealed,
            final(self).depth() == old(self).depth(),
    {
        proof {
            lemma_push(O::is_fifo(), self.log@, Entry::Destructed(id));
            self.log@ = self.log@.push(Entry::Destructed(id));
        }
    }

    /// The empty registry is to take in no listener any more.
    pub fn sealing(&mut self)
        requires
            old(self).wf(),
            old(self).model().open,
            old(self).model().order.len() == 0,
        ensures
            final(self).wf(),
            final(self).log() == old(self).log().push(Entry::Sealed),
            final(self).model().sealed,
            final(self).depth() == old(self).depth(),
    {
        proof {
            lemma_push(O::is_fifo(), self.log@, Entry::Sealed);
            self.log@ = self.log@.push(Entry::Sealed);
        }
    }

    /// The policy is about to be told that the registry became empty.
    pub fn notifying(&mut self)
        requires
            old(self).wf(),
            old(self).model().open,
            old(self).model().order.len() == 0,
        ensures
            final(self).wf(),
            final(self).log() == old(self).log().push(Entry::Notified),
            final(self).model().sealed == old(self).model().sealed,
            final(self).depth() == old(self).depth(),
    {
        proof {
            lemma_push(O::is_fifo(), self.log@, Entry::Notified);
            self.log@ = self.log@.push(Entry::Notified);
        }
    }
}

} // verus!
