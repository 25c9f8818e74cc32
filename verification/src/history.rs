//! What a registry is, as a function of what has happened to it.
//!
//! A registry keeps (for verification only) the log of everything that happened to it.
//! `run` says which registry a log leaves behind, `valid` which logs can come about.
use crate::state::Slot;
use vstd::prelude::*;

verus! {

/// One thing that happens to a registry. `C` is the content of events, `H` the handle by
/// which a listener is kept.
pub enum Entry<C, H> {
    /// A listener was registered as node `id`.
    Registered { id: u64, listener: H },
    /// The guard of the node was dropped.
    Cancelled(u64),
    /// A broadcast began; broadcasts are numbered by round.
    Begun(nat),
    /// The broadcast of that round called the listener of the node.
    Delivered { round: nat, id: u64, content: C },
    /// That call came back.
    Returned { round: nat, id: u64 },
    /// The broadcast of that round has reached the end of the list.
    Swept(nat),
    /// The policy was told that the registry became empty.
    Notified,
    /// The registry was sealed: it takes in no listener any more.
    Sealed,
    /// The registry began to be dropped.
    Closed,
    /// The dropping registry took the listener out of its first node.
    Detached(u64),
    /// The destructor of the listener of the node was started.
    Destructed(u64),
    /// The dropping registry is done with the node.
    Buried(u64),
}

/// A registry, as far as its behaviour goes.
#[verifier::ext_equal]
pub struct Model<H> {
    /// The nodes in the list, in the order in which they are served.
    pub order: Seq<u64>,
    /// The allocated nodes. A node stays allocated while its guard may still ask for it.
    pub slots: Map<u64, Slot>,
    /// The listeners in place, by node.
    pub listeners: Map<u64, H>,
    /// The listeners that were taken out and whose destructor has not started.
    pub pending: Map<u64, H>,
    /// How many nodes were ever registered; nodes are numbered from 0 on.
    pub next_id: nat,
    /// How many broadcasts have begun.
    pub rounds: nat,
    /// The nodes whose listeners are being called, by the round of the broadcast that calls.
    pub calling: Map<nat, u64>,
    /// Whether the registry is not being, and has not been, dropped.
    pub open: bool,
    /// Whether the registry takes in no listener any more.
    pub sealed: bool,
}

/// A node that was just registered.
pub open spec fn live_slot() -> Slot {
    Slot { alive: true, cancelled: false, visits: 0 }
}

/// A node whose registry is being dropped.
pub open spec fn doomed_slot() -> Slot {
    Slot { alive: false, cancelled: false, visits: 1 }
}

/// A node whose listener is destructed while its guard is still there.
pub open spec fn dead_slot() -> Slot {
    Slot { alive: false, cancelled: false, visits: 0 }
}

/// The list with a new node in it: at the end, or at the front.
pub open spec fn enqueue(fifo: bool, order: Seq<u64>, id: u64) -> Seq<u64> {
    if fifo {
        order.push(id)
    } else {
        seq![id] + order
    }
}

/// Whether `b` is served after `a`.
pub open spec fn later(fifo: bool, a: int, b: int) -> bool {
    if fifo {
        a < b
    } else {
        b < a
    }
}

impl<H> Model<H> {
    /// A new registry.
    pub open spec fn initial() -> Self {
        Model {
            order: Seq::empty(),
            slots: Map::empty(),
            listeners: Map::empty(),
            pending: Map::empty(),
            next_id: 0,
            rounds: 0,
            calling: Map::empty(),
            open: true,
            sealed: false,
        }
    }

    /// Whether the guard of the node has not been dropped.
    pub open spec fn held(self, id: u64) -> bool {
        self.slots.contains_key(id) && !self.slots[id].cancelled
    }

    /// Whether the listener of the node is neither destructed nor about to be.
    pub open spec fn alive(self, id: u64) -> bool {
        self.slots.contains_key(id) && self.slots[id].alive
    }

    /// How many uses of the node are in progress.
    pub open spec fn visits(self, id: u64) -> nat {
        if self.slots.contains_key(id) {
            self.slots[id].visits
        } else {
            0
        }
    }

    /// Whether the broadcast of that round is calling the listener of the node.
    pub open spec fn calls(self, round: nat, id: u64) -> bool {
        self.calling.contains_key(round) && self.calling[round] == id
    }

    /// The rounds of the broadcasts that are calling the listener of the node.
    pub open spec fn callers(self, id: u64) -> Set<nat> {
        Set::new(|round: nat| self.calls(round, id))
    }

    /// The node leaves the list and is freed; its listener waits for its destructor.
    pub open spec fn remove(self, id: u64) -> Self {
        Model {
            order: self.order.remove(self.order.index_of(id)),
            slots: self.slots.remove(id),
            listeners: self.listeners.remove(id),
            pending: self.pending.insert(id, self.listeners[id]),
            ..self
        }
    }

    pub open spec fn with_slot(self, id: u64, slot: Slot) -> Self {
        Model { slots: self.slots.insert(id, slot), ..self }
    }

    /// Dropping a guard: a node in use is only marked; a live one is removed; one whose
    /// registry is gone is freed.
    pub open spec fn cancel(self, id: u64) -> Self {
        let slot = self.slots[id];
        if slot.visits > 0 {
            self.with_slot(id, Slot { cancelled: true, ..slot })
        } else if slot.alive {
            self.remove(id)
        } else {
            Model { slots: self.slots.remove(id), ..self }
        }
    }

    /// Whether the end of one use of the node makes it leave the list.
    pub open spec fn leaves(self, id: u64) -> bool {
        self.slots[id].cancelled && self.slots[id].visits == 1
    }

    /// The end of one use of a node.
    pub open spec fn end_visit(self, id: u64) -> Self {
        let slot = self.slots[id];
        if self.leaves(id) {
            self.remove(id)
        } else {
            self.with_slot(id, Slot { visits: (slot.visits - 1) as nat, ..slot })
        }
    }

    /// Whether this can happen now.
    pub open spec fn enabled<C>(self, entry: Entry<C, H>) -> bool {
        match entry {
            Entry::Registered { id, listener } => self.open && !self.sealed && id == self.next_id,
            Entry::Cancelled(id) => self.held(id),
            Entry::Begun(round) => self.open && round == self.rounds,
            Entry::Delivered { round, id, content } => self.open && self.held(id) && round
                < self.rounds && !self.calling.contains_key(round),
            Entry::Returned { round, id } => self.open && self.calls(round, id),
            Entry::Swept(round) => self.open && round < self.rounds && !self.calling.contains_key(
                round,
            ),
            Entry::Notified => self.open && self.order.len() == 0,
            Entry::Sealed => self.open && self.order.len() == 0,
            Entry::Closed => self.open && forall|id: u64| self.visits(id) == 0,
            Entry::Detached(id) => !self.open && self.order.len() > 0 && id == self.order[0],
            Entry::Destructed(id) => self.pending.contains_key(id),
            Entry::Buried(id) => !self.open && self.visits(id) > 0 && !self.order.contains(id),
        }
    }

    /// The registry after this has happened.
    pub open spec fn apply<C>(self, fifo: bool, entry: Entry<C, H>) -> Self {
        match entry {
            Entry::Registered { id, listener } => Model {
                order: enqueue(fifo, self.order, id),
                slots: self.slots.insert(id, live_slot()),
                listeners: self.listeners.insert(id, listener),
                next_id: self.next_id + 1,
                ..self
            },
            Entry::Cancelled(id) => self.cancel(id),
            Entry::Begun(round) => Model { rounds: self.rounds + 1, ..self },
            Entry::Delivered { round, id, content } => Model {
                slots: self.slots.insert(
                    id,
                    Slot { visits: self.slots[id].visits + 1, ..self.slots[id] },
                ),
                calling: self.calling.insert(round, id),
                ..self
            },
            Entry::Returned { round, id } => Model {
                calling: self.calling.remove(round),
                ..self.end_visit(id)
            },
            Entry::Swept(round) => self,
            Entry::Notified => self,
            Entry::Sealed => Model { sealed: true, ..self },
            Entry::Closed => Model {
                slots: Map::new(|id: u64| self.slots.contains_key(id), |id: u64| doomed_slot()),
                open: false,
                ..self
            },
            Entry::Detached(id) => Model {
                order: self.order.skip(1),
                listeners: self.listeners.remove(id),
                pending: self.pending.insert(id, self.listeners[id]),
                ..self
            },
            Entry::Destructed(id) => Model { pending: self.pending.remove(id), ..self },
            Entry::Buried(id) => if self.slots[id].cancelled {
                Model { slots: self.slots.remove(id), ..self }
            } else {
                self.with_slot(id, dead_slot())
            },
        }
    }

    /// What holds of every registry that a valid log leaves behind.
    pub open spec fn inv(self, fifo: bool) -> bool {
        &&& self.slots.dom().finite()
        &&& self.sealed ==> self.order.len() == 0
        &&& self.inv_calls()
        &&& forall|i: int, j: int|
            0 <= i < j < self.order.len() ==> later(
                fifo,
                #[trigger] self.order[i] as int,
                #[trigger] self.order[j] as int,
            )
        &&& forall|id: u64| #[trigger] self.slots.contains_key(id) ==> id < self.next_id
        &&& forall|id: u64| #[trigger] self.pending.contains_key(id) ==> id < self.next_id
        &&& forall|id: u64| #[trigger]
            self.listeners.contains_key(id) <==> self.order.contains(id)
        &&& forall|id: u64| #[trigger] self.order.contains(id) ==> self.slots.contains_key(id)
        &&& forall|id: u64| #[trigger]
            self.pending.contains_key(id) ==> !self.order.contains(id)
        &&& self.open ==> self.inv_open()
        &&& !self.open ==> self.inv_closed()
    }

    /// While the registry is there, the uses of a node are the calls of its listener that
    /// are in progress. None is once the registry is being dropped.
    #[verifier::opaque]
    pub open spec fn inv_calls(self) -> bool {
        &&& forall|round: nat| #[trigger] self.calling.contains_key(round) ==> round < self.rounds
        &&& !self.open ==> self.calling.dom() == Set::<nat>::empty()
        &&& forall|id: u64| #[trigger] self.callers(id).finite()
        &&& self.open ==> forall|id: u64| #[trigger]
            self.visits(id) == self.callers(id).len()
    }

    /// While the registry is there, the allocated nodes are the listed ones, all alive; a
    /// node whose guard is gone is in use.
    pub open spec fn inv_open(self) -> bool {
        forall|id: u64| #[trigger]
            self.slots.contains_key(id) ==> {
                &&& self.order.contains(id)
                &&& self.slots[id].alive
                &&& self.slots[id].cancelled ==> self.slots[id].visits > 0
            }
    }

    /// Once the registry is being dropped, no node is alive, and those still listed are
    /// in use by the drop.
    pub open spec fn inv_closed(self) -> bool {
        forall|id: u64| #[trigger]
            self.slots.contains_key(id) ==> {
                &&& !self.slots[id].alive
                &&& self.slots[id].visits <= 1
                &&& self.slots[id].cancelled ==> self.slots[id].visits == 1
                &&& self.order.contains(id) ==> self.slots[id].visits == 1
            }
    }
}

/// The registry that a log leaves behind.
pub open spec fn run<C, H>(fifo: bool, log: Seq<Entry<C, H>>) -> Model<H>
    decreases log.len(),
{
    if log.len() == 0 {
        Model::initial()
    } else {
        run(fifo, log.drop_last()).apply(fifo, log.last())
    }
}

/// The registry just before the entry at index `i` of the log.
pub open spec fn before<C, H>(fifo: bool, log: Seq<Entry<C, H>>, i: int) -> Model<H> {
    run(fifo, log.take(i))
}

/// Whether `next` is the node to call after `at`: the first one in the list, from there
/// on, that was not cancelled.
pub open spec fn is_next<H>(
    fifo: bool,
    model: Model<H>,
    at: Option<u64>,
    next: Option<u64>,
) -> bool {
    match next {
        Some(id) => {
            &&& model.held(id)
            &&& at is Some ==> later(fifo, at->0 as int, id as int)
            &&& forall|x: u64| #[trigger]
                model.held(x) && (at is None || later(fifo, at->0 as int, x as int)) ==> !later(
                    fifo,
                    x as int,
                    id as int,
                )
        },
        None => forall|x: u64| #[trigger]
            model.held(x) ==> at is Some && !later(fifo, at->0 as int, x as int),
    }
}

/// Whether each entry of the log could happen when it did.
#[verifier::opaque]
pub open spec fn valid<C, H>(fifo: bool, log: Seq<Entry<C, H>>) -> bool {
    forall|i: int| 0 <= i < log.len() ==> before(fifo, log, i).enabled(#[trigger] log[i])
}

pub proof fn lemma_push<C, H>(fifo: bool, log: Seq<Entry<C, H>>, entry: Entry<C, H>)
    ensures
        run(fifo, log.push(entry)) == run(fifo, log).apply(fifo, entry),
        valid(fifo, log) && run(fifo, log).enabled(entry) ==> valid(fifo, log.push(entry)),
{
    reveal(valid);
    let next = log.push(entry);
    assert(next.drop_last() =~= log);
    if valid(fifo, log) && run(fifo, log).enabled(entry) {
        assert forall|i: int| 0 <= i < next.len() implies before(fifo, next, i).enabled(
            #[trigger] next[i],
        ) by {
            assert(next.take(i) =~= log.take(i));
            if i == log.len() {
                assert(log.take(i) =~= log);
            }
        }
    }
}

/// A prefix of a valid log is valid, and the next entry leads to the next prefix.
pub proof fn lemma_prefix<C, H>(fifo: bool, log: Seq<Entry<C, H>>, i: int)
    requires
        valid(fifo, log),
        0 <= i <= log.len(),
    ensures
        valid(fifo, log.take(i)),
        i < log.len() ==> before(fifo, log, i + 1) == before(fifo, log, i).apply(fifo, log[i]),
        i < log.len() ==> before(fifo, log, i).enabled(log[i]),
        before(fifo, log, log.len() as int) == run(fifo, log),
{
    reveal(valid);
    assert forall|k: int| 0 <= k < log.take(i).len() implies before(
        fifo,
        log.take(i),
        k,
    ).enabled(#[trigger] log.take(i)[k]) by {
        assert(log.take(i).take(k) =~= log.take(k));
        assert(log.take(i)[k] == log[k]);
    }
    if i < log.len() {
        assert(log.take(i + 1).drop_last() =~= log.take(i));
    }
    assert(log.take(log.len() as int) =~= log);
}

pub proof fn lemma_ordered_index<H>(fifo: bool, m: Model<H>, id: u64)
    requires
        m.inv(fifo),
        m.order.contains(id),
    ensures
        0 <= m.order.index_of(id) < m.order.len(),
        m.order[m.order.index_of(id)] == id,
        forall|i: int| 0 <= i < m.order.len() && #[trigger] m.order[i] == id ==> i
            == m.order.index_of(id),
{
}

/// Removing a node takes exactly that node out of the list and keeps the order.
pub proof fn lemma_remove<H>(fifo: bool, m: Model<H>, id: u64)
    requires
        m.inv(fifo),
        m.order.contains(id),
    ensures
        m.remove(id).order.len() == m.order.len() - 1,
        forall|x: u64| #[trigger]
            m.remove(id).order.contains(x) <==> m.order.contains(x) && x != id,
        forall|i: int, j: int|
            0 <= i < j < m.remove(id).order.len() ==> later(
                fifo,
                #[trigger] m.remove(id).order[i] as int,
                #[trigger] m.remove(id).order[j] as int,
            ),
{
    lemma_ordered_index(fifo, m, id);
    let k = m.order.index_of(id);
    let rest = m.remove(id).order;
    assert(rest =~= m.order.remove(k));
    assert forall|x: u64| #[trigger] rest.contains(x) <==> m.order.contains(x) && x != id by {
        if rest.contains(x) {
            let i = rest.index_of(x);
            let o = if i < k { i } else { i + 1 };
            assert(m.order[o] == x);
        }
        if m.order.contains(x) && x != id {
            let o = m.order.index_of(x);
            let i = if o < k { o } else { o - 1 };
            assert(rest[i] == x);
        }
    }
    assert forall|i: int, j: int| 0 <= i < j < rest.len() implies later(
        fifo,
        #[trigger] rest[i] as int,
        #[trigger] rest[j] as int,
    ) by {
        let oi = if i < k { i } else { i + 1 };
        let oj = if j < k { j } else { j + 1 };
        assert(rest[i] == m.order[oi] && rest[j] == m.order[oj]);
    }
}

/// A node whose listener is being called is in use, and in the list.
pub proof fn lemma_called<H>(fifo: bool, m: Model<H>, round: nat)
    requires
        m.inv(fifo),
        m.calling.contains_key(round),
    ensures
        m.open,
        round < m.rounds,
        m.visits(m.calling[round]) > 0,
        m.order.contains(m.calling[round]),
{
    reveal(Model::inv_calls);
    let id = m.calling[round];
    if !m.open {
        assert(m.calling.dom().contains(round));
    }
    assert(m.callers(id).contains(round));
    assert(m.visits(id) == m.callers(id).len());
    if m.callers(id).len() == 0 {
        assert(m.callers(id) =~= Set::empty());
    }
    assert(m.slots.contains_key(id));
}

/// A broadcast that has not begun calls no one.
pub proof fn lemma_not_called<H>(fifo: bool, m: Model<H>)
    requires
        m.inv(fifo),
    ensures
        !m.calling.contains_key(m.rounds),
{
    reveal(Model::inv_calls);
}

/// When no node is in use, no listener is being called.
proof fn lemma_no_calls<H>(fifo: bool, m: Model<H>)
    requires
        m.inv(fifo),
        forall|id: u64| m.visits(id) == 0,
    ensures
        m.calling.dom() == Set::<nat>::empty(),
{
    assert forall|round: nat| !m.calling.dom().contains(round) by {
        if m.calling.contains_key(round) {
            lemma_called(fifo, m, round);
        }
    }
    assert(m.calling.dom() =~= Set::<nat>::empty());
}

/// Every step keeps the count of the calls.
proof fn lemma_step_calls<C, H>(fifo: bool, m: Model<H>, entry: Entry<C, H>)
    requires
        m.inv(fifo),
        m.enabled(entry),
    ensures
        m.apply(fifo, entry).inv_calls(),
{
    let n = m.apply(fifo, entry);
    reveal(Model::inv_calls);
    match entry {
        Entry::Delivered { round, id, content } => {
            assert forall|x: u64|
                #![trigger n.callers(x)]
                #![trigger n.visits(x)]
                n.callers(x).finite() && n.visits(x) == n.callers(x).len() by {
                assert(m.visits(x) == m.callers(x).len() && m.callers(x).finite());
                if x == id {
                    assert(n.callers(x) =~= m.callers(x).insert(round));
                } else {
                    assert(n.callers(x) =~= m.callers(x));
                }
            }
        },
        Entry::Returned { round, id } => {
            lemma_called(fifo, m, round);
            assert forall|x: u64|
                #![trigger n.callers(x)]
                #![trigger n.visits(x)]
                n.callers(x).finite() && n.visits(x) == n.callers(x).len() by {
                assert(m.visits(x) == m.callers(x).len() && m.callers(x).finite());
                if x == id {
                    assert(n.callers(x) =~= m.callers(x).remove(round));
                    assert(m.callers(x).contains(round));
                } else {
                    assert(n.callers(x) =~= m.callers(x));
                }
            }
        },
        _ => {
            if entry is Closed {
                lemma_no_calls(fifo, m);
            }
            assert forall|x: u64|
                #![trigger n.callers(x)]
                #![trigger n.visits(x)]
                n.callers(x).finite() && (n.open ==> n.visits(x) == n.callers(x).len()) by {
                assert(n.callers(x) =~= m.callers(x));
                assert(m.callers(x).finite());
                if n.open {
                    assert(m.visits(x) == m.callers(x).len());
                    assert(m.visits(x) == n.visits(x));
                }
            }
        },
    }
}

/// Every step keeps the invariant.
pub proof fn lemma_step_inv<C, H>(fifo: bool, m: Model<H>, entry: Entry<C, H>)
    requires
        m.inv(fifo),
        m.enabled(entry),
    ensures
        m.apply(fifo, entry).inv(fifo),
{
    let n = m.apply(fifo, entry);
    lemma_step_calls(fifo, m, entry);
    match entry {
        Entry::Registered { id, listener } => {
            assert forall|x: u64| #[trigger] n.order.contains(x) <==> m.order.contains(x) || x
                == id by {
                if m.order.contains(x) {
                    let i = m.order.index_of(x);
                    assert(n.order[if fifo { i } else { i + 1 }] == x);
                }
                assert(n.order[if fifo { m.order.len() as int } else { 0 }] == id);
                if n.order.contains(x) {
                    let i = n.order.index_of(x);
                    if fifo && i < m.order.len() {
                        assert(m.order[i] == x);
                    }
                    if !fifo && i > 0 {
                        assert(m.order[i - 1] == x);
                    }
                }
            }
            assert forall|i: int| 0 <= i < m.order.len() implies #[trigger] m.order[i]
                < m.next_id by {
                assert(m.order.contains(m.order[i]));
            }
        },
        Entry::Cancelled(id) => {
            if m.slots[id].visits == 0 && m.slots[id].alive {
                lemma_remove(fifo, m, id);
            }
        },
        Entry::Returned { round, id } => {
            lemma_called(fifo, m, round);
            lemma_remove(fifo, m, id);
        },
        Entry::Closed => {
            assert(n.slots.dom() =~= m.slots.dom());
        },
        Entry::Detached(id) => {
            assert forall|x: u64| #[trigger] n.order.contains(x) <==> m.order.contains(x) && x
                != id by {
                if m.order.contains(x) && x != id {
                    let i = m.order.index_of(x);
                    assert(n.order[i - 1] == x);
                }
                if n.order.contains(x) {
                    let i = n.order.index_of(x);
                    assert(m.order[i + 1] == x);
                }
            }
            assert(m.order.contains(id));
        },
        _ => {},
    }
}

/// Every registry that a valid log leaves behind satisfies the invariant.
pub proof fn lemma_inv<C, H>(fifo: bool, log: Seq<Entry<C, H>>)
    requires
        valid(fifo, log),
    ensures
        run(fifo, log).inv(fifo),
    decreases log.len(),
{
    if log.len() == 0 {
        let m = run(fifo, log);
        reveal(Model::inv_calls);
        assert forall|id: u64| #[trigger] m.callers(id) =~= Set::<nat>::empty() by {}
        assert(m.calling.dom() =~= Set::<nat>::empty());
    } else {
        let n = log.len() - 1;
        lemma_prefix(fifo, log, n);
        assert(log.take(n) =~= log.drop_last());
        lemma_inv(fifo, log.drop_last());
        assert(log[n] == log.last());
        lemma_step_inv(fifo, run(fifo, log.drop_last()), log.last());
    }
}

} // verus!
