//! Waiting for the next event: what a future and its listener keep in common.
use crate::history::{lemma_prefix, valid, Entry};
use crate::laws::{delivers, law_calls_complete_before_destructor};
use vstd::prelude::*;

verus! {

/// How far the wait for an event has got. `W` wakes the task that waits.
pub enum NextState<E, W> {
    /// Nothing has happened, and no task waits.
    Init,
    /// A task waits.
    Wait(W),
    /// The event is there, for the task to take.
    Ready(E),
    /// The event was taken, or there will be none.
    Dead,
}

/// What the listener side of the wait is told.
pub enum Signal<E> {
    /// An event arrived.
    Event(E),
    /// The listener is being destructed.
    Destructed,
}

/// What asking for the event comes to.
pub enum Polled<E, W> {
    /// It is not there yet. The waker that is not needed any more is handed back.
    Pending(Option<W>),
    /// It is there, or there will be none.
    Ready(Option<E>),
}

/// The wait for the next event of a registry.
pub struct Next<E, W> {
    state: NextState<E, W>,
}

impl<E, W> NextState<E, W> {
    /// Whether the event may still arrive.
    pub open spec fn is_pending(self) -> bool {
        self is Init || self is Wait
    }

    /// The waker of the task that waits.
    pub open spec fn waiter(self) -> Option<W> {
        match self {
            NextState::Wait(waker) => Some(waker),
            _ => None,
        }
    }

    /// The state after the listener side was told something; only the first thing counts.
    pub open spec fn told(self, signal: Signal<E>) -> Self {
        if self.is_pending() {
            match signal {
                Signal::Event(event) => NextState::Ready(event),
                Signal::Destructed => NextState::Dead,
            }
        } else {
            self
        }
    }

    /// The state after the listener side was told several things, one after another.
    pub open spec fn told_all(self, signals: Seq<Signal<E>>) -> Self
        decreases signals.len(),
    {
        if signals.len() == 0 {
            self
        } else {
            self.told_all(signals.drop_last()).told(signals.last())
        }
    }
}

impl<E, W> Next<E, W> {
    /// How far the wait has got.
    pub closed spec fn state(&self) -> NextState<E, W> {
        self.state
    }

    /// A wait that begins.
    pub fn new() -> (next: Self)
        ensures
            next.state() == NextState::<E, W>::Init,
    {
        Next { state: NextState::Init }
    }

    fn is_pending(&self) -> (pending: bool)
        ensures
            pending == self.state().is_pending(),
    {
        match &self.state {
            NextState::Init => true,
            NextState::Wait(_) => true,
            _ => false,
        }
    }

    fn replace(&mut self, state: NextState<E, W>) -> (old_state: NextState<E, W>)
        ensures
            old_state == old(self).state(),
            final(self).state() == state,
    {
        let mut other = state;
        std::mem::swap(&mut self.state, &mut other);
        other
    }

    fn tell(&mut self, state: NextState<E, W>) -> (wake: Option<W>)
        ensures
            final(self).state() == (if old(self).state().is_pending() {
                state
            } else {
                old(self).state()
            }),
            wake == old(self).state().waiter(),
    {
        if self.is_pending() {
            match self.replace(state) {
                NextState::Wait(waker) => Some(waker),
                _ => None,
            }
        } else {
            None
        }
    }

    /// An event arrives. Only the first one is kept. Returns the waker of the task that
    /// waits, to be woken.
    pub fn accept(&mut self, event: E) -> (wake: Option<W>)
        ensures
            final(self).state() == old(self).state().told(Signal::Event(event)),
            wake == old(self).state().waiter(),
    {
        self.tell(NextState::Ready(event))
    }

    /// The listener is being destructed: if no event arrived, none will. Returns the waker
    /// of the task that waits, to be woken.
    pub fn destruct(&mut self) -> (wake: Option<W>)
        ensures
            final(self).state() == old(self).state().told(Signal::Destructed),
            wake == old(self).state().waiter(),
    {
        self.tell(NextState::Dead)
    }

    /// Whether [`poll`](Self::poll) is going to need a waker.
    pub fn wants_waker(&self) -> (wants: bool)
        ensures
            wants == self.state().is_pending(),
    {
        self.is_pending()
    }

    /// Asks for the event. While it may still arrive, the task waits by this waker.
    /// Otherwise the event is handed out, once, if there is one.
    pub fn poll(&mut self, waker: Option<W>) -> (polled: Polled<E, W>)
        requires
            old(self).state().is_pending() ==> waker is Some,
        ensures
            polled == (match old(self).state() {
                NextState::Init => Polled::Pending(None),
                NextState::Wait(displaced) => Polled::Pending(Some(displaced)),
                NextState::Ready(event) => Polled::Ready(Some(event)),
                NextState::Dead => Polled::<E, W>::Ready(None),
            }),
            final(self).state() == (if old(self).state().is_pending() {
                NextState::<E, W>::Wait(waker->0)
            } else {
                NextState::Dead
            }),
    {
        if self.is_pending() {
            match self.replace(NextState::Wait(waker.unwrap())) {
                NextState::Wait(displaced) => Polled::Pending(Some(displaced)),
                _ => Polled::Pending(None),
            }
        } else {
            match self.replace(NextState::Dead) {
                NextState::Ready(event) => Polled::Ready(Some(event)),
                _ => Polled::Ready(None),
            }
        }
    }

    /// The wait is given up. Returns what was kept for it.
    pub fn abandon(&mut self) -> (left: NextState<E, W>)
        ensures
            left == old(self).state(),
            final(self).state() == NextState::<E, W>::Dead,
    {
        self.replace(NextState::Dead)
    }
}

/// The immediate next event is the one that the wait ends with; if the listener is
/// destructed first, it ends without one. Whatever comes later changes nothing.
pub proof fn law_first_signal_decides<E, W>(state: NextState<E, W>, signals: Seq<Signal<E>>)
    requires
        state.is_pending(),
        signals.len() > 0,
    ensures
        state.told_all(signals) == (match signals[0] {
            Signal::Event(event) => NextState::<E, W>::Ready(event),
            Signal::Destructed => NextState::Dead,
        }),
    decreases signals.len(),
{
    if signals.len() > 1 {
        law_first_signal_decides(state, signals.drop_last());
    } else {
        assert(signals.drop_last().len() == 0);
        assert(state.told_all(signals.drop_last()) == state);
    }
}

/// A wait that is over never begins again.
pub proof fn law_over_for_good<E, W>(state: NextState<E, W>, signals: Seq<Signal<E>>)
    requires
        !state.is_pending(),
    ensures
        state.told_all(signals) == state,
    decreases signals.len(),
{
    if signals.len() > 0 {
        law_over_for_good(state, signals.drop_last());
    }
}

/// What the listener side of a wait is told by a registry in which it is the listener of the
/// node: the events of its calls, and its destructor.
pub open spec fn signals_of<E, H>(log: Seq<Entry<E, H>>, id: u64) -> Seq<Signal<E>>
    decreases log.len(),
{
    if log.len() == 0 {
        Seq::empty()
    } else {
        let rest = signals_of(log.drop_last(), id);
        match log.last() {
            Entry::Delivered { round, id: x, content } => if x == id {
                rest.push(Signal::Event(content))
            } else {
                rest
            },
            Entry::Destructed(x) => if x == id {
                rest.push(Signal::Destructed)
            } else {
                rest
            },
            _ => rest,
        }
    }
}

/// Whether the entry at index `k` of the log is the first call of the listener of the node.
pub open spec fn first_call<E, H>(log: Seq<Entry<E, H>>, id: u64, k: int) -> bool {
    &&& 0 <= k < log.len()
    &&& delivers(log[k], id)
    &&& forall|j: int| 0 <= j < k ==> !delivers(#[trigger] log[j], id)
}

/// A wait that is registered as a listener ends with the event of its first call, which is
/// the immediate next event that reaches it. If it is destructed without a call, as when the
/// registry is dropped, it ends without one. Until then it goes on.
pub proof fn law_wait_of_a_listener<E, H, W>(
    fifo: bool,
    log: Seq<Entry<E, H>>,
    id: u64,
    state: NextState<E, W>,
)
    requires
        valid(fifo, log),
        state.is_pending(),
    ensures
        forall|k: int| #[trigger]
            first_call(log, id, k) ==> state.told_all(signals_of(log, id)) == NextState::<
                E,
                W,
            >::Ready(log[k]->Delivered_content),
        (forall|k: int| 0 <= k < log.len() ==> !delivers(#[trigger] log[k], id))
            ==> state.told_all(signals_of(log, id)) == if log.contains(Entry::Destructed(id)) {
            NextState::<E, W>::Dead
        } else {
            state
        },
    decreases log.len(),
{
    if log.len() > 0 {
        let n = log.len() - 1;
        let rest = log.drop_last();
        let signals = signals_of(rest, id);
        lemma_prefix(fifo, log, n);
        assert(log.take(n) =~= rest);
        assert(log[n] == log.last());
        assert forall|j: int| 0 <= j < n implies rest[j] == #[trigger] log[j] by {}
        law_wait_of_a_listener(fifo, rest, id, state);
        assert forall|signal: Signal<E>| #[trigger]
            state.told_all(signals.push(signal)) == state.told_all(signals).told(signal) by {
            assert(signals.push(signal).drop_last() =~= signals);
        }
        assert forall|k: int| #[trigger] first_call(log, id, k) implies state.told_all(
            signals_of(log, id),
        ) == NextState::<E, W>::Ready(log[k]->Delivered_content) by {
            if k < n {
                assert(delivers(rest[k], id));
                assert forall|j: int| 0 <= j < k implies !delivers(#[trigger] rest[j], id) by {
                    assert(!delivers(log[j], id));
                }
                assert(first_call(rest, id, k));
            } else {
                assert forall|j: int| 0 <= j < n implies !delivers(#[trigger] rest[j], id) by {
                    assert(!delivers(log[j], id));
                }
                if rest.contains(Entry::Destructed(id)) {
                    let i = rest.index_of(Entry::Destructed(id));
                    assert(log[i] == Entry::<E, H>::Destructed(id));
                    law_calls_complete_before_destructor(fifo, log, i, id);
                }
            }
        }
        if forall|k: int| 0 <= k < log.len() ==> !delivers(#[trigger] log[k], id) {
            assert forall|j: int| 0 <= j < n implies !delivers(#[trigger] rest[j], id) by {
                assert(!delivers(log[j], id));
            }
            assert(!delivers(log[n], id));
            if rest.contains(Entry::Destructed(id)) {
                let i = rest.index_of(Entry::Destructed(id));
                assert(log[i] == Entry::<E, H>::Destructed(id));
            }
            if log.contains(Entry::Destructed(id)) && log.last() != Entry::<E, H>::Destructed(
                id,
            ) {
                let i = log.index_of(Entry::Destructed(id));
                assert(rest[i] == Entry::<E, H>::Destructed(id));
            }
        }
    }
}

/// Waiting for an event that has not arrived. The task that asks waits, the waker that it
/// brought before comes back, and when the event arrives, or will not, the waker that it
/// brought last is handed out to be woken.
pub proof fn law_task_is_woken<E, W>(
    next: &mut Next<E, W>,
    waker: W,
    polled: Polled<E, W>,
    again: &mut Next<E, W>,
    other: W,
    repolled: Polled<E, W>,
    told: &mut Next<E, W>,
    event: E,
    woken: Option<W>,
    lost: &mut Next<E, W>,
    woken_too: Option<W>,
)
    requires
        call_ensures(Next::<E, W>::wants_waker, (&*old(next),), true),
        call_ensures(Next::<E, W>::poll, (next, Some(waker)), polled),
        *old(again) == *final(next),
        call_ensures(Next::<E, W>::poll, (again, Some(other)), repolled),
        *old(told) == *final(again),
        call_ensures(Next::<E, W>::accept, (told, event), woken),
        *old(lost) == *final(again),
        call_ensures(Next::<E, W>::destruct, (lost,), woken_too),
    ensures
        polled is Pending,
        repolled == Polled::<E, W>::Pending(Some(waker)),
        woken == Some(other),
        woken_too == Some(other),
{
}

/// The event that arrives first is the one that the task gets, once; later ones are not kept,
/// and no one is woken for them. If the listener is destructed first the task gets none.
pub proof fn law_first_event_is_taken<E, W>(
    next: &mut Next<E, W>,
    event: E,
    woken: Option<W>,
    later: &mut Next<E, W>,
    second: E,
    unwoken: Option<W>,
    gone: &mut Next<E, W>,
    unwoken_too: Option<W>,
    waker: (Option<W>, Option<W>),
    asked: &mut Next<E, W>,
    polled: Polled<E, W>,
    asked_again: &mut Next<E, W>,
    repolled: Polled<E, W>,
    wants: bool,
)
    requires
        call_ensures(Next::<E, W>::wants_waker, (&*old(next),), true),
        call_ensures(Next::<E, W>::accept, (next, event), woken),
        *old(later) == *final(next),
        call_ensures(Next::<E, W>::accept, (later, second), unwoken),
        *old(gone) == *final(later),
        call_ensures(Next::<E, W>::destruct, (gone,), unwoken_too),
        *old(asked) == *final(gone),
        call_ensures(Next::<E, W>::poll, (asked, waker.0), polled),
        *old(asked_again) == *final(asked),
        call_ensures(Next::<E, W>::poll, (asked_again, waker.1), repolled),
        call_ensures(Next::<E, W>::wants_waker, (&*final(next),), wants),
    ensures
        unwoken is None,
        unwoken_too is None,
        polled == Polled::<E, W>::Ready(Some(event)),
        repolled == Polled::<E, W>::Ready(None),
        !wants,
{
}

/// A wait whose listener is destructed before an event arrives, or that is given up, ends
/// without one, whatever arrives later.
pub proof fn law_no_event_after_the_end<E, W>(
    next: &mut Next<E, W>,
    left: Option<W>,
    given_up: &mut Next<E, W>,
    kept: NextState<E, W>,
    ended: Next<E, W>,
    later: &mut Next<E, W>,
    event: E,
    unwoken: Option<W>,
    waker: Option<W>,
    asked: &mut Next<E, W>,
    polled: Polled<E, W>,
)
    requires
        call_ensures(Next::<E, W>::wants_waker, (&*old(next),), true),
        call_ensures(Next::<E, W>::destruct, (next,), left),
        call_ensures(Next::<E, W>::abandon, (given_up,), kept),
        ended == *final(next) || ended == *final(given_up),
        *old(later) == ended,
        call_ensures(Next::<E, W>::accept, (later, event), unwoken),
        *old(asked) == *final(later),
        call_ensures(Next::<E, W>::poll, (asked, waker), polled),
    ensures
        unwoken is None,
        polled == Polled::<E, W>::Ready(None),
        kept == old(given_up).state(),
{
}

/// A wait that begins has no event and no task to wake.
pub proof fn law_new_wait<E, W>(
    next: Next<E, W>,
    wants: bool,
    told: &mut Next<E, W>,
    event: E,
    woken: Option<W>,
    asked: &mut Next<E, W>,
    waker: W,
    polled: Polled<E, W>,
)
    requires
        call_ensures(Next::<E, W>::new, (), next),
        call_ensures(Next::<E, W>::wants_waker, (&next,), wants),
        *old(told) == next,
        call_ensures(Next::<E, W>::accept, (told, event), woken),
        *old(asked) == next,
        call_ensures(Next::<E, W>::poll, (asked, Some(waker)), polled),
    ensures
        wants,
        woken is None,
        polled == Polled::<E, W>::Pending(None),
{
}

} // verus!
