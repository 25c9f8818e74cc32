//! The registry for a single thread. Listeners, policies and destructors get hold of it
//! while it is at work, and may do to it whatever they like.
use crate::course::{
    arrived, broadcast_course, buried_upto, cancel_course, close_course, lemma_broadcast_course,
    lemma_course_extends, lemma_serve, removed_by, stands, sweeps, unwinds, unwinds_at, winds_up,
    winds_up_at, Turn,
};
use crate::event::EventFamily;
use crate::history::{
    is_next, later, lemma_prefix, lemma_push, lemma_remove, run, valid, Entry, Model,
};
use crate::load::load;
use crate::order::{Order, LIFO};
use crate::pointer::ListenerPtr;
use crate::roster::{Cancel, Roster, Sweep};
use crate::rounds::{
    concluded, ended_at, lemma_monotone, lemma_received_in_turn, orderly, received_in_turn,
    since_round,
};
use crate::state::max_visits;
use crate::sweeping::{
    carries, goes_on, lemma_concluded, lemma_sweeping_begin, lemma_sweeping_deliver,
    lemma_sweeping_end, lemma_sweeping_others, lemma_sweeping_return, lemma_unwind, lemma_wind_up,
    nodes_of, stacked, sweeping, unwound, wound_up, Progress,
};
use std::rc::Rc;
use vstd::prelude::*;

verus! {

/// A registry of listeners of type `L` for the events of `T`, served in the order `O`, with
/// a policy that is told when the registry becomes empty.
pub struct Registry<T: EventFamily, L, P, O: Order> {
    roster: Roster<T::Content, Rc<L>, O>,
    pub policy: P,
}

/// The right to cancel one listener; a listener is registered as long as its guard is kept.
#[must_use]
pub struct Guard {
    id: u64,
}

/// A call that a registry made, of a listener, a destructor or the policy: the registry when
/// it was made, and the registry as the call left it. The log of the first ends with the
/// entry that stands for the call.
pub struct Visit<R> {
    pub first: R,
    pub last: R,
}

/// How a registry behaves.
pub trait Policy<T: EventFamily, L>: Sized {
    /// The order in which listeners are served.
    type Order: Order;

    /// What being told comes to, as far as this policy says.
    open spec fn told(
        before: Registry<T, L, Self, Self::Order>,
        after: Registry<T, L, Self, Self::Order>,
    ) -> bool {
        true
    }

    /// Called when the last listener is cancelled, so that the registry just became empty.
    /// The registry may be dropped here.
    fn last_listener_cancelled(registry: &mut Registry<T, L, Self, Self::Order>)
        requires
            old(registry).wf(),
            old(registry).model().open,
            old(registry).model().order.len() == 0,
            old(registry).depth() == 0,
            old(registry).telling(),
        ensures
            final(registry).resumed(*old(registry)),
            Self::told(*old(registry), *final(registry)),
    ;
}

impl<T: EventFamily, L> Policy<T, L> for () {
    type Order = LIFO;

    /// Nothing is done to the registry.
    open spec fn told(
        before: Registry<T, L, Self, Self::Order>,
        after: Registry<T, L, Self, Self::Order>,
    ) -> bool {
        after == before
    }

    fn last_listener_cancelled(registry: &mut Registry<T, L, Self, Self::Order>) {
        proof {
            registry.lemma_resumed_reflexive();
        }
    }
}

/// A listener to the events of `T`, in a registry with policy `P`.
///
/// Both functions get the registry itself, and may register, broadcast to and cancel any
/// listener, including this one. All operations of a registry leave it resumable, and so
/// does any sequence of them. A listener may be called by anyone who has it; its destructor
/// is run by the registry alone, once.
pub trait Listener<T: EventFamily, P: Policy<T, Self>>: Sized {
    /// What receiving an event comes to, as far as this listener says.
    open spec fn accepted(
        &self,
        content: T::Content,
        before: Registry<T, Self, P, P::Order>,
        after: Registry<T, Self, P, P::Order>,
    ) -> bool {
        true
    }

    /// What being destructed comes to, as far as this listener says.
    open spec fn destructed(
        &self,
        before: Registry<T, Self, P, P::Order>,
        after: Registry<T, Self, P, P::Order>,
    ) -> bool {
        true
    }

    /// Receives an event.
    fn accept<'a>(&self, event: T::Event<'a>, registry: &mut Registry<T, Self, P, P::Order>)
        requires
            old(registry).wf(),
            old(registry).model().open,
        ensures
            final(registry).resumed(*old(registry)),
            self.accepted(T::content(event), *old(registry), *final(registry)),
    ;

    /// Destructs the listener, after it was cancelled or its registry dropped.
    fn destruct(listener: Rc<Self>, registry: &mut Registry<T, Self, P, P::Order>)
        requires
            old(registry).wf(),
            old(registry).destructing(listener),
        ensures
            final(registry).resumed(*old(registry)),
            listener.destructed(*old(registry), *final(registry)),
    ;
}

impl Guard {
    /// The node of the listener.
    pub closed spec fn id(&self) -> u64 {
        self.id
    }
}

impl<T: EventFamily, L, P, O: Order> Registry<T, L, P, O> {
    /// All that happened to this registry.
    pub closed spec fn log(&self) -> Seq<Entry<T::Content, Rc<L>>> {
        self.roster.log()
    }

    /// What that makes of it.
    pub open spec fn model(&self) -> Model<Rc<L>> {
        run(O::is_fifo(), self.log())
    }

    /// How many calls of listeners are in progress.
    pub closed spec fn depth(&self) -> nat {
        self.roster.depth()
    }

    /// The policy.
    pub closed spec fn policy(&self) -> P {
        self.policy
    }

    /// The data agrees with the log, and the log is one that can come about.
    pub closed spec fn wf(&self) -> bool {
        self.roster.wf() && !self.model().sealed
    }

    /// What whoever gets hold of a registry for a while may make of it: more may have
    /// happened to it, but every call and every destructor that they started has ended,
    /// those of others have not, and the registry is dropped only if no one is at work
    /// on it.
    pub open spec fn resumed(self, before: Self) -> bool {
        self.proceeded(before, before.model().pending)
    }

    /// The same, but with other listeners waiting for their destructors.
    pub open spec fn proceeded(self, before: Self, pending: Map<u64, Rc<L>>) -> bool {
        &&& self.wf()
        &&& before.log().is_prefix_of(self.log())
        &&& forall|i: int|
            before.log().len() <= i < self.log().len() ==> since_round(
                #[trigger] self.log()[i],
                before.model().rounds,
            )
        &&& forall|id: u64| #[trigger] self.model().visits(id) == before.model().visits(id)
        &&& self.model().calling == before.model().calling
        &&& self.model().pending == pending
        &&& self.depth() == before.depth()
        &&& self.model().open ==> before.model().open
        &&& before.depth() > 0 ==> self.model().open == before.model().open
        &&& !before.model().open ==> self.model().order == before.model().order
    }

    /// Whether the destructor of the listener is what happens now.
    pub open spec fn destructing(self, listener: Rc<L>) -> bool {
        &&& self.log().len() > 0
        &&& self.log().last() matches Entry::Destructed(id) && {
            let was = run(O::is_fifo(), self.log().drop_last());
            was.pending.contains_key(id) && was.pending[id] == listener
        }
    }

    /// Whether the policy being told is what happens now.
    pub open spec fn telling(self) -> bool {
        self.log().len() > 0 && self.log().last() is Notified
    }

    /// The logs before and after each call.
    pub open spec fn turns(calls: Seq<Visit<Self>>) -> Seq<Turn<T::Content, Rc<L>>> {
        Seq::new(
            calls.len(),
            |i: int| Turn { first: calls[i].first.log(), last: calls[i].last.log() },
        )
    }

    /// The policy after these calls.
    pub open spec fn policy_after(self, calls: Seq<Visit<Self>>) -> P {
        if calls.len() == 0 {
            self.policy()
        } else {
            calls.last().last.policy()
        }
    }

    /// What follows from being well formed.
    pub proof fn lemma_wf(&self)
        requires
            self.wf(),
        ensures
            valid(O::is_fifo(), self.log()),
            self.model().inv(O::is_fifo()),
            self.model().next_id <= u64::MAX,
            !self.model().sealed,
            self.model().open ==> forall|id: u64| #[trigger]
                self.model().visits(id) <= self.depth(),
            self.model().open ==> self.depth() == load(self.model().order, self.model().slots),
            !self.model().open ==> self.depth() == 0,
            self.depth() <= max_visits(),
    {
        self.roster.lemma_wf();
    }

    proof fn lemma_distinct(&self)
        requires
            self.wf(),
        ensures
            self.model().order.no_duplicates(),
    {
        self.roster.lemma_wf();
    }

    /// Doing nothing leaves a registry resumable.
    pub proof fn lemma_resumed_reflexive(&self)
        requires
            self.wf(),
        ensures
            self.resumed(*self),
    {
    }

    /// Doing one thing after another leaves a registry resumable.
    pub proof fn lemma_resumed_transitive(first: Self, second: Self, third: Self)
        requires
            second.resumed(first),
            third.resumed(second),
        ensures
            third.resumed(first),
    {
        Self::lemma_proceeded(
            first,
            second,
            third,
            second.model().pending,
            third.model().pending,
        );
    }

    proof fn lemma_proceeded(
        first: Self,
        second: Self,
        third: Self,
        p: Map<u64, Rc<L>>,
        q: Map<u64, Rc<L>>,
    )
        requires
            second.proceeded(first, p),
            third.proceeded(second, q),
        ensures
            third.proceeded(first, q),
    {
        second.lemma_wf();
        lemma_monotone(O::is_fifo(), second.log(), first.log().len() as int);
        assert(second.log().take(first.log().len() as int) =~= first.log());
        assert forall|i: int| first.log().len() <= i < third.log().len() implies since_round(
            #[trigger] third.log()[i],
            first.model().rounds,
        ) by {
            if i < second.log().len() {
                assert(third.log()[i] == second.log()[i]);
            }
        }
        assert forall|id: u64| #[trigger] third.model().visits(id) == first.model().visits(id) by {
            assert(second.model().visits(id) == first.model().visits(id));
        }
    }

    proof fn lemma_entry(before: Self, after: Self, entry: Entry<T::Content, Rc<L>>)
        requires
            before.wf(),
            after.wf(),
            after.log() == before.log().push(entry),
            after.depth() == before.depth(),
            entry is Registered || entry is Cancelled || entry is Notified || entry is Destructed,
        ensures
            after.proceeded(before, after.model().pending),
            after.model() == before.model().apply(O::is_fifo(), entry),
    {
        before.lemma_wf();
        after.lemma_wf();
        lemma_prefix(O::is_fifo(), after.log(), before.log().len() as int);
        assert(after.log().take(before.log().len() as int) =~= before.log());
        lemma_push(O::is_fifo(), before.log(), entry);
        assert(after.log()[before.log().len() as int] == entry);
        assert forall|id: u64| #[trigger] after.model().visits(id) == before.model().visits(id) by {
        }
    }

    /// An empty registry.
    pub fn new(policy: P) -> (registry: Self)
        ensures
            registry.wf(),
            registry.log() == Seq::<Entry<T::Content, Rc<L>>>::empty(),
            registry.depth() == 0,
            registry.policy() == policy,
    {
        Registry { roster: Roster::new(), policy }
    }

    /// Whether no listener is in the list.
    pub fn is_empty(&self) -> (empty: bool)
        requires
            self.wf(),
        ensures
            empty == (self.model().order.len() == 0),
    {
        self.roster.is_empty()
    }

    /// Whether the registry is not being, and was not, dropped.
    pub fn is_open(&self) -> (open: bool)
        requires
            self.wf(),
        ensures
            open == self.model().open,
    {
        self.roster.is_open()
    }

    /// How many listeners were ever registered.
    pub fn registered(&self) -> (count: u64)
        requires
            self.wf(),
        ensures
            count == self.model().next_id,
    {
        self.roster.registered()
    }

    /// How many calls of listeners are in progress.
    pub fn calls_in_progress(&self) -> (calls: usize)
        ensures
            calls == self.depth(),
    {
        self.roster.calls_in_progress()
    }

    /// Whether the guard of a listener with this guard's number is there. Of a guard of
    /// this registry that was not dropped it always is; guards of other registries carry
    /// numbers of their own.
    pub fn holds(&self, guard: &Guard) -> (held: bool)
        requires
            self.wf(),
        ensures
            held == self.model().held(guard.id()),
    {
        self.roster.holds(guard.id)
    }

    /// The listener to which a guard of this registry points, unless it was taken out to be
    /// destructed.
    pub fn listener_at(&self, ptr: ListenerPtr) -> (listener: Option<Rc<L>>)
        requires
            self.wf(),
        ensures
            listener is Some <==> self.model().listeners.contains_key(ptr.node()),
            listener matches Some(l) ==> l == self.model().listeners[ptr.node()],
    {
        match self.roster.listener(ptr.target()) {
            Some(listener) => Some(listener.clone()),
            None => None,
        }
    }

    /// The policy, to be read.
    pub fn policy_ref(&self) -> (policy: &P)
        ensures
            *policy == self.policy(),
    {
        &self.policy
    }

    /// Puts another policy in the place of the one there was, which is returned.
    pub fn replace_policy(&mut self, policy: P) -> (was: P)
        requires
            old(self).wf(),
        ensures
            was == old(self).policy(),
            final(self).policy() == policy,
            final(self).log() == old(self).log(),
            final(self).resumed(*old(self)),
    {
        let mut other = policy;
        std::mem::swap(&mut self.policy, &mut other);
        other
    }

    /// Registers a listener; it stays registered until its guard is dropped.
    pub fn register(&mut self, listener: L) -> (guard: Guard)
        requires
            old(self).wf(),
            old(self).model().open,
            old(self).model().next_id < u64::MAX,
        ensures
            final(self).resumed(*old(self)),
            final(self).log().len() == old(self).log().len() + 1,
            final(self).log().last() matches Entry::Registered { id, listener: handle } && id
                == guard.id() && *handle == listener,
            guard.id() == old(self).model().next_id,
            final(self).model() == old(self).model().apply(O::is_fifo(), final(self).log().last()),
            final(self).policy() == old(self).policy(),
    {
        let handle = Rc::new(listener);
        let id = self.roster.register(handle);
        proof {
            Self::lemma_entry(*old(self), *self, Entry::Registered { id, listener: handle });
        }
        Guard { id }
    }
}

impl<T: EventFamily, L, P: Default, O: Order> Default for Registry<T, L, P, O> {
    fn default() -> (registry: Self)
        ensures
            registry.wf(),
            registry.log() == Seq::<Entry<T::Content, Rc<L>>>::empty(),
            registry.depth() == 0,
            call_ensures(P::default, (), registry.policy()),
    {
        Registry::new(P::default())
    }
}

impl Guard {
    /// The pointer to the listener. It may be already destructed if
    /// [`is_alive`](Self::is_alive) says so, but the pointer stays valid:
    /// [`listener_at`](Registry::listener_at) tells what lies there.
    pub fn as_ptr(&self) -> (ptr: ListenerPtr)
        ensures
            ptr.node() == self.id(),
    {
        ListenerPtr::new(self.id)
    }

    /// Whether the listener has not been, and is not about to be, destructed.
    pub fn is_alive<T: EventFamily, L, P, O: Order>(
        &self,
        registry: &Registry<T, L, P, O>,
    ) -> (alive: bool)
        requires
            registry.wf(),
        ensures
            alive == registry.model().alive(self.id()),
    {
        registry.roster.is_alive(self.id)
    }

    /// Drops the guard. A listener that is being called is removed once it is not. One
    /// that is not is removed here: if it was the last one the policy is told, and then
    /// the listener is destructed. If the registry was dropped, nothing more happens.
    pub fn cancel<T: EventFamily, L: Listener<T, P>, P: Policy<T, L>>(
        self,
        registry: &mut Registry<T, L, P, P::Order>,
    )
        requires
            old(registry).wf(),
            old(registry).model().held(self.id()),
        ensures
            final(registry).resumed(*old(registry)),
            exists|calls: Seq<Visit<Registry<T, L, P, P::Order>>>| #[trigger]
                final(registry).cancelled(*old(registry), self.id(), calls),
    {
        let ghost fifo = P::Order::is_fifo();
        let ghost start = *registry;
        let ghost was = registry.model();
        let ghost mut calls: Seq<Visit<Registry<T, L, P, P::Order>>> = Seq::empty();
        let id = self.id;
        proof {
            registry.lemma_wf();
            if was.order.contains(id) {
                lemma_remove(fifo, was, id);
            }
        }
        let outcome = registry.roster.cancel(id);
        let ghost first = *registry;
        proof {
            Registry::lemma_entry(start, first, Entry::Cancelled(id));
            assert(Registry::<T, L, P, P::Order>::turns(calls) =~= Seq::empty());
        }
        match outcome {
            Cancel::Removed { listener, emptied } => {
                assert(first.model().pending.remove(id) =~= was.pending);
                if emptied {
                    let Ghost(call) = registry.notify();
                    proof {
                        Registry::<T, L, P, P::Order>::lemma_called(start, calls, call);
                        calls = calls.push(call);
                    }
                }
                let ghost second = *registry;
                proof {
                    Registry::lemma_proceeded(
                        start,
                        first,
                        second,
                        first.model().pending,
                        first.model().pending,
                    );
                }
                let Ghost(call) = registry.destruct(id, listener);
                proof {
                    Registry::<T, L, P, P::Order>::lemma_called(start, calls, call);
                    calls = calls.push(call);
                    Registry::lemma_proceeded(
                        start,
                        second,
                        *registry,
                        first.model().pending,
                        was.pending,
                    );
                    assert(registry.cancelled(start, id, calls));
                }
            },
            _ => {
                assert(registry.cancelled(start, id, calls));
            },
        }
    }
}

impl<T: EventFamily, L: Listener<T, P>, P: Policy<T, L>> Registry<T, L, P, P::Order> {
    /// Whether the call was made, of whom the entry that stands for it says, and came back.
    pub open spec fn answered(call: Visit<Self>) -> bool {
        let log = call.first.log();
        &&& log.len() > 0
        &&& call.last.resumed(call.first)
        &&& match log.last() {
            Entry::Delivered { round, id, content } => call.first.model().listeners[id].accepted(
                content,
                call.first,
                call.last,
            ),
            Entry::Destructed(id) => run(
                P::Order::is_fifo(),
                log.drop_last(),
            ).pending[id].destructed(call.first, call.last),
            Entry::Notified => P::told(call.first, call.last),
            _ => false,
        }
    }

    /// Whether the calls were made, one after another, and nothing but they changed the
    /// policy.
    pub open spec fn answered_all(start: Self, calls: Seq<Visit<Self>>) -> bool {
        forall|i: int| 0 <= i < calls.len() ==> #[trigger] Self::answered_at(start, calls, i)
    }

    /// Whether call `i` was made, with the policy that the call before it had left.
    pub open spec fn answered_at(start: Self, calls: Seq<Visit<Self>>, i: int) -> bool {
        &&& Self::answered(calls[i])
        &&& calls[i].first.policy() == if i == 0 {
            start.policy()
        } else {
            calls[i - 1].last.policy()
        }
    }

    /// Whether a registry is what these calls, and nothing else after them but what its log
    /// says, left of it.
    pub open spec fn left_by(self, start: Self, calls: Seq<Visit<Self>>) -> bool {
        &&& Self::answered_all(start, calls)
        &&& self.policy() == start.policy_after(calls)
        &&& calls.len() > 0 && self.log() == calls.last().last.log() ==> self
            == calls.last().last
    }

    /// What dropping the guard of the node does: exactly this, with these calls.
    pub open spec fn cancelled(self, before: Self, id: u64, calls: Seq<Visit<Self>>) -> bool {
        &&& self.left_by(before, calls)
        &&& cancel_course(
            P::Order::is_fifo(),
            before.log(),
            id,
            Self::turns(calls),
            self.log(),
        )
    }

    /// What a broadcast does: exactly this, with these calls, of which the first `n` are
    /// those of listeners.
    pub open spec fn broadcasted(self, before: Self, calls: Seq<Visit<Self>>, n: int) -> bool {
        &&& self.left_by(before, calls)
        &&& broadcast_course(
            P::Order::is_fifo(),
            before.log(),
            Self::turns(calls),
            n,
            self.log(),
        )
    }

    /// What dropping the registry does: exactly this, with these calls.
    pub open spec fn closed(self, before: Self, calls: Seq<Visit<Self>>) -> bool {
        &&& self.left_by(before, calls)
        &&& close_course(P::Order::is_fifo(), before.log(), Self::turns(calls), self.log())
    }

    /// One more call.
    proof fn lemma_called(start: Self, calls: Seq<Visit<Self>>, call: Visit<Self>)
        requires
            Self::answered_all(start, calls),
            Self::answered(call),
            call.first.policy() == start.policy_after(calls),
        ensures
            Self::answered_all(start, calls.push(call)),
            start.policy_after(calls.push(call)) == call.last.policy(),
            Self::turns(calls.push(call)) == Self::turns(calls).push(
                Turn { first: call.first.log(), last: call.last.log() },
            ),
    {
        let more = calls.push(call);
        assert(Self::turns(more) =~= Self::turns(calls).push(
            Turn { first: call.first.log(), last: call.last.log() },
        ));
        assert forall|i: int| 0 <= i < more.len() implies #[trigger] Self::answered_at(
            start,
            more,
            i,
        ) by {
            if i < calls.len() {
                assert(Self::answered_at(start, calls, i));
                assert(more[i] == calls[i]);
            }
            if i > 0 {
                assert(more[i - 1] == calls[i - 1]);
            }
        }
    }

    /// Calls after calls.
    proof fn lemma_called_on(
        start: Self,
        calls: Seq<Visit<Self>>,
        next: Self,
        more: Seq<Visit<Self>>,
    )
        requires
            Self::answered_all(start, calls),
            Self::answered_all(next, more),
            next.policy() == start.policy_after(calls),
        ensures
            Self::answered_all(start, calls + more),
            start.policy_after(calls + more) == next.policy_after(more),
            Self::turns(calls + more) == Self::turns(calls) + Self::turns(more),
        decreases more.len(),
    {
        if more.len() == 0 {
            assert(calls + more =~= calls);
            assert(Self::turns(calls + more) =~= Self::turns(calls) + Self::turns(more));
        } else {
            let rest = more.drop_last();
            let call = more.last();
            assert forall|i: int| 0 <= i < rest.len() implies #[trigger] Self::answered_at(
                next,
                rest,
                i,
            ) by {
                assert(Self::answered_at(next, more, i));
                assert(rest[i] == more[i]);
                if i > 0 {
                    assert(rest[i - 1] == more[i - 1]);
                }
            }
            assert(Self::answered_at(next, more, more.len() - 1));
            Self::lemma_called_on(start, calls, next, rest);
            assert(rest.push(call) =~= more);
            assert((calls + rest).push(call) =~= calls + more);
            if rest.len() > 0 {
                assert(more[more.len() - 2] == rest.last());
            }
            Self::lemma_called(start, calls + rest, call);
            Self::lemma_called(next, rest, call);
            assert(Self::turns(calls + more) =~= Self::turns(calls) + Self::turns(more));
        }
    }

    /// Tells the policy that the registry became empty.
    fn notify(&mut self) -> (call: Ghost<Visit<Self>>)
        requires
            old(self).wf(),
            old(self).model().open,
            old(self).model().order.len() == 0,
        ensures
            final(self).resumed(*old(self)),
            Self::answered(call@),
            call@.first.log() == old(self).log().push(Entry::Notified),
            call@.first.policy() == old(self).policy(),
            call@.last == *final(self),
    {
        self.roster.notifying();
        let ghost first = *self;
        proof {
            Self::lemma_entry(*old(self), first, Entry::Notified);
            first.roster.lemma_idle();
        }
        P::last_listener_cancelled(self);
        proof {
            Self::lemma_resumed_transitive(*old(self), first, *self);
        }
        Ghost(Visit { first, last: *self })
    }

    /// Runs the destructor of a listener that waits for it.
    fn destruct(&mut self, id: u64, listener: Rc<L>) -> (call: Ghost<Visit<Self>>)
        requires
            old(self).wf(),
            old(self).model().pending.contains_key(id),
            old(self).model().pending[id] == listener,
        ensures
            final(self).proceeded(*old(self), old(self).model().pending.remove(id)),
            Self::answered(call@),
            call@.first.log() == old(self).log().push(Entry::Destructed(id)),
            call@.first.policy() == old(self).policy(),
            call@.last == *final(self),
    {
        self.roster.destructing(id);
        let ghost first = *self;
        proof {
            Self::lemma_entry(*old(self), first, Entry::Destructed(id));
            assert(first.log().drop_last() =~= old(self).log());
        }
        L::destruct(listener, self);
        proof {
            Self::lemma_proceeded(
                *old(self),
                first,
                *self,
                first.model().pending,
                first.model().pending,
            );
        }
        Ghost(Visit { first, last: *self })
    }

    /// A broadcast that found the registry as `start` is in progress.
    #[verifier::opaque]
    spec fn sweeping(
        self,
        start: Self,
        sweep: Sweep<Rc<L>>,
        says: spec_fn(T::Content) -> bool,
    ) -> bool {
        &&& self.wf()
        &&& start.wf()
        &&& start.depth() < max_visits()
        &&& self.depth() == start.depth() + (if sweep.calling() { 1int } else { 0 })
        &&& sweep.round() == start.model().rounds
        &&& sweep.bound() == start.model().next_id
        &&& sweeping(P::Order::is_fifo(), start.log(), self.log(), progress(sweep), says)
    }

    /// The calls that a broadcast has made; the last of them has just come back.
    #[verifier::opaque]
    spec fn came_back(self, start: Self, sweep: Sweep<Rc<L>>, calls: Seq<Visit<Self>>) -> bool {
        let fifo = P::Order::is_fifo();
        let round = start.model().rounds;
        let turns = Self::turns(calls);
        let n = calls.len() as int;
        &&& Self::answered_all(start, calls)
        &&& self.policy() == start.policy_after(calls)
        &&& sweeps(fifo, start.log(), round, turns, n)
        &&& sweep.at() == stands(turns, n)
        &&& sweep.calling() <==> n > 0
        &&& nodes_of(sweep.dropped()) == removed_by(fifo, turns, n - 1)
        &&& self.log() == if n == 0 {
            arrived(start.log(), round, turns, 0)
        } else {
            calls.last().last.log()
        }
    }

    /// The calls that a broadcast has made; it has found whom to call next.
    #[verifier::opaque]
    spec fn found(
        self,
        start: Self,
        sweep: Sweep<Rc<L>>,
        calls: Seq<Visit<Self>>,
        next: Option<u64>,
    ) -> bool {
        let fifo = P::Order::is_fifo();
        let round = start.model().rounds;
        let turns = Self::turns(calls);
        let n = calls.len() as int;
        let log = arrived(start.log(), round, turns, n);
        &&& Self::answered_all(start, calls)
        &&& self.policy() == start.policy_after(calls)
        &&& sweeps(fifo, start.log(), round, turns, n)
        &&& sweep.at() == stands(turns, n)
        &&& nodes_of(sweep.dropped()) == removed_by(fifo, turns, n)
        &&& is_next(fifo, run(fifo, log), stands(turns, n), next)
        &&& self.log() == if next is Some {
            log
        } else {
            log.push(Entry::Swept(round))
        }
    }

    proof fn lemma_found(
        start: Self,
        earlier: Self,
        last: Self,
        began: Sweep<Rc<L>>,
        sweep: Sweep<Rc<L>>,
        calls: Seq<Visit<Self>>,
        next: Option<u64>,
    )
        requires
            earlier.came_back(start, began, calls),
            began.round() == start.model().rounds,
            last.policy() == earlier.policy(),
            sweep.at() == began.at(),
            sweep.dropped() == (if began.calling() && earlier.model().leaves(began.at()->0) {
                began.dropped().push((began.at()->0, earlier.model().listeners[began.at()->0]))
            } else {
                began.dropped()
            }),
            ({
                let back = Roster::<T::Content, Rc<L>, P::Order>::called(earlier.log(), began);
                &&& is_next(P::Order::is_fifo(), run(P::Order::is_fifo(), back), began.at(), next)
                &&& last.log() == if next is Some {
                    back
                } else {
                    back.push(Entry::Swept(start.model().rounds))
                }
            }),
        ensures
            last.found(start, sweep, calls, next),
    {
        reveal(Registry::came_back);
        reveal(Registry::found);
        let turns = Self::turns(calls);
        let n = calls.len() as int;
        if n > 0 {
            assert(turns[n - 1].last == earlier.log());
            assert(began.at()->0 == turns[n - 1].target());
            if earlier.model().leaves(began.at()->0) {
                assert(nodes_of(sweep.dropped()) =~= nodes_of(began.dropped()).push(
                    began.at()->0,
                ));
            }
        }
    }

    proof fn lemma_came_back(
        start: Self,
        earlier: Self,
        began: Sweep<Rc<L>>,
        sweep: Sweep<Rc<L>>,
        calls: Seq<Visit<Self>>,
        id: u64,
        content: T::Content,
        call: Visit<Self>,
    )
        requires
            earlier.found(start, began, calls, Some(id)),
            Self::answered(call),
            call.first.log() == earlier.log().push(
                Entry::Delivered { round: start.model().rounds, id, content },
            ),
            call.first.policy() == earlier.policy(),
            sweep.at() == Some(id),
            sweep.calling(),
            sweep.dropped() == began.dropped(),
        ensures
            call.last.came_back(start, sweep, calls.push(call)),
    {
        reveal(Registry::came_back);
        reveal(Registry::found);
        let fifo = P::Order::is_fifo();
        let round = start.model().rounds;
        let turns = Self::turns(calls);
        let turn = Turn { first: call.first.log(), last: call.last.log() };
        let n = calls.len() as int;
        Self::lemma_called(start, calls, call);
        assert(turn.first.last() == Entry::<T::Content, Rc<L>>::Delivered { round, id, content });
        lemma_serve(fifo, start.log(), round, turns, turn);
        lemma_course_extends(fifo, start.log(), round, turns, turns.push(turn), n);
    }

    /// Ends the call in progress and finds the next listener to call.
    fn next_target(
        &mut self,
        sweep: &mut Sweep<Rc<L>>,
        Ghost(start): Ghost<Self>,
        Ghost(says): Ghost<spec_fn(T::Content) -> bool>,
        Ghost(calls): Ghost<Seq<Visit<Self>>>,
    ) -> (next: Option<u64>)
        requires
            old(self).sweeping(start, *old(sweep), says),
            old(self).came_back(start, *old(sweep), calls),
            old(sweep).at() is Some <==> old(sweep).calling(),
        ensures
            final(self).sweeping(start, *final(sweep), says),
            final(self).found(start, *final(sweep), calls, next),
            final(sweep).at() == old(sweep).at(),
            !final(sweep).calling(),
            is_next(P::Order::is_fifo(), final(self).model(), final(sweep).at(), next),
            next is None ==> ended_at(
                P::Order::is_fifo(),
                final(self).log(),
                start.model().rounds,
                start.model().next_id,
                final(self).log().len() - 1,
            ),
    {
        let ghost fifo = P::Order::is_fifo();
        let ghost earlier = *self;
        let ghost began = *sweep;
        let ghost log = self.log();
        let ghost far = progress(*sweep);
        let ghost back = Roster::<T::Content, Rc<L>, P::Order>::called(log, *sweep);
        proof {
            reveal(Registry::sweeping);
            if sweep.calling() {
                assert(self.model().visits(sweep.at()->0) > 0);
                lemma_sweeping_return(fifo, start.log(), log, far, says);
            }
        }
        let next = self.roster.advance(sweep);
        proof {
            assert(progress(*sweep).dropped == sweep.dropped());
            assert(sweeping(fifo, start.log(), back, progress(*sweep), says));
            if next is None {
                let round = start.model().rounds;
                lemma_push(fifo, back, Entry::Swept(round));
                assert(run(fifo, back) == self.model());
                assert forall|x: u64| #[trigger] run(fifo, back).held(x) implies far.at is Some
                    && !later(fifo, far.at->0 as int, x as int) by {
                    assert(self.roster.model().held(x));
                }
                lemma_sweeping_end(fifo, start.log(), back, progress(*sweep), says);
            }
            assert(run(fifo, back) == self.model());
            Self::lemma_found(start, earlier, *self, began, *sweep, calls, next);
        }
        next
    }

    /// Calls the listener of a node.
    fn deliver<'a>(
        &mut self,
        sweep: &mut Sweep<Rc<L>>,
        id: u64,
        event: T::Event<'a>,
        Ghost(start): Ghost<Self>,
        Ghost(says): Ghost<spec_fn(T::Content) -> bool>,
        Ghost(calls): Ghost<Seq<Visit<Self>>>,
    ) -> (call: Ghost<Visit<Self>>)
        requires
            old(self).sweeping(start, *old(sweep), says),
            old(self).found(start, *old(sweep), calls, Some(id)),
            !old(sweep).calling(),
            says(T::content(event)),
            is_next(P::Order::is_fifo(), old(self).model(), old(sweep).at(), Some(id)),
        ensures
            final(self).sweeping(start, *final(sweep), says),
            final(self).came_back(start, *final(sweep), calls.push(call@)),
            final(sweep).calling(),
            final(sweep).at() == Some(id),
    {
        let ghost fifo = P::Order::is_fifo();
        let ghost earlier = *self;
        let ghost began = *sweep;
        let ghost log = self.log();
        let ghost far = progress(*sweep);
        proof {
            reveal(Registry::sweeping);
            lemma_sweeping_deliver(fifo, start.log(), log, far, says, id, T::content(event));
        }
        self.roster.enter(sweep, id, Ghost(T::content(event)));
        let ghost called = *self;
        proof {
            called.lemma_wf();
            lemma_push(
                fifo,
                log,
                Entry::Delivered { round: start.model().rounds, id, content: T::content(event) },
            );
            assert(progress(*sweep) == Progress { at: Some(id), calling: true, ..far });
            assert(called.model().visits(id) > 0);
        }
        let listener: Rc<L> = self.roster.listener(id).unwrap().clone();
        listener.accept(event, self);
        proof {
            self.lemma_wf();
            lemma_sweeping_others(
                fifo,
                start.log(),
                called.log(),
                self.log(),
                progress(*sweep),
                says,
            );
            Self::lemma_came_back(
                start,
                earlier,
                began,
                *sweep,
                calls,
                id,
                T::content(event),
                Visit { first: called, last: *self },
            );
        }
        Ghost(Visit { first: called, last: *self })
    }

    /// Calls every listener with the event, in order, and does nothing else but what the end
    /// of the calls asks for. A listener cancelled before its turn
    /// is passed over. One registered meanwhile is called too if it comes later in the
    /// list, which is so when the first in is the first out.
    ///
    /// A listener that was cancelled during a call is removed when no call of it is in
    /// progress any more, and destructed at the end.
    pub fn broadcast<'a>(&mut self, event: T::Event<'a>)
        requires
            old(self).wf(),
            old(self).model().open,
            old(self).depth() < max_visits(),
        ensures
            final(self).resumed(*old(self)),
            orderly(
                P::Order::is_fifo(),
                final(self).log(),
                old(self).model().rounds,
                old(self).model().next_id,
            ),
            exists|end: int|
                old(self).log().len() <= end && #[trigger] concluded(
                    P::Order::is_fifo(),
                    final(self).log(),
                    old(self).model().rounds,
                    old(self).model().next_id,
                    end,
                ),
            forall|id: u64|
                id < old(self).model().next_id ==> #[trigger] received_in_turn(
                    P::Order::is_fifo(),
                    final(self).log(),
                    old(self).model().rounds,
                    id,
                ),
            carries(
                final(self).log(),
                old(self).model().rounds,
                |content: T::Content| copy_of::<T>(event, content),
            ),
            exists|calls: Seq<Visit<Self>>, n: int| #[trigger]
                final(self).broadcasted(*old(self), calls, n),
    {
        let ghost fifo = P::Order::is_fifo();
        let ghost start = *self;
        let ghost says = |content: T::Content| copy_of::<T>(event, content);
        proof {
            start.lemma_wf();
            lemma_sweeping_begin(fifo, start.log(), says);
        }
        let mut sweep = self.roster.begin();
        assert(self.sweeping(start, sweep, says)) by {
            reveal(Registry::sweeping);
            assert(progress(sweep) == Progress {
                at: None,
                calling: false,
                dropped: Seq::<(u64, Rc<L>)>::empty(),
            });
        }
        let ghost mut calls: Seq<Visit<Self>> = Seq::empty();
        assert(self.came_back(start, sweep, calls)) by {
            reveal(Registry::came_back);
            assert(nodes_of(sweep.dropped()) =~= Seq::<u64>::empty());
        }
        loop
            invariant_except_break
                sweep.at() is Some <==> sweep.calling(),
                self.came_back(start, sweep, calls),
            invariant
                self.sweeping(start, sweep, says),
                says == |content: T::Content| copy_of::<T>(event, content),
                fifo == P::Order::is_fifo(),
            ensures
                self.sweeping(start, sweep, says),
                self.found(start, sweep, calls, None),
                !sweep.calling(),
                ended_at(
                    P::Order::is_fifo(),
                    self.log(),
                    start.model().rounds,
                    start.model().next_id,
                    self.log().len() - 1,
                ),
            decreases ahead(fifo, sweep.at()),
        {
            match self.next_target(&mut sweep, Ghost(start), Ghost(says), Ghost(calls)) {
                None => {
                    break;
                },
                Some(id) => {
                    let copy = event.clone();
                    assert(copy_of::<T>(event, T::content(copy)));
                    let Ghost(call) = self.deliver(
                        &mut sweep,
                        id,
                        copy,
                        Ghost(start),
                        Ghost(says),
                        Ghost(calls),
                    );
                    proof {
                        calls = calls.push(call);
                    }
                },
            }
        }
        let ghost end = self.log().len() - 1;
        self.conclude(sweep, Ghost(start), Ghost(says), Ghost(calls));
        proof {
            self.lemma_wf();
            lemma_received_in_turn(
                fifo,
                self.log(),
                start.model().rounds,
                start.model().next_id,
                end,
            );
        }
    }

    /// Ends a broadcast that called everyone.
    fn conclude(
        &mut self,
        sweep: Sweep<Rc<L>>,
        Ghost(start): Ghost<Self>,
        Ghost(says): Ghost<spec_fn(T::Content) -> bool>,
        Ghost(calls): Ghost<Seq<Visit<Self>>>,
    )
        requires
            old(self).sweeping(start, sweep, says),
            old(self).found(start, sweep, calls, None),
            !sweep.calling(),
            ended_at(
                P::Order::is_fifo(),
                old(self).log(),
                start.model().rounds,
                start.model().next_id,
                old(self).log().len() - 1,
            ),
        ensures
            final(self).resumed(start),
            orderly(
                P::Order::is_fifo(),
                final(self).log(),
                start.model().rounds,
                start.model().next_id,
            ),
            concluded(
                P::Order::is_fifo(),
                final(self).log(),
                start.model().rounds,
                start.model().next_id,
                old(self).log().len() - 1,
            ),
            carries(final(self).log(), start.model().rounds, says),
            exists|all: Seq<Visit<Self>>, n: int| #[trigger]
                final(self).broadcasted(start, all, n),
            old(self).log().len() > start.log().len(),
    {
        let ghost swept = *self;
        proof {
            Self::lemma_swept(start, swept, sweep, says);
            self.lemma_resumed_reflexive();
        }
        let ghost mut told: Seq<Visit<Self>> = Seq::empty();
        if sweep.has_dropped() && self.is_empty() {
            let Ghost(call) = self.notify();
            proof {
                told = told.push(call);
            }
        }
        let ghost hushed = *self;
        let Ghost(gone) = self.unwind(sweep, Ghost(start.model().pending));
        proof {
            Self::lemma_proceeded(
                swept,
                hushed,
                *self,
                hushed.model().pending,
                start.model().pending,
            );
            Self::lemma_notice(swept, hushed, *self, nodes_of(sweep.dropped()), told, gone);
            Self::lemma_conclude(start, swept, *self, sweep, says);
            Self::lemma_broadcasted(start, swept, hushed, *self, sweep, calls, told, gone);
        }
    }

    proof fn lemma_swept(
        start: Self,
        swept: Self,
        sweep: Sweep<Rc<L>>,
        says: spec_fn(T::Content) -> bool,
    )
        requires
            swept.sweeping(start, sweep, says),
        ensures
            swept.wf(),
            swept.model().open,
            stacked(swept.model().pending, start.model().pending, sweep.dropped()),
    {
        reveal(Registry::sweeping);
    }

    /// The entry after the sweep says whether the policy was told.
    proof fn lemma_notice(
        swept: Self,
        hushed: Self,
        last: Self,
        removed: Seq<u64>,
        told: Seq<Visit<Self>>,
        gone: Seq<Visit<Self>>,
    )
        requires
            told.len() == 0 ==> hushed == swept,
            told.len() > 0 ==> told[0].first.log() == swept.log().push(Entry::Notified)
                && told[0].last == hushed && told[0].last.resumed(told[0].first),
            last.proceeded(hushed, last.model().pending),
            hushed.unwound_by(last, removed, gone),
        ensures
            (last.log().len() > swept.log().len() && last.log()[swept.log().len() as int]
                == Entry::<T::Content, Rc<L>>::Notified) <==> told.len() > 0,
    {
        let k = swept.log().len() as int;
        if told.len() > 0 {
            assert(told[0].first.log()[k] == Entry::<T::Content, Rc<L>>::Notified);
            assert(hushed.log()[k] == told[0].first.log()[k]);
            assert(last.log()[k] == hushed.log()[k]);
        } else if gone.len() > 0 {
            let turns = Self::turns(gone);
            assert(unwinds_at(swept.log(), turns, 0, removed, 0));
            assert(turns[0].first[k] == Entry::<T::Content, Rc<L>>::Destructed(
                removed[removed.len() - 1],
            ));
            Self::lemma_lasts(hushed, gone);
            assert(turns[0].last[k] == turns[0].first[k]);
            assert(last.log()[k] == turns[0].last[k]);
        }
    }

    /// What the first of several destructors left is a prefix of what the last one left.
    proof fn lemma_lasts(first: Self, gone: Seq<Visit<Self>>)
        requires
            gone.len() > 0,
            exists|removed: Seq<u64>| #[trigger] unwinds(first.log(), Self::turns(gone), 0, removed),
        ensures
            gone[0].last.log().is_prefix_of(gone.last().last.log()),
        decreases gone.len(),
    {
        let removed = choose|removed: Seq<u64>| #[trigger]
            unwinds(first.log(), Self::turns(gone), 0, removed);
        if gone.len() > 1 {
            let rest = gone.drop_last();
            let turns = Self::turns(gone);
            let fewer = Self::turns(rest);
            assert forall|j: int| 0 <= j < fewer.len() implies #[trigger] unwinds_at(
                first.log(),
                fewer,
                0,
                removed,
                j,
            ) by {
                assert(unwinds_at(first.log(), turns, 0, removed, j));
                assert(fewer[j] == turns[j]);
                if j > 0 {
                    assert(fewer[j - 1] == turns[j - 1]);
                }
            }
            assert(unwinds(first.log(), fewer, 0, removed));
            Self::lemma_lasts(first, rest);
            let n = gone.len() - 1;
            assert(unwinds_at(first.log(), turns, 0, removed, n));
            assert(turns[n - 1].last == rest.last().last.log());
        }
    }

    /// The calls of a broadcast, together.
    proof fn lemma_all_calls(
        start: Self,
        swept: Self,
        hushed: Self,
        calls: Seq<Visit<Self>>,
        told: Seq<Visit<Self>>,
        gone: Seq<Visit<Self>>,
    )
        requires
            Self::answered_all(start, calls),
            swept.policy() == start.policy_after(calls),
            told.len() <= 1,
            told.len() == 0 ==> hushed == swept,
            told.len() == 1 ==> Self::answered(told[0]) && told[0].first.policy()
                == swept.policy() && told[0].last == hushed,
            Self::answered_all(hushed, gone),
        ensures
            Self::answered_all(start, calls + told + gone),
            start.policy_after(calls + told + gone) == hushed.policy_after(gone),
            Self::turns(calls + told + gone) == Self::turns(calls) + Self::turns(told)
                + Self::turns(gone),
    {
        if told.len() == 1 {
            Self::lemma_called(start, calls, told[0]);
            assert(calls + told =~= calls.push(told[0]));
        } else {
            assert(calls + told =~= calls);
        }
        assert(Self::turns(calls + told) =~= Self::turns(calls) + Self::turns(told));
        Self::lemma_called_on(start, calls + told, hushed, gone);
    }

    proof fn lemma_broadcasted(
        start: Self,
        swept: Self,
        hushed: Self,
        last: Self,
        sweep: Sweep<Rc<L>>,
        calls: Seq<Visit<Self>>,
        told: Seq<Visit<Self>>,
        gone: Seq<Visit<Self>>,
    )
        requires
            swept.found(start, sweep, calls, None),
            told.len() == if sweep.dropped().len() > 0 && swept.model().order.len() == 0 {
                1nat
            } else {
                0
            },
            told.len() == 0 ==> hushed == swept,
            told.len() == 1 ==> Self::answered(told[0]) && told[0].first.log() == swept.log().push(
                Entry::Notified,
            ) && told[0].first.policy() == swept.policy() && told[0].last == hushed,
            hushed.unwound_by(last, nodes_of(sweep.dropped()), gone),
            gone.len() == sweep.dropped().len(),
        ensures
            last.broadcasted(start, calls + told + gone, calls.len() as int),
    {
        let all = calls + told + gone;
        Self::lemma_course(start, swept, hushed, last, sweep, calls, told, gone);
        assert(Self::answered_all(start, calls) && swept.policy() == start.policy_after(calls)) by {
            reveal(Registry::found);
        }
        Self::lemma_all_calls(start, swept, hushed, calls, told, gone);
        if gone.len() > 0 {
            assert(all.last() == gone.last());
        } else {
            assert(all =~= calls);
            assert(calls.len() > 0 ==> last.log().len() == calls.last().last.log().len() + 2) by {
                reveal(Registry::found);
            }
        }
    }

    proof fn lemma_course(
        start: Self,
        swept: Self,
        hushed: Self,
        last: Self,
        sweep: Sweep<Rc<L>>,
        calls: Seq<Visit<Self>>,
        told: Seq<Visit<Self>>,
        gone: Seq<Visit<Self>>,
    )
        requires
            swept.found(start, sweep, calls, None),
            told.len() == if sweep.dropped().len() > 0 && swept.model().order.len() == 0 {
                1nat
            } else {
                0
            },
            told.len() == 0 ==> hushed == swept,
            told.len() == 1 ==> Self::answered(told[0]) && told[0].first.log() == swept.log().push(
                Entry::Notified,
            ) && told[0].last == hushed,
            unwinds(hushed.log(), Self::turns(gone), 0, nodes_of(sweep.dropped())),
            last == if gone.len() == 0 {
                hushed
            } else {
                gone.last().last
            },
            gone.len() == sweep.dropped().len(),
        ensures
            broadcast_course(
                P::Order::is_fifo(),
                start.log(),
                Self::turns(calls) + Self::turns(told) + Self::turns(gone),
                calls.len() as int,
                last.log(),
            ),
    {
        reveal(Registry::found);
        let fifo = P::Order::is_fifo();
        let round = start.model().rounds;
        let turns = Self::turns(calls);
        let log = arrived(start.log(), round, turns, calls.len() as int);
        lemma_push(fifo, log, Entry::Swept(round));
        assert(run(fifo, log) == swept.model());
        assert(told.len() == 1 ==> Self::turns(told)[0].follows(swept.log(), Entry::Notified));
        assert(nodes_of(sweep.dropped()) == removed_by(fifo, turns, calls.len() as int));
        lemma_broadcast_course(
            fifo,
            start.log(),
            turns,
            Self::turns(told),
            Self::turns(gone),
            last.log(),
        );
    }

    proof fn lemma_conclude(
        start: Self,
        swept: Self,
        last: Self,
        sweep: Sweep<Rc<L>>,
        says: spec_fn(T::Content) -> bool,
    )
        requires
            swept.sweeping(start, sweep, says),
            !sweep.calling(),
            ended_at(
                P::Order::is_fifo(),
                swept.log(),
                start.model().rounds,
                start.model().next_id,
                swept.log().len() - 1,
            ),
            last.proceeded(swept, start.model().pending),
            unwound(last.log(), nodes_of(sweep.dropped()), 0),
            (last.log().len() > swept.log().len() && last.log()[swept.log().len() as int]
                == Entry::<T::Content, Rc<L>>::Notified) <==> (sweep.dropped().len() > 0
                && swept.model().order.len() == 0),
        ensures
            last.resumed(start),
            orderly(
                P::Order::is_fifo(),
                last.log(),
                start.model().rounds,
                start.model().next_id,
            ),
            concluded(
                P::Order::is_fifo(),
                last.log(),
                start.model().rounds,
                start.model().next_id,
                swept.log().len() - 1,
            ),
            carries(last.log(), start.model().rounds, says),
            swept.log().len() > start.log().len(),
    {
        let fifo = P::Order::is_fifo();
        reveal(Registry::sweeping);
        last.lemma_wf();
        lemma_concluded(fifo, start.log(), swept.log(), last.log(), progress(sweep), says);
        Self::lemma_back(start, swept, last, sweep, says);
    }

    proof fn lemma_back(
        start: Self,
        swept: Self,
        last: Self,
        sweep: Sweep<Rc<L>>,
        says: spec_fn(T::Content) -> bool,
    )
        requires
            swept.sweeping(start, sweep, says),
            !sweep.calling(),
            last.proceeded(swept, start.model().pending),
        ensures
            last.resumed(start),
            swept.log().len() > start.log().len(),
    {
        reveal(Registry::sweeping);
        assert forall|id: u64| #[trigger] last.model().visits(id) == start.model().visits(id) by {
            assert(swept.model().visits(id) == start.model().visits(id));
        }
        assert(goes_on(P::Order::is_fifo(), start.log(), swept.log()));
        assert(swept.log().len() > start.log().len()) by {
            if swept.log().len() == start.log().len() {
                assert(swept.log() =~= start.log());
            }
        }
        assert forall|i: int| start.log().len() <= i < last.log().len() implies since_round(
            #[trigger] last.log()[i],
            start.model().rounds,
        ) by {
            if i < swept.log().len() {
                assert(last.log()[i] == swept.log()[i]);
            } else {
                assert(since_round(last.log()[i], swept.model().rounds));
            }
        }
    }

    /// What destructing the listeners of the removed nodes, the last one first, leaves.
    spec fn unwound_by(self, last: Self, removed: Seq<u64>, gone: Seq<Visit<Self>>) -> bool {
        &&& Self::answered_all(self, gone)
        &&& unwinds(self.log(), Self::turns(gone), 0, removed)
        &&& last == if gone.len() == 0 {
            self
        } else {
            gone.last().last
        }
    }

    /// Destructs the listeners that a broadcast removed, the last one first.
    fn unwind(&mut self, sweep: Sweep<Rc<L>>, Ghost(base): Ghost<Map<u64, Rc<L>>>) -> (gone: Ghost<
        Seq<Visit<Self>>,
    >)
        requires
            old(self).wf(),
            stacked(old(self).model().pending, base, sweep.dropped()),
        ensures
            final(self).proceeded(*old(self), base),
            unwound(final(self).log(), nodes_of(sweep.dropped()), 0),
            gone@.len() == sweep.dropped().len(),
            old(self).unwound_by(*final(self), nodes_of(sweep.dropped()), gone@),
    {
        let ghost first = *self;
        let ghost removed = nodes_of(sweep.dropped());
        let ghost mut gone: Seq<Visit<Self>> = Seq::empty();
        let mut sweep = sweep;
        proof {
            self.lemma_resumed_reflexive();
            assert(removed.take(removed.len() as int) =~= removed);
        }
        while sweep.has_dropped()
            invariant
                self.unwinding(first, removed, base, sweep, gone),
            decreases sweep.dropped().len(),
        {
            let ghost fuller = sweep;
            let ghost earlier = *self;
            if let Some((id, listener)) = sweep.take_dropped() {
                let Ghost(call) = self.destruct(id, listener);
                proof {
                    Self::lemma_unwinding(first, earlier, removed, base, fuller, sweep, gone, call);
                    gone = gone.push(call);
                }
            }
        }
        Ghost(gone)
    }

    /// The listeners that a broadcast removed are being destructed; those still on its stack
    /// are not yet.
    spec fn unwinding(
        self,
        first: Self,
        removed: Seq<u64>,
        base: Map<u64, Rc<L>>,
        sweep: Sweep<Rc<L>>,
        gone: Seq<Visit<Self>>,
    ) -> bool {
        let left = sweep.dropped().len() as int;
        &&& self.proceeded(first, self.model().pending)
        &&& stacked(self.model().pending, base, sweep.dropped())
        &&& unwound(self.log(), removed, left)
        &&& left == removed.len() - gone.len()
        &&& nodes_of(sweep.dropped()) == removed.take(left)
        &&& first.unwound_by(self, removed, gone)
    }

    proof fn lemma_unwinding(
        first: Self,
        earlier: Self,
        removed: Seq<u64>,
        base: Map<u64, Rc<L>>,
        fuller: Sweep<Rc<L>>,
        sweep: Sweep<Rc<L>>,
        gone: Seq<Visit<Self>>,
        call: Visit<Self>,
    )
        requires
            earlier.unwinding(first, removed, base, fuller, gone),
            fuller.dropped().len() > 0,
            sweep.dropped() == fuller.dropped().drop_last(),
            call.last.proceeded(
                earlier,
                earlier.model().pending.remove(fuller.dropped().last().0),
            ),
            Self::answered(call),
            call.first.log() == earlier.log().push(Entry::Destructed(fuller.dropped().last().0)),
            call.first.policy() == earlier.policy(),
        ensures
            call.last.unwinding(first, removed, base, sweep, gone.push(call)),
    {
        let stack = fuller.dropped();
        let n = stack.len() as int;
        let last = call.last;
        assert(nodes_of(stack)[n - 1] == stack.last().0);
        assert(removed.take(n)[n - 1] == removed[n - 1]);
        Self::lemma_proceeded(
            first,
            earlier,
            last,
            earlier.model().pending,
            last.model().pending,
        );
        assert(last.log()[earlier.log().len() as int]
            == call.first.log()[earlier.log().len() as int]);
        lemma_unwind(earlier.log(), last.log(), removed, n);
        assert(nodes_of(sweep.dropped()) =~= removed.take(n - 1)) by {
            assert forall|i: int| 0 <= i < n - 1 implies nodes_of(sweep.dropped())[i]
                == #[trigger] removed.take(n - 1)[i] by {
                assert(nodes_of(stack)[i] == removed.take(n)[i]);
            }
        }
        Self::lemma_called(first, gone, call);
        let turns = Self::turns(gone);
        let longer = Self::turns(gone.push(call));
        assert forall|j: int| 0 <= j < longer.len() implies #[trigger] unwinds_at(
            first.log(),
            longer,
            0,
            removed,
            j,
        ) by {
            if j < turns.len() {
                assert(unwinds_at(first.log(), turns, 0, removed, j));
                assert(longer[j] == turns[j]);
            }
            if j > 0 {
                assert(longer[j - 1] == turns[j - 1]);
            }
        }
    }

    /// Drops the registry. From the start no listener counts as alive; then each is
    /// destructed, in the order of the list. Guards may outlive the registry.
    pub fn close(&mut self)
        requires
            old(self).wf(),
            old(self).model().open,
            old(self).depth() == 0,
        ensures
            final(self).resumed(*old(self)),
            !final(self).model().open,
            final(self).model().order.len() == 0,
            final(self).log().len() > old(self).log().len(),
            final(self).log()[old(self).log().len() as int] == Entry::<T::Content, Rc<L>>::Closed,
            wound_up(
                final(self).log(),
                old(self).model().order,
                old(self).model().order.len() as int,
            ),
            exists|calls: Seq<Visit<Self>>| #[trigger] final(self).closed(*old(self), calls),
    {
        let ghost start = *self;
        let ghost order = self.model().order;
        let ghost mut done: int = 0;
        let ghost mut calls: Seq<Visit<Self>> = Seq::empty();
        self.begin_closing();
        proof {
            assert(order.skip(0) =~= order);
        }
        while !self.is_empty()
            invariant
                self.closing(start),
                order == start.model().order,
                0 <= done <= order.len(),
                self.model().order == order.skip(done),
                wound_up(self.log(), order, done),
                self.winding_up(start, order, calls),
                calls.len() == done,
            decreases self.model().order.len(),
        {
            let ghost first = *self;
            let Ghost(call) = self.close_first(Ghost(start));
            proof {
                assert(order.skip(done)[0] == order[done]);
                assert(order.skip(done).skip(1) =~= order.skip(done + 1));
                lemma_wind_up(
                    first.log(),
                    self.log(),
                    order,
                    done,
                    first.log().len() + 1int,
                );
                Self::lemma_winding_up(start, first, *self, order, calls, call);
                calls = calls.push(call);
                done = done + 1;
            }
        }
        proof {
            start.lemma_wf();
            self.lemma_wf();
            assert forall|id: u64| #[trigger] self.model().visits(id) == start.model().visits(
                id,
            ) by {
                assert(start.model().visits(id) <= start.depth());
            }
            assert(order.skip(done).len() == 0);
            assert(self.closed(start, calls));
        }
    }

    /// The calls of destructors that dropping the registry has made.
    spec fn winding_up(self, start: Self, order: Seq<u64>, calls: Seq<Visit<Self>>) -> bool {
        let turns = Self::turns(calls);
        &&& Self::answered_all(start, calls)
        &&& self.policy() == start.policy_after(calls)
        &&& winds_up(start.log(), order, turns)
        &&& self.log() == buried_upto(start.log(), order, turns, calls.len() as int)
    }

    proof fn lemma_winding_up(
        start: Self,
        first: Self,
        last: Self,
        order: Seq<u64>,
        calls: Seq<Visit<Self>>,
        call: Visit<Self>,
    )
        requires
            first.winding_up(start, order, calls),
            Self::answered(call),
            call.first.policy() == first.policy(),
            call.first.log() == first.log().push(Entry::Detached(order[calls.len() as int])).push(
                Entry::Destructed(order[calls.len() as int]),
            ),
            last.log() == call.last.log().push(Entry::Buried(order[calls.len() as int])),
            last.policy() == call.last.policy(),
        ensures
            last.winding_up(start, order, calls.push(call)),
    {
        let turns = Self::turns(calls);
        let longer = Self::turns(calls.push(call));
        Self::lemma_called(start, calls, call);
        assert forall|i: int| 0 <= i < longer.len() implies #[trigger] winds_up_at(
            start.log(),
            order,
            longer,
            i,
        ) by {
            if i < turns.len() {
                assert(winds_up_at(start.log(), order, turns, i));
                assert(longer[i] == turns[i]);
            }
            if i > 0 {
                assert(longer[i - 1] == turns[i - 1]);
            }
            assert(buried_upto(start.log(), order, longer, i) == buried_upto(
                start.log(),
                order,
                turns,
                i,
            ));
        }
    }

    /// Takes the liveness from all listeners.
    fn begin_closing(&mut self)
        requires
            old(self).wf(),
            old(self).model().open,
            old(self).depth() == 0,
        ensures
            final(self).closing(*old(self)),
            final(self).model().order == old(self).model().order,
            final(self).log() == old(self).log().push(Entry::Closed),
            final(self).policy() == old(self).policy(),
    {
        let ghost fifo = P::Order::is_fifo();
        let ghost start = *self;
        self.roster.close();
        proof {
            start.lemma_wf();
            self.lemma_wf();
            lemma_push(fifo, start.log(), Entry::Closed);
            assert(self.log()[start.log().len() as int] == Entry::<T::Content, Rc<L>>::Closed);
        }
    }

    /// Destructs the first listener of a registry that is being dropped.
    fn close_first(&mut self, Ghost(start): Ghost<Self>) -> (call: Ghost<Visit<Self>>)
        requires
            old(self).closing(start),
            old(self).model().order.len() > 0,
        ensures
            final(self).closing(start),
            final(self).model().order == old(self).model().order.skip(1),
            old(self).log().is_prefix_of(final(self).log()),
            final(self).log().len() > old(self).log().len() + 1,
            final(self).log()[old(self).log().len() + 1int] == Entry::<
                T::Content,
                Rc<L>,
            >::Destructed(old(self).model().order[0]),
            Self::answered(call@),
            call@.first.policy() == old(self).policy(),
            call@.first.log() == old(self).log().push(
                Entry::Detached(old(self).model().order[0]),
            ).push(Entry::Destructed(old(self).model().order[0])),
            final(self).log() == call@.last.log().push(Entry::Buried(old(self).model().order[0])),
            final(self).policy() == call@.last.policy(),
    {
        let ghost fifo = P::Order::is_fifo();
        let ghost first = *self;
        proof {
            first.lemma_wf();
        }
        let ghost mut made: Visit<Self> = Visit { first, last: first };
        if let Some((id, listener)) = self.roster.detach() {
            let ghost detached = *self;
            proof {
                assert(first.model().order.contains(id));
                detached.lemma_wf();
                lemma_push(fifo, first.log(), Entry::Detached(id));
                assert(detached.model().pending.remove(id) =~= first.model().pending);
            }
            let Ghost(call) = self.destruct(id, listener);
            let ghost destructed = *self;
            proof {
                made = call;
                assert(detached.model().visits(id) == first.model().visits(id));
                assert(destructed.model().visits(id) == 1);
                destructed.lemma_wf();
                lemma_push(fifo, destructed.log(), Entry::Buried(id));
            }
            self.roster.bury(id);
            proof {
                self.lemma_wf();
                Self::lemma_closed_first(start, first, detached, destructed, *self, id);
                assert(destructed.log()[detached.log().len() as int]
                    == call.first.log()[detached.log().len() as int]);
            }
        }
        Ghost(made)
    }

    proof fn lemma_closed_first(
        start: Self,
        first: Self,
        detached: Self,
        destructed: Self,
        last: Self,
        id: u64,
    )
        requires
            first.closing(start),
            first.model().order.len() > 0,
            id == first.model().order[0],
            detached.wf(),
            detached.log() == first.log().push(Entry::Detached(id)),
            destructed.proceeded(detached, first.model().pending),
            destructed.log().len() > detached.log().len(),
            last.wf(),
            last.log() == destructed.log().push(Entry::Buried(id)),
        ensures
            last.closing(start),
            last.model().order == first.model().order.skip(1),
            first.log().is_prefix_of(last.log()),
            forall|i: int|
                0 <= i < destructed.log().len() ==> #[trigger] last.log()[i]
                    == destructed.log()[i],
    {
        let fifo = P::Order::is_fifo();
        Self::lemma_closed_log(start, first, detached, destructed, last, id);
        first.lemma_distinct();
        lemma_push(fifo, first.log(), Entry::Detached(id));
        lemma_push(fifo, destructed.log(), Entry::Buried(id));
        assert(first.model().order.contains(id));
        assert forall|x: u64| #[trigger] destructed.model().visits(x) == first.model().visits(
            x,
        ) by {
            assert(destructed.model().visits(x) == detached.model().visits(x));
        }
        assert(destructed.model().order == first.model().order.skip(1));
        assert(last.model().order == destructed.model().order);
        assert(last.model().pending == start.model().pending);
        assert(!last.model().open);
        lemma_first_gone::<T::Content, Rc<L>>(
            fifo,
            first.model(),
            destructed.model(),
            last.model(),
            id,
        );
    }

    proof fn lemma_closed_log(
        start: Self,
        first: Self,
        detached: Self,
        destructed: Self,
        last: Self,
        id: u64,
    )
        requires
            first.closing(start),
            detached.wf(),
            detached.log() == first.log().push(Entry::Detached(id)),
            destructed.proceeded(detached, first.model().pending),
            last.log() == destructed.log().push(Entry::Buried(id)),
        ensures
            first.log().is_prefix_of(last.log()),
            start.log().is_prefix_of(last.log()),
            last.log()[start.log().len() as int] == first.log()[start.log().len() as int],
            forall|i: int|
                0 <= i < destructed.log().len() ==> #[trigger] last.log()[i]
                    == destructed.log()[i],
            forall|i: int|
                start.log().len() <= i < last.log().len() ==> since_round(
                    #[trigger] last.log()[i],
                    start.model().rounds,
                ),
    {
        Self::lemma_rounds_kept(start, detached);
        assert forall|i: int| 0 <= i < destructed.log().len() implies #[trigger] last.log()[i]
            == destructed.log()[i] by {}
        assert forall|i: int| 0 <= i < first.log().len() implies #[trigger] last.log()[i]
            == first.log()[i] by {
            assert(destructed.log()[i] == detached.log()[i]);
        }
        assert forall|i: int| start.log().len() <= i < last.log().len() implies since_round(
            #[trigger] last.log()[i],
            start.model().rounds,
        ) by {
            if i < first.log().len() {
                assert(last.log()[i] == first.log()[i]);
            } else if i < detached.log().len() {
                assert(destructed.log()[i] == detached.log()[i]);
            } else if i < destructed.log().len() {
                assert(since_round(destructed.log()[i], detached.model().rounds));
            } else {
                assert(last.log()[i] == Entry::<T::Content, Rc<L>>::Buried(id));
            }
        }
    }

    proof fn lemma_rounds_kept(start: Self, later: Self)
        requires
            later.wf(),
            start.log().is_prefix_of(later.log()),
        ensures
            start.model().rounds <= later.model().rounds,
    {
        later.lemma_wf();
        lemma_monotone(P::Order::is_fifo(), later.log(), start.log().len() as int);
        assert(later.log().take(start.log().len() as int) =~= start.log());
    }

    /// The registry that was `start` is being dropped: the listed nodes, and no others, are
    /// in use by that.
    spec fn closing(self, start: Self) -> bool {
        &&& self.wf()
        &&& start.wf()
        &&& start.model().open
        &&& start.depth() == 0
        &&& !self.model().open
        &&& start.log().len() < self.log().len()
        &&& start.log().is_prefix_of(self.log())
        &&& self.log()[start.log().len() as int] == Entry::<T::Content, Rc<L>>::Closed
        &&& forall|i: int|
            start.log().len() <= i < self.log().len() ==> since_round(
                #[trigger] self.log()[i],
                start.model().rounds,
            )
        &&& self.model().pending == start.model().pending
        &&& self.model().calling == start.model().calling
        &&& forall|id: u64| #[trigger]
            self.model().visits(id) == if self.model().order.contains(id) {
                1nat
            } else {
                0
            }
    }
}

/// A dropping registry is done with its first node once it is buried.
proof fn lemma_first_gone<C, H>(
    fifo: bool,
    first: Model<H>,
    destructed: Model<H>,
    last: Model<H>,
    id: u64,
)
    requires
        first.order.no_duplicates(),
        first.order.len() > 0,
        id == first.order[0],
        destructed.order == first.order.skip(1),
        forall|x: u64| #[trigger]
            first.visits(x) == if first.order.contains(x) {
                1nat
            } else {
                0
            },
        forall|x: u64| #[trigger] destructed.visits(x) == first.visits(x),
        last == destructed.apply(fifo, Entry::<C, H>::Buried(id)),
    ensures
        forall|x: u64| #[trigger]
            last.visits(x) == if last.order.contains(x) {
                1nat
            } else {
                0
            },
{
    let a = first.order;
    let b = last.order;
    assert forall|x: u64| #[trigger]
        last.visits(x) == if b.contains(x) {
            1nat
        } else {
            0
        } by {
        assert(destructed.visits(x) == first.visits(x));
        if b.contains(x) {
            let i = b.index_of(x);
            assert(a[i + 1] == x);
            assert(x != id);
        }
        if a.contains(x) && x != id {
            let i = a.index_of(x);
            assert(b[i - 1] == x);
        }
    }
}

/// How many nodes a broadcast may still have ahead of it; nodes are never renumbered.
spec fn ahead(fifo: bool, at: Option<u64>) -> int {
    match at {
        None => u64::MAX + 1,
        Some(id) => if fifo {
            u64::MAX - id
        } else {
            id as int
        },
    }
}

/// How far a broadcast has got.
spec fn progress<H>(sweep: Sweep<H>) -> Progress<H> {
    Progress { at: sweep.at(), calling: sweep.calling(), dropped: sweep.dropped() }
}

/// Whether the content is that of a clone of the event.
pub open spec fn copy_of<'a, T: EventFamily>(event: T::Event<'a>, content: T::Content) -> bool {
    exists|copy: T::Event<'a>| cloned(event, copy) && #[trigger] T::content(copy) == content
}

} // verus!
