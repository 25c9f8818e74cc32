//! The registry that threads share under a lock. Each function here is what one thread does
//! while it holds the lock; listeners, policies and destructors run while it does not, and
//! other threads may come in between.
use crate::history::{is_next, lemma_called, lemma_push, run, valid, Entry, Model};
use crate::laws::{done_by, law_call_keeps_listener, law_sealed_entry, lemma_held_step};
use crate::load::load;
use crate::order::{Order, LIFO};
use crate::pointer::ListenerPtr;
use crate::private::Private;
use crate::roster::{Cancel, Roster, Sweep};
use crate::rounds::{
    in_scope, law_round_undisturbed, lemma_begin, lemma_deliver, lemma_no_removals,
    lemma_received_in_turn, lemma_removals_extend, lemma_removals_push, lemma_sweep, of_round,
    received_in_turn, removals, swept, target, tracks,
};
use crate::state::max_visits;
use crate::sweeping::nodes_of;
use std::sync::Arc;
use vstd::prelude::*;

verus! {

/// A registry that cannot be sealed.
pub struct No;

/// A registry that can be sealed once it is empty.
pub struct Yes;

impl Private for No {

}

impl Private for Yes {

}

/// What a registry that cannot be sealed stores for it: nothing.
#[derive(Clone, Copy)]
pub struct NoFlag;

impl Default for NoFlag {
    fn default() -> (flag: Self)
        ensures
            flag == NoFlag,
    {
        NoFlag
    }
}

/// Whether a registry can be sealed, fixed at compile time.
pub trait Sealable: Private {
    /// What the registry stores of whether it is sealed.
    type Flag: Copy + Default;

    /// Whether the registry can be sealed.
    spec fn sealable() -> bool;

    /// Whether the flag says that the registry is sealed.
    spec fn sealed(flag: Self::Flag) -> bool;

    /// Whether the registry can be sealed.
    fn value() -> (sealable: bool)
        ensures
            sealable == Self::sealable(),
    ;

    /// The flag of a new registry.
    fn unsealed() -> (flag: Self::Flag)
        ensures
            !Self::sealed(flag),
    ;

    /// Registers by `f`, unless the registry is sealed; `f` is not run then.
    fn gate_register<T, F: FnOnce() -> T>(flag: Self::Flag, f: F) -> (result: Option<T>)
        requires
            !Self::sealed(flag) ==> f.requires(()),
        ensures
            result is None <==> Self::sealed(flag),
            result matches Some(t) ==> f.ensures((), t),
    ;
}

impl Sealable for No {
    type Flag = NoFlag;

    open spec fn sealable() -> bool {
        false
    }

    open spec fn sealed(flag: NoFlag) -> bool {
        false
    }

    fn value() -> (sealable: bool) {
        false
    }

    fn unsealed() -> (flag: NoFlag) {
        NoFlag
    }

    fn gate_register<T, F: FnOnce() -> T>(flag: NoFlag, f: F) -> (result: Option<T>) {
        Some(f())
    }
}

impl Sealable for Yes {
    type Flag = bool;

    open spec fn sealable() -> bool {
        true
    }

    open spec fn sealed(flag: bool) -> bool {
        flag
    }

    fn value() -> (sealable: bool) {
        true
    }

    fn unsealed() -> (flag: bool) {
        false
    }

    fn gate_register<T, F: FnOnce() -> T>(flag: bool, f: F) -> (result: Option<T>) {
        if flag {
            None
        } else {
            Some(f())
        }
    }
}

/// How a shared registry behaves.
pub trait Policy {
    /// Whether the registry can be sealed.
    type Sealable: Sealable;

    /// The order in which listeners are served.
    type Order: Order;

    /// Called, for a registry that can be sealed, when the last listener is cancelled, so
    /// that the registry just became empty. Other threads may have filled it again.
    fn last_listener_cancelled(&self);
}

impl Policy for () {
    type Sealable = No;

    type Order = LIFO;

    fn last_listener_cancelled(&self) {
    }
}

/// What threads share of a registry: its listeners, whether it is sealed, and how many
/// references to all this there are.
pub struct Registry<L, P: Policy> {
    roster: Roster<(), Arc<L>, P::Order>,
    sealed: <P::Sealable as Sealable>::Flag,
    ref_count: usize,
    departing: usize,
    attached: bool,
    standing: Option<u64>,
    policy: Arc<P>,
}

/// The right to cancel one listener.
#[must_use]
pub struct Guard {
    id: u64,
}

impl Guard {
    /// The node of the listener.
    pub closed spec fn id(&self) -> u64 {
        self.id
    }
}

/// Whether the nodes in use are those that the dropping of the registry has yet to come to,
/// and the one at which it stands.
pub open spec fn in_use_by_drop<H>(model: Model<H>, standing: Option<u64>) -> bool {
    &&& forall|id: u64| #[trigger]
        model.visits(id) > 0 <==> model.order.contains(id) || standing == Some(id)
    &&& standing is Some ==> !model.order.contains(standing->0)
}

/// The nodes whose guards were not dropped.
pub open spec fn guards<H>(model: Model<H>) -> Set<u64> {
    Set::new(|id: u64| model.held(id))
}

impl<L, P: Policy> Registry<L, P> {
    /// All that happened to this registry.
    pub closed spec fn log(&self) -> Seq<Entry<(), Arc<L>>> {
        self.roster.log()
    }

    /// What that makes of it.
    pub open spec fn model(&self) -> Model<Arc<L>> {
        run(P::Order::is_fifo(), self.log())
    }

    /// How many calls of listeners are in progress.
    pub closed spec fn depth(&self) -> nat {
        self.roster.depth()
    }

    /// Whether the flag says that the registry is sealed.
    pub closed spec fn is_sealed(&self) -> bool {
        P::Sealable::sealed(self.sealed)
    }

    /// How many references there are.
    pub closed spec fn ref_count(&self) -> nat {
        self.ref_count as nat
    }

    /// How many guards were dropped that have not given back their reference.
    pub closed spec fn departing(&self) -> nat {
        self.departing as nat
    }

    /// Whether the registry itself, apart from its guards, is there.
    pub closed spec fn attached(&self) -> bool {
        self.attached
    }

    /// The node at which the dropping of the registry stands: its listener was handed out.
    pub closed spec fn standing(&self) -> Option<u64> {
        self.standing
    }

    /// The policy.
    pub closed spec fn policy(&self) -> P {
        *self.policy
    }

    /// Whether nothing but the list and its log changed.
    pub open spec fn settled(self, before: Self) -> bool {
        &&& self.departing() == before.departing()
        &&& self.ref_count() == before.ref_count()
        &&& self.attached() == before.attached()
        &&& self.standing() == before.standing()
        &&& self.is_sealed() == before.is_sealed()
        &&& self.policy() == before.policy()
    }

    /// The data agrees with the log; every guard and the registry itself hold a reference
    /// until they give it back, which the registry does once all its listeners were handed
    /// out; and the flag says whether the registry is sealed.
    pub closed spec fn wf(&self) -> bool {
        &&& self.roster.wf()
        &&& self.ref_count == guards(self.model()).len() + self.departing + (if self.attached {
            1nat
        } else {
            0
        })
        &&& self.model().open ==> self.attached && self.standing is None
        &&& !self.model().open ==> in_use_by_drop(self.model(), self.standing)
        &&& !self.attached ==> self.model().order.len() == 0 && self.standing is None
        &&& self.is_sealed() == self.model().sealed
    }

    /// What follows from being well formed.
    pub proof fn lemma_wf(&self)
        requires
            self.wf(),
        ensures
            valid(P::Order::is_fifo(), self.log()),
            self.model().inv(P::Order::is_fifo()),
            self.model().next_id <= u64::MAX,
            self.model().open ==> forall|id: u64| #[trigger]
                self.model().visits(id) <= self.depth(),
            self.model().open ==> self.depth() == load(self.model().order, self.model().slots),
            !self.model().open ==> self.depth() == 0,
            self.depth() <= max_visits(),
            guards(self.model()).finite(),
            self.ref_count() == guards(self.model()).len() + self.departing() + (if self.attached() {
                1nat
            } else {
                0
            }),
            self.model().open ==> self.attached() && self.standing() is None,
            !self.model().open ==> in_use_by_drop(self.model(), self.standing()),
            self.is_sealed() == self.model().sealed,
    {
        self.roster.lemma_wf();
        lemma_guards_finite(P::Order::is_fifo(), self.model());
    }

    /// A registry is sealed, and so refuses listeners, exactly if an attempt to seal it
    /// succeeded before.
    pub proof fn law_sealed_iff_it_was(&self)
        requires
            self.wf(),
        ensures
            self.is_sealed() <==> self.log().contains(Entry::Sealed),
    {
        self.lemma_wf();
        law_sealed_entry(P::Order::is_fifo(), self.log());
    }

    /// A sealed registry is empty.
    pub proof fn law_sealed_is_empty(&self)
        requires
            self.wf(),
            self.is_sealed(),
        ensures
            self.model().order.len() == 0,
    {
        self.lemma_wf();
    }

    /// The references run out exactly when the registry is dropped and every guard is
    /// dropped and has given back its reference. Then nothing is left: no node, and no
    /// listener that was not handed out.
    pub proof fn law_unreferenced_when_all_gone(&self)
        requires
            self.wf(),
        ensures
            self.ref_count() == 0 <==> !self.attached() && self.departing() == 0 && forall|id: u64|
                !#[trigger] self.model().held(id),
            self.ref_count() == 0 ==> self.model().slots.dom() == Set::<u64>::empty()
                && self.model().listeners.dom() == Set::<u64>::empty(),
    {
        self.lemma_wf();
        let m = self.model();
        let held = guards(m);
        if held.len() == 0 {
            assert forall|id: u64| !#[trigger] m.held(id) by {
                if m.held(id) {
                    assert(held.contains(id));
                }
            }
        }
        if forall|id: u64| !#[trigger] m.held(id) {
            assert(held =~= Set::empty());
        }
        if self.ref_count() == 0 {
            assert forall|id: u64| !m.slots.dom().contains(id) && !m.listeners.dom().contains(id) by {
                assert(!m.order.contains(id));
                assert(!m.held(id));
                assert(m.visits(id) == 0);
                assert(m.listeners.contains_key(id) <==> m.order.contains(id));
            }
            assert(m.slots.dom() =~= Set::<u64>::empty());
            assert(m.listeners.dom() =~= Set::<u64>::empty());
        }
    }

    /// An empty registry, to which there is one reference.
    pub fn new(policy: P) -> (registry: Self)
        ensures
            registry.wf(),
            registry.log() == Seq::<Entry<(), Arc<L>>>::empty(),
            registry.depth() == 0,
            !registry.is_sealed(),
            registry.ref_count() == 1,
            registry.departing() == 0,
            registry.attached(),
            registry.standing() is None,
            registry.policy() == policy,
    {
        let registry = Registry {
            roster: Roster::new(),
            sealed: P::Sealable::unsealed(),
            ref_count: 1,
            departing: 0,
            attached: true,
            standing: None,
            policy: Arc::new(policy),
        };
        assert(guards(registry.model()) =~= Set::empty());
        registry
    }

    /// Registers a listener, unless the registry is sealed. A listener that is refused is
    /// handed back, to be destructed without the lock.
    pub fn register(&mut self, listener: L) -> (result: Result<Guard, L>)
        requires
            old(self).wf(),
            old(self).model().open,
            old(self).is_sealed() || (old(self).model().next_id < u64::MAX
                && old(self).ref_count() < usize::MAX),
        ensures
            final(self).wf(),
            result is Err <==> old(self).is_sealed(),
            result is Err <==> old(self).log().contains(Entry::Sealed),
            result matches Err(l) ==> {
                &&& l == listener
                &&& *final(self) == *old(self)
                &&& final(self).model().order.len() == 0
            },
            result matches Ok(g) ==> {
                &&& g.id() == old(self).model().next_id
                &&& final(self).log().len() == old(self).log().len() + 1
                &&& final(self).log().drop_last() == old(self).log()
                &&& final(self).log().last() matches Entry::Registered { id, listener: handle }
                    && id == g.id() && *handle == listener
                &&& final(self).model() == old(self).model().apply(
                    P::Order::is_fifo(),
                    final(self).log().last(),
                )
                &&& final(self).ref_count() == old(self).ref_count() + 1
            },
            final(self).is_sealed() == old(self).is_sealed(),
            final(self).depth() == old(self).depth(),
            final(self).departing() == old(self).departing(),
            final(self).attached() == old(self).attached(),
            final(self).standing() == old(self).standing(),
            final(self).policy() == old(self).policy(),
    {
        proof {
            self.lemma_wf();
            self.law_sealed_iff_it_was();
        }
        let pass = || -> (passed: ()) {  };
        if P::Sealable::gate_register(self.sealed, pass).is_none() {
            return Err(listener);
        }
        let handle = Arc::new(listener);
        let id = self.roster.register(handle);
        self.ref_count = self.ref_count + 1;
        proof {
            old(self).lemma_wf();
            let entry = Entry::<(), Arc<L>>::Registered { id, listener: handle };
            lemma_push(P::Order::is_fifo(), old(self).log(), entry);
            lemma_guards(P::Order::is_fifo(), old(self).model(), entry);
            assert(self.log().drop_last() =~= old(self).log());
        }
        Ok(Guard { id })
    }
}

/// What is to be done next, without the lock, once a guard was dropped or a broadcast has
/// called everyone.
pub enum Action<L> {
    /// The policy is told that the registry became empty.
    Tell,
    /// The reference of the guard is given back, by [`release`](Registry::release).
    Release,
    /// The listener is destructed.
    Destruct(Arc<L>),
    /// Nothing is left to do.
    Done,
}

/// What is to be done without the lock, in this order. First the policy is told, if it is to
/// be told. Then the reference is given back, if there is one to give back. Destructors come
/// last, that of the listener removed last before the others.
pub open spec fn agenda<L>(notify: bool, release: bool, removed: Seq<Arc<L>>) -> Seq<Action<L>> {
    let telling = if notify {
        seq![Action::Tell]
    } else {
        Seq::empty()
    };
    let releasing = if release {
        seq![Action::Release]
    } else {
        Seq::empty()
    };
    let destructing = Seq::new(
        removed.len(),
        |i: int| Action::Destruct(removed[removed.len() - 1 - i]),
    );
    telling + releasing + destructing
}

/// What comes first on an agenda.
pub open spec fn first_of<L>(agenda: Seq<Action<L>>) -> Action<L> {
    if agenda.len() == 0 {
        Action::Done
    } else {
        agenda[0]
    }
}

/// An agenda without what came first on it.
pub open spec fn rest_of<L>(agenda: Seq<Action<L>>) -> Seq<Action<L>> {
    if agenda.len() == 0 {
        agenda
    } else {
        agenda.skip(1)
    }
}

/// What is left to do, without the lock, after a guard was dropped.
pub struct Departure<L> {
    destruct: Option<Arc<L>>,
    notify: bool,
    release: bool,
}

impl<L> Departure<L> {
    /// The listener to destruct.
    pub closed spec fn destruct(&self) -> Option<Arc<L>> {
        self.destruct
    }

    /// Whether the policy is to be told that the registry became empty.
    pub closed spec fn notify(&self) -> bool {
        self.notify
    }

    /// Whether the reference is to be given back.
    pub closed spec fn release(&self) -> bool {
        self.release
    }

    /// All that is left to do, in order.
    pub open spec fn agenda(&self) -> Seq<Action<L>> {
        agenda(
            self.notify(),
            self.release(),
            match self.destruct() {
                Some(listener) => seq![listener],
                None => Seq::empty(),
            },
        )
    }

    /// Says what is to be done next. It counts as done from here on.
    pub fn next_action(&mut self) -> (action: Action<L>)
        ensures
            action == first_of(old(self).agenda()),
            final(self).agenda() == rest_of(old(self).agenda()),
    {
        if self.notify {
            self.notify = false;
            assert(self.agenda() =~= old(self).agenda().skip(1));
            Action::Tell
        } else if self.release {
            self.release = false;
            assert(self.agenda() =~= old(self).agenda().skip(1));
            Action::Release
        } else {
            match self.destruct.take() {
                Some(listener) => {
                    assert(self.agenda() =~= old(self).agenda().skip(1));
                    Action::Destruct(listener)
                },
                None => {
                    assert(self.agenda() =~= old(self).agenda());
                    Action::Done
                },
            }
        }
    }
}

/// A broadcast in progress, as its thread keeps it while it does not hold the lock.
pub struct Broadcast<L> {
    sweep: Sweep<Arc<L>>,
    notify: bool,
}

impl<L> Broadcast<L> {
    /// The node that was called last.
    pub closed spec fn at(&self) -> Option<u64> {
        self.sweep.at()
    }

    /// Whether that call is in progress.
    pub closed spec fn calling(&self) -> bool {
        self.sweep.calling()
    }

    /// The listeners that this broadcast removed, with their nodes, first to last.
    pub closed spec fn dropped(&self) -> Seq<(u64, Arc<L>)> {
        self.sweep.dropped()
    }

    /// The number of this broadcast.
    pub closed spec fn round(&self) -> nat {
        self.sweep.round()
    }

    /// How many nodes had been registered when it began.
    pub closed spec fn bound(&self) -> nat {
        self.sweep.bound()
    }

    /// Whether the policy is to be told that the registry became empty.
    pub closed spec fn notify(&self) -> bool {
        self.notify
    }

    /// The listeners that this broadcast removed, first to last.
    pub open spec fn removed(&self) -> Seq<Arc<L>> {
        Seq::new(self.dropped().len(), |i: int| self.dropped()[i].1)
    }

    /// All that is left to do, in order, once the broadcast has called everyone. Before that
    /// there is nothing to do but its call.
    pub open spec fn agenda(&self) -> Seq<Action<L>> {
        if self.calling() {
            Seq::empty()
        } else {
            agenda(self.notify(), false, self.removed())
        }
    }

    /// Says what is to be done next, once the broadcast has called everyone. It counts as
    /// done from here on.
    pub fn next_action(&mut self) -> (action: Action<L>)
        ensures
            action == first_of(old(self).agenda()),
            final(self).agenda() == rest_of(old(self).agenda()),
            old(self).calling() ==> *final(self) == *old(self),
            final(self).at() == old(self).at(),
            final(self).calling() == old(self).calling(),
            final(self).round() == old(self).round(),
            final(self).bound() == old(self).bound(),
    {
        if self.sweep.is_calling() {
            return Action::Done;
        }
        if self.notify {
            self.notify = false;
            assert(self.agenda() =~= old(self).agenda().skip(1));
            return Action::Tell;
        }
        match self.sweep.take_dropped() {
            Some((_, listener)) => {
                assert(self.agenda() =~= old(self).agenda().skip(1));
                Action::Destruct(listener)
            },
            None => {
                assert(self.agenda() =~= old(self).agenda());
                Action::Done
            },
        }
    }
}

impl<L, P: Policy> Registry<L, P> {
    /// Whether the registry is not being, and was not, dropped.
    pub fn is_open(&self) -> (open: bool)
        requires
            self.wf(),
        ensures
            open == self.model().open,
    {
        self.roster.is_open()
    }

    /// Whether no listener is in the list.
    pub fn is_empty(&self) -> (empty: bool)
        requires
            self.wf(),
        ensures
            empty == (self.model().order.len() == 0),
    {
        self.roster.is_empty()
    }

    /// How many listeners were ever registered.
    pub fn registered(&self) -> (count: u64)
        requires
            self.wf(),
        ensures
            count == self.model().next_id,
    {
        self.roster.registered()
    }

    /// How many references there are.
    pub fn references(&self) -> (count: usize)
        ensures
            count == self.ref_count(),
    {
        self.ref_count
    }

    /// How many calls of listeners are in progress.
    pub fn calls_in_progress(&self) -> (calls: usize)
        ensures
            calls == self.depth(),
    {
        self.roster.calls_in_progress()
    }

    /// The policy, to be told without the lock that the registry became empty.
    pub fn hook(&self) -> (policy: Arc<P>)
        ensures
            *policy == self.policy(),
    {
        self.policy.clone()
    }

    /// Whether the guard of a listener with this guard's number is there. Of a guard of
    /// this registry that was not dropped it always is; guards of other registries carry
    /// numbers of their own.
    pub fn holds(&self, guard: &Guard) -> (held: bool)
        requires
            self.wf(),
        ensures
            held == self.model().held(guard.id()),
    {
        self.roster.holds(guard.id)
    }

    /// The listener to which a guard of this registry points, unless it was handed out to be
    /// destructed. As it is borrowed from the registry, it is not kept from that.
    pub fn listener_at(&self, ptr: ListenerPtr) -> (listener: Option<&L>)
        requires
            self.wf(),
        ensures
            listener is Some <==> self.model().listeners.contains_key(ptr.node()),
            listener matches Some(l) ==> *l == *self.model().listeners[ptr.node()],
    {
        match self.roster.listener(ptr.target()) {
            Some(listener) => Some(&**listener),
            None => None,
        }
    }

    /// Drops a guard. What is left to do is done without the lock, step by step as
    /// [`next_action`](Departure::next_action) says; giving back the reference is among it.
    pub fn cancel(&mut self, guard: Guard) -> (left: Departure<L>)
        requires
            old(self).wf(),
            old(self).model().held(guard.id()),
        ensures
            final(self).wf(),
            final(self).log() == old(self).log().push(Entry::Cancelled(guard.id())),
            final(self).model() == old(self).model().cancel(guard.id()),
            left.destruct() is Some <==> old(self).model().visits(guard.id()) == 0
                && old(self).model().alive(guard.id()),
            left.destruct() matches Some(l) ==> l == old(self).model().listeners[guard.id()],
            left.notify() <==> P::Sealable::sealable() && left.destruct() is Some
                && final(self).model().order.len() == 0,
            left.release(),
            final(self).departing() == old(self).departing() + 1,
            final(self).ref_count() == old(self).ref_count(),
            final(self).attached() == old(self).attached(),
            final(self).standing() == old(self).standing(),
            final(self).is_sealed() == old(self).is_sealed(),
            final(self).policy() == old(self).policy(),
            final(self).depth() == old(self).depth(),
    {
        let ghost entry = Entry::<(), Arc<L>>::Cancelled(guard.id);
        proof {
            old(self).lemma_wf();
            lemma_push(P::Order::is_fifo(), old(self).log(), entry);
            lemma_guards(P::Order::is_fifo(), old(self).model(), entry);
            if old(self).model().order.len() == 0 {
                assert(!old(self).model().order.contains(guard.id));
            }
            if !old(self).model().open {
                lemma_cancelled_during_drop(
                    P::Order::is_fifo(),
                    old(self).model(),
                    guard.id,
                    old(self).standing,
                );
            }
        }
        let outcome = self.roster.cancel(guard.id);
        self.departing = self.departing + 1;
        match outcome {
            Cancel::Removed { listener, emptied } => Departure {
                destruct: Some(listener),
                notify: P::Sealable::value() && emptied,
                release: true,
            },
            _ => Departure { destruct: None, notify: false, release: true },
        }
    }

    /// Whether a guard was dropped that has not given back its reference.
    pub fn has_departing(&self) -> (any: bool)
        ensures
            any == (self.departing() > 0),
    {
        self.departing > 0
    }

    /// Gives back the reference of a guard that was dropped. Returns whether it was the
    /// last reference of all.
    pub fn release(&mut self) -> (last: bool)
        requires
            old(self).wf(),
            old(self).departing() > 0,
        ensures
            final(self).wf(),
            final(self).log() == old(self).log(),
            final(self).departing() == old(self).departing() - 1,
            final(self).ref_count() == old(self).ref_count() - 1,
            final(self).attached() == old(self).attached(),
            final(self).standing() == old(self).standing(),
            final(self).is_sealed() == old(self).is_sealed(),
            final(self).policy() == old(self).policy(),
            final(self).depth() == old(self).depth(),
            last == (final(self).ref_count() == 0),
    {
        self.departing = self.departing - 1;
        self.ref_count = self.ref_count - 1;
        self.ref_count == 0
    }
}

/// The log once the call in progress of a broadcast has come back.
pub open spec fn called<L>(
    log: Seq<Entry<(), Arc<L>>>,
    broadcast: Broadcast<L>,
) -> Seq<Entry<(), Arc<L>>> {
    if broadcast.calling() {
        log.push(Entry::Returned { round: broadcast.round(), id: broadcast.at()->0 })
    } else {
        log
    }
}

/// What a broadcast removed, once its call in progress has come back.
pub open spec fn dropped_by<L>(
    model: Model<Arc<L>>,
    broadcast: Broadcast<L>,
) -> Seq<(u64, Arc<L>)> {
    if broadcast.calling() && model.leaves(broadcast.at()->0) {
        broadcast.dropped().push((broadcast.at()->0, model.listeners[broadcast.at()->0]))
    } else {
        broadcast.dropped()
    }
}

impl<L, P: Policy> Registry<L, P> {
    /// Whether the broadcast is one of this registry's, and in progress: it is calling the
    /// listener at which it stands, has served everyone before that, and keeps the listeners
    /// that it removed.
    pub open spec fn running(self, broadcast: Broadcast<L>) -> bool {
        let fifo = P::Order::is_fifo();
        let round = broadcast.round();
        &&& broadcast.calling()
        &&& broadcast.at() is Some
        &&& self.model().calls(round, broadcast.at()->0)
        &&& tracks(fifo, self.log(), round, broadcast.bound(), broadcast.at())
        &&& removals(fifo, self.log(), round) == nodes_of(broadcast.dropped())
    }

    /// Whatever else happens to a registry, a broadcast in progress can go on: the listener
    /// that it is calling stays in place, and the registry is not dropped.
    pub proof fn law_broadcast_goes_on(before: Self, after: Self, broadcast: Broadcast<L>)
        requires
            after.wf(),
            before.running(broadcast),
            before.log().is_prefix_of(after.log()),
            forall|i: int|
                before.log().len() <= i < after.log().len() ==> !done_by(
                    #[trigger] after.log()[i],
                    broadcast.round(),
                ),
        ensures
            after.running(broadcast),
            after.model().open,
            after.model().listeners.contains_key(broadcast.at()->0),
            after.model().listeners[broadcast.at()->0]
                == before.model().listeners[broadcast.at()->0],
    {
        let fifo = P::Order::is_fifo();
        let round = broadcast.round();
        after.lemma_wf();
        law_call_keeps_listener(fifo, before.log(), after.log(), round);
        law_round_undisturbed(
            fifo,
            before.log(),
            after.log(),
            round,
            broadcast.bound(),
            broadcast.at(),
        );
        lemma_removals_extend(fifo, before.log(), after.log(), round);
    }

    /// One step of a broadcast that called `at` last, from a registry whose log is `log`:
    /// the next listener is called, if there is one. Otherwise the broadcast has called
    /// everyone registered when it began whose guard was not dropped before their turn, and
    /// the policy is to be told if listeners were removed and none is left.
    pub open spec fn stepped(
        self,
        log: Seq<Entry<(), Arc<L>>>,
        at: Option<u64>,
        broadcast: Broadcast<L>,
        listener: Option<Arc<L>>,
    ) -> bool {
        let fifo = P::Order::is_fifo();
        let model = run(fifo, log);
        let round = broadcast.round();
        match listener {
            Some(l) => {
                &&& broadcast.at() matches Some(id) && {
                    &&& is_next(fifo, model, at, Some(id))
                    &&& l == model.listeners[id]
                    &&& self.log() == log.push(Entry::Delivered { round, id, content: () })
                    &&& self.model() == model.apply(
                        fifo,
                        Entry::<(), Arc<L>>::Delivered { round, id, content: () },
                    )
                }
                &&& self.running(broadcast)
                &&& !broadcast.notify()
            },
            None => {
                &&& !broadcast.calling()
                &&& broadcast.at() == at
                &&& is_next(fifo, model, at, None)
                &&& self.log() == log.push(Entry::Swept(round))
                &&& self.model() == model
                &&& swept(fifo, self.log(), round, broadcast.bound())
                &&& forall|id: u64|
                    id < broadcast.bound() ==> #[trigger] received_in_turn(
                        fifo,
                        self.log(),
                        round,
                        id,
                    )
                &&& removals(fifo, self.log(), round) == nodes_of(broadcast.dropped())
                &&& broadcast.notify() <==> P::Sealable::sealable() && broadcast.dropped().len()
                    > 0 && model.order.len() == 0
            },
        }
    }

    /// Begins a broadcast. Returns the first listener to call, if there is one.
    pub fn broadcast(&mut self) -> (begun: (Broadcast<L>, Option<Arc<L>>))
        requires
            old(self).wf(),
            old(self).model().open,
            old(self).depth() < max_visits(),
        ensures
            final(self).wf(),
            final(self).stepped(
                old(self).log().push(Entry::Begun(old(self).model().rounds)),
                None,
                begun.0,
                begun.1,
            ),
            begun.0.round() == old(self).model().rounds,
            begun.0.bound() == old(self).model().next_id,
            begun.0.dropped() == Seq::<(u64, Arc<L>)>::empty(),
            final(self).depth() == old(self).depth() + (if begun.1 is Some { 1int } else { 0 }),
            final(self).settled(*old(self)),
    {
        let ghost fifo = P::Order::is_fifo();
        proof {
            self.lemma_wf();
            lemma_begin(fifo, self.log());
            let entry = Entry::<(), Arc<L>>::Begun(self.model().rounds);
            lemma_push(fifo, self.log(), entry);
            lemma_guards(fifo, self.model(), entry);
            lemma_no_removals(fifo, self.log(), self.model().rounds);
            lemma_removals_push(fifo, self.log(), self.model().rounds, entry);
            assert(nodes_of(Seq::<(u64, Arc<L>)>::empty()) =~= Seq::<u64>::empty());
        }
        let sweep = self.roster.begin();
        let mut broadcast = Broadcast { sweep, notify: false };
        let listener = self.step(&mut broadcast);
        (broadcast, listener)
    }

    /// Whether the node at which the broadcast stands is in use, as it is while a broadcast of
    /// this registry is in progress. That is the part of [`running`](Self::running) that can
    /// be tested; the rest holds of every broadcast that this registry began and that was
    /// moved on by nothing but [`resume_broadcast`](Self::resume_broadcast).
    pub fn can_resume(&self, broadcast: &Broadcast<L>) -> (resumable: bool)
        requires
            self.wf(),
        ensures
            resumable == (self.model().open && broadcast.calling() && broadcast.at() is Some
                && self.model().visits(broadcast.at()->0) > 0),
    {
        match broadcast.sweep.current() {
            Some(id) => self.roster.is_open() && self.roster.in_use(id),
            None => false,
        }
    }

    /// Goes on with a broadcast whose call came back. A listener cancelled meanwhile is
    /// removed if no other call of it is in progress. Returns the next listener to call, if
    /// there is one; without one, the broadcast has called everyone.
    pub fn resume_broadcast(&mut self, broadcast: &mut Broadcast<L>) -> (listener: Option<Arc<L>>)
        requires
            old(self).wf(),
            old(self).running(*old(broadcast)),
        ensures
            final(self).wf(),
            final(self).stepped(
                called(old(self).log(), *old(broadcast)),
                old(broadcast).at(),
                *final(broadcast),
                listener,
            ),
            final(broadcast).round() == old(broadcast).round(),
            final(broadcast).bound() == old(broadcast).bound(),
            final(broadcast).dropped() == dropped_by(old(self).model(), *old(broadcast)),
            final(self).depth() == old(self).depth() - (if listener is Some { 0int } else { 1 }),
            final(self).settled(*old(self)),
    {
        proof {
            self.lemma_wf();
            lemma_called(P::Order::is_fifo(), self.model(), broadcast.round());
        }
        self.step(broadcast)
    }

    fn step(&mut self, broadcast: &mut Broadcast<L>) -> (listener: Option<Arc<L>>)
        requires
            old(self).wf(),
            old(self).model().open,
            old(broadcast).at() is Some <==> old(broadcast).calling(),
            old(broadcast).calling() ==> old(self).model().calls(
                old(broadcast).round(),
                old(broadcast).at()->0,
            ),
            !old(broadcast).calling() ==> old(self).depth() < max_visits()
                && old(self).model().next_id == old(broadcast).bound()
                && !old(self).model().calling.contains_key(old(broadcast).round()),
            removals(P::Order::is_fifo(), old(self).log(), old(broadcast).round()) == nodes_of(
                old(broadcast).dropped(),
            ),
            tracks(
                P::Order::is_fifo(),
                old(self).log(),
                old(broadcast).round(),
                old(broadcast).bound(),
                old(broadcast).at(),
            ),
        ensures
            final(self).wf(),
            final(self).stepped(
                called(old(self).log(), *old(broadcast)),
                old(broadcast).at(),
                *final(broadcast),
                listener,
            ),
            final(broadcast).round() == old(broadcast).round(),
            final(broadcast).bound() == old(broadcast).bound(),
            final(broadcast).dropped() == dropped_by(old(self).model(), *old(broadcast)),
            final(self).depth() == old(self).depth() + (if listener is Some { 1int } else { 0 })
                - (if old(broadcast).calling() { 1int } else { 0 }),
            final(self).settled(*old(self)),
    {
        let ghost fifo = P::Order::is_fifo();
        let ghost was = *self;
        let ghost began = *broadcast;
        let ghost log = called(was.log(), began);
        let ghost round = began.round();
        let ghost bound = began.bound();
        proof {
            was.lemma_wf();
            if began.calling() {
                let entry = Entry::<(), Arc<L>>::Returned { round, id: began.at()->0 };
                lemma_push(fifo, was.log(), entry);
                lemma_guards(fifo, was.model(), entry);
                law_round_undisturbed(fifo, was.log(), log, round, bound, began.at());
                lemma_removals_push(fifo, was.log(), round, entry);
            }
            assert(nodes_of(dropped_by(was.model(), began)) =~= removals(fifo, log, round));
        }
        let next = self.roster.advance(&mut broadcast.sweep);
        match next {
            None => {
                proof {
                    let entry = Entry::<(), Arc<L>>::Swept(round);
                    lemma_push(fifo, log, entry);
                    assert(run(fifo, log) == self.roster.model());
                    lemma_sweep(fifo, log, round, bound, began.at());
                    lemma_received_in_turn(fifo, log.push(entry), round, bound, log.len() as int);
                    lemma_removals_push(fifo, log, round, entry);
                }
                broadcast.notify = P::Sealable::value() && broadcast.sweep.has_dropped()
                    && self.roster.is_empty();
                None
            },
            Some(id) => {
                broadcast.notify = false;
                proof {
                    let entry = Entry::<(), Arc<L>>::Delivered { round, id, content: () };
                    lemma_push(fifo, log, entry);
                    assert(run(fifo, log) == self.roster.model());
                    self.roster.lemma_wf();
                    lemma_guards(fifo, run(fifo, log), entry);
                    lemma_next(fifo, log, round, bound, began.at(), id);
                    lemma_removals_push(fifo, log, round, entry);
                }
                self.roster.enter(&mut broadcast.sweep, id, Ghost(()));
                let listener = self.roster.listener(id).unwrap().clone();
                Some(listener)
            },
        }
    }
}

impl<L, P: Policy + Default> Default for Registry<L, P> {
    fn default() -> (registry: Self)
        ensures
            registry.wf(),
            registry.log() == Seq::<Entry<(), Arc<L>>>::empty(),
            registry.depth() == 0,
            !registry.is_sealed(),
            registry.ref_count() == 1,
            registry.departing() == 0,
            registry.attached(),
            registry.standing() is None,
            call_ensures(P::default, (), registry.policy()),
    {
        Registry::new(P::default())
    }
}

impl<L, P: Policy<Sealable = No>> Registry<L, P> {
    /// A registry that cannot be sealed takes in every listener.
    pub proof fn law_never_sealed(&self)
        ensures
            !self.is_sealed(),
    {
    }
}

impl<L, P: Policy<Sealable = Yes>> Registry<L, P> {
    /// Seals the registry if it is empty. Once sealed, it takes in no listener any more.
    /// Returns whether it was empty, and so is sealed now.
    pub fn try_seal(&mut self) -> (empty: bool)
        requires
            old(self).wf(),
            old(self).model().open,
        ensures
            final(self).wf(),
            empty == (old(self).model().order.len() == 0),
            empty ==> final(self).is_sealed(),
            empty ==> final(self).log() == old(self).log().push(Entry::Sealed),
            empty ==> final(self).model() == (Model { sealed: true, ..old(self).model() }),
            !empty ==> *final(self) == *old(self),
            final(self).depth() == old(self).depth(),
            final(self).departing() == old(self).departing(),
            final(self).ref_count() == old(self).ref_count(),
            final(self).attached() == old(self).attached(),
            final(self).standing() == old(self).standing(),
            final(self).policy() == old(self).policy(),
    {
        let empty = self.roster.is_empty();
        if empty {
            proof {
                let entry = Entry::<(), Arc<L>>::Sealed;
                old(self).lemma_wf();
                lemma_push(P::Order::is_fifo(), old(self).log(), entry);
                lemma_guards(P::Order::is_fifo(), old(self).model(), entry);
            }
            self.roster.sealing();
            self.sealed = true;
        }
        empty
    }
}

impl Guard {
    /// The pointer to the listener. It may be already destructed, but the pointer stays
    /// valid: [`listener_at`](Registry::listener_at) tells what lies there.
    pub fn as_ptr(&self) -> (ptr: ListenerPtr)
        ensures
            ptr.node() == self.id(),
    {
        ListenerPtr::new(self.id)
    }

    /// Runs `f` on the listener, unless it has been, or is about to be, destructed. As the
    /// lock is held, the listener stays as it is until `f` is done.
    pub fn enter<L, P: Policy, U, F: FnOnce(&L) -> U>(
        &self,
        registry: &Registry<L, P>,
        f: F,
    ) -> (result: Option<U>)
        requires
            registry.wf(),
            registry.model().alive(self.id()) ==> f.requires(
                (&*registry.model().listeners[self.id()],),
            ),
        ensures
            result is Some <==> registry.model().alive(self.id()),
            result matches Some(u) ==> f.ensures((&*registry.model().listeners[self.id()],), u),
    {
        proof {
            registry.lemma_wf();
        }
        if registry.roster.is_alive(self.id) {
            let listener: &L = &**registry.roster.listener(self.id).unwrap();
            Some(f(listener))
        } else {
            None
        }
    }
}

/// The log once the dropping registry is done with the node at which it stands.
pub open spec fn buried<L>(
    log: Seq<Entry<(), Arc<L>>>,
    standing: Option<u64>,
) -> Seq<Entry<(), Arc<L>>> {
    match standing {
        Some(id) => log.push(Entry::Buried(id)),
        None => log,
    }
}

impl<L, P: Policy> Registry<L, P> {
    /// Begins to drop the registry: no listener counts as alive from here on.
    pub fn begin_drop(&mut self)
        requires
            old(self).wf(),
            old(self).model().open,
            old(self).depth() == 0,
        ensures
            final(self).wf(),
            final(self).log() == old(self).log().push(Entry::Closed),
            final(self).model() == old(self).model().apply(
                P::Order::is_fifo(),
                Entry::<(), Arc<L>>::Closed,
            ),
            final(self).depth() == 0,
            final(self).settled(*old(self)),
    {
        proof {
            self.lemma_wf();
            assert forall|id: u64| self.model().visits(id) == 0 by {
                assert(self.model().visits(id) <= self.depth());
            }
            let entry = Entry::<(), Arc<L>>::Closed;
            lemma_push(P::Order::is_fifo(), self.log(), entry);
            lemma_guards(P::Order::is_fifo(), self.model(), entry);
        }
        self.roster.close();
    }

    /// Goes on with dropping the registry, once the listener that was handed out last is
    /// destructed: its node is freed if its guard went meanwhile, and is left to its guard
    /// otherwise. Returns the next listener to destruct, if one is left.
    pub fn resume_drop(&mut self) -> (listener: Option<Arc<L>>)
        requires
            old(self).wf(),
            !old(self).model().open,
        ensures
            final(self).wf(),
            !final(self).model().open,
            listener is None <==> old(self).model().order.len() == 0,
            listener is None ==> {
                &&& final(self).log() == buried(old(self).log(), old(self).standing())
                &&& final(self).model().order.len() == 0
                &&& final(self).standing() is None
            },
            listener matches Some(l) ==> {
                let id = old(self).model().order[0];
                &&& l == old(self).model().listeners[id]
                &&& final(self).log() == buried(old(self).log(), old(self).standing()).push(
                    Entry::Detached(id),
                )
                &&& final(self).model().order == old(self).model().order.skip(1)
                &&& final(self).standing() == Some(id)
            },
            final(self).depth() == 0,
            final(self).departing() == old(self).departing(),
            final(self).ref_count() == old(self).ref_count(),
            final(self).attached() == old(self).attached(),
            final(self).is_sealed() == old(self).is_sealed(),
            final(self).policy() == old(self).policy(),
    {
        let ghost fifo = P::Order::is_fifo();
        let ghost m = self.model();
        let ghost mid = buried(self.log(), self.standing);
        proof {
            self.lemma_wf();
        }
        if let Some(id) = self.standing {
            proof {
                let entry = Entry::<(), Arc<L>>::Buried(id);
                assert(m.visits(id) > 0);
                lemma_push(fifo, self.log(), entry);
                lemma_guards(fifo, m, entry);
            }
            self.roster.bury(id);
        }
        let ghost n = run(fifo, mid);
        proof {
            self.roster.lemma_wf();
            assert(n.order == m.order);
            assert(n.listeners == m.listeners);
            assert(in_use_by_drop(n, None)) by {
                assert forall|x: u64| #[trigger] n.visits(x) > 0 <==> n.order.contains(x) by {
                    assert(m.visits(x) > 0 <==> m.order.contains(x) || self.standing == Some(x));
                }
            }
        }
        match self.roster.detach() {
            None => {
                self.standing = None;
                None
            },
            Some((id, listener)) => {
                self.standing = Some(id);
                proof {
                    let entry = Entry::<(), Arc<L>>::Detached(id);
                    lemma_push(fifo, mid, entry);
                    lemma_guards(fifo, n, entry);
                    lemma_handed_out(fifo, n);
                }
                Some(listener)
            },
        }
    }

    /// Whether the registry itself holds a reference.
    pub fn is_attached(&self) -> (attached: bool)
        ensures
            attached == self.attached(),
    {
        self.attached
    }

    /// Whether the dropping of the registry stands at a node whose listener it handed out.
    pub fn is_standing(&self) -> (standing: bool)
        ensures
            standing == (self.standing() is Some),
    {
        self.standing.is_some()
    }

    /// Gives back the registry's own reference, once all its listeners are destructed.
    /// Returns whether it was the last reference of all.
    pub fn finish_drop(&mut self) -> (last: bool)
        requires
            old(self).wf(),
            !old(self).model().open,
            old(self).model().order.len() == 0,
            old(self).standing() is None,
            old(self).attached(),
        ensures
            final(self).wf(),
            final(self).log() == old(self).log(),
            final(self).depth() == old(self).depth(),
            final(self).departing() == old(self).departing(),
            final(self).ref_count() == old(self).ref_count() - 1,
            !final(self).attached(),
            final(self).standing() is None,
            final(self).is_sealed() == old(self).is_sealed(),
            final(self).policy() == old(self).policy(),
            last == (final(self).ref_count() == 0),
    {
        self.attached = false;
        self.ref_count = self.ref_count - 1;
        self.ref_count == 0
    }
}

/// Dropping a guard does not change what a dropping registry has in use.
proof fn lemma_cancelled_during_drop<H>(fifo: bool, m: Model<H>, id: u64, standing: Option<u64>)
    requires
        m.inv(fifo),
        !m.open,
        m.held(id),
        in_use_by_drop(m, standing),
    ensures
        in_use_by_drop(m.cancel(id), standing),
{
    let n = m.cancel(id);
    assert(!m.slots[id].alive);
    assert forall|x: u64| #[trigger]
        n.visits(x) > 0 <==> n.order.contains(x) || standing == Some(x) by {
        assert(m.visits(x) > 0 <==> m.order.contains(x) || standing == Some(x));
    }
}

/// A dropping registry that takes the listener out of its first node stands there.
proof fn lemma_handed_out<H>(fifo: bool, m: Model<H>)
    requires
        m.inv(fifo),
        m.order.len() > 0,
        in_use_by_drop(m, None),
    ensures
        ({
            let id = m.order[0];
            in_use_by_drop(m.apply(fifo, Entry::<(), H>::Detached(id)), Some(id))
        }),
{
    let id = m.order[0];
    let n = m.apply(fifo, Entry::<(), H>::Detached(id));
    assert forall|x: u64| #[trigger] n.order.contains(x) <==> m.order.contains(x) && x != id by {
        if m.order.contains(x) && x != id {
            assert(n.order[m.order.index_of(x) - 1] == x);
        }
        if n.order.contains(x) {
            assert(m.order[n.order.index_of(x) + 1] == x);
        }
    }
    assert(m.order.contains(id));
    assert forall|x: u64| #[trigger]
        n.visits(x) > 0 <==> n.order.contains(x) || Some(id) == Some(x) by {
        assert(m.visits(x) > 0 <==> m.order.contains(x));
    }
}

/// A broadcast whose first step comes at once goes on to the next node.
proof fn lemma_next<H>(
    fifo: bool,
    log: Seq<Entry<(), H>>,
    round: nat,
    bound: nat,
    at: Option<u64>,
    id: u64,
)
    requires
        valid(fifo, log),
        tracks(fifo, log, round, bound, at),
        at is None ==> run(fifo, log).next_id == bound,
        is_next(fifo, run(fifo, log), at, Some(id)),
        run(fifo, log).inv(fifo),
    ensures
        tracks(
            fifo,
            log.push(Entry::Delivered { round, id, content: () }),
            round,
            bound,
            Some(id),
        ),
{
    assert(run(fifo, log).held(id));
    if let Some(c) = at {
        let k = choose|k: int|
            0 <= k < log.len() && of_round(#[trigger] log[k], round) && target(log[k]) == c;
        assert(of_round(log[k], round));
    }
    assert(in_scope(fifo, bound, id));
    lemma_deliver(fifo, log, round, bound, at, id, ());
}

proof fn lemma_guards_finite<H>(fifo: bool, m: Model<H>)
    requires
        m.inv(fifo),
    ensures
        guards(m).finite(),
{
    assert(guards(m).subset_of(m.slots.dom()));
    vstd::set_lib::lemma_set_subset_finite(m.slots.dom(), guards(m));
}

/// Only registering and cancelling change which guards there are.
proof fn lemma_guards<C, H>(fifo: bool, m: Model<H>, entry: Entry<C, H>)
    requires
        m.inv(fifo),
        m.enabled(entry),
    ensures
        guards(m.apply(fifo, entry)) == (match entry {
            Entry::Registered { id, listener } => guards(m).insert(id),
            Entry::Cancelled(id) => guards(m).remove(id),
            _ => guards(m),
        }),
        entry matches Entry::Registered { id, listener } ==> !guards(m).contains(id),
        entry matches Entry::Cancelled(id) ==> guards(m).contains(id),
        guards(m).finite(),
{
    lemma_guards_finite(fifo, m);
    let n = m.apply(fifo, entry);
    assert forall|id: u64| #[trigger]
        guards(n).contains(id) == (match entry {
            Entry::Registered { id: x, listener } => guards(m).insert(x),
            Entry::Cancelled(x) => guards(m).remove(x),
            _ => guards(m),
        }).contains(id) by {
        lemma_held_step(fifo, m, entry, id);
    }
    assert(guards(n) =~= (match entry {
        Entry::Registered { id, listener } => guards(m).insert(id),
        Entry::Cancelled(id) => guards(m).remove(id),
        _ => guards(m),
    }));
}

} // verus!
