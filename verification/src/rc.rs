//! A registry that only keeps handlers: each leaves the list without a search when its
//! guard is dropped, and all of them go with the registry.
use crate::chain::Chain;
use crate::history::enqueue;
use crate::order::LIFO;
use std::collections::HashMap;
use std::marker::PhantomData;
use vstd::prelude::*;

verus! {

broadcast use vstd::std_specs::hash::group_hash_axioms;

/// Handles events of type `T`.
pub trait Handler<T> {
    /// Receives an event.
    fn handle(&self, event: &T);
}

/// A list of handlers, the latest first.
pub struct Registry<T, H: Handler<T>> {
    chain: Chain<LIFO>,
    handlers: HashMap<u64, H>,
    next_id: u64,
    _p: PhantomData<T>,
}

/// The right to take one handler out of the list.
pub struct Guard {
    node: u64,
}

impl Guard {
    /// The node of the handler.
    pub closed spec fn id(&self) -> u64 {
        self.node
    }
}

impl<T, H: Handler<T>> Registry<T, H> {
    /// The nodes in the list, first to last.
    pub closed spec fn order(&self) -> Seq<u64> {
        self.chain.order()
    }

    /// The handlers, by node.
    pub closed spec fn handlers(&self) -> Map<u64, H> {
        self.handlers@
    }

    /// How many handlers were ever registered; nodes are numbered from 0 on.
    pub closed spec fn count(&self) -> nat {
        self.next_id as nat
    }

    /// The listed nodes are distinct and exactly those that have a handler.
    pub closed spec fn wf(&self) -> bool {
        &&& self.chain.wf()
        &&& self.order().no_duplicates()
        &&& self.chain.slots().dom() == self.handlers@.dom()
        &&& forall|id: u64| #[trigger]
            self.handlers@.contains_key(id) <==> self.order().contains(id)
        &&& forall|id: u64| #[trigger] self.handlers@.contains_key(id) ==> id < self.next_id
    }

    /// What follows from being well formed.
    pub proof fn lemma_wf(&self)
        requires
            self.wf(),
        ensures
            self.order().no_duplicates(),
            forall|id: u64| #[trigger]
                self.handlers().contains_key(id) <==> self.order().contains(id),
            forall|id: u64| #[trigger] self.handlers().contains_key(id) ==> id < self.count(),
    {
    }

    /// An empty registry.
    pub fn new() -> (registry: Self)
        ensures
            registry.wf(),
            registry.order() == Seq::<u64>::empty(),
            registry.handlers() == Map::<u64, H>::empty(),
            registry.count() == 0,
    {
        let registry = Registry {
            chain: Chain::new(),
            handlers: HashMap::new(),
            next_id: 0,
            _p: PhantomData,
        };
        assert(registry.handlers@ =~= Map::<u64, H>::empty());
        assert(registry.chain.slots().dom() =~= registry.handlers@.dom());
        registry
    }

    /// How many handlers were ever registered.
    pub fn registered(&self) -> (count: u64)
        ensures
            count == self.count(),
    {
        self.next_id
    }

    /// Puts a handler at the front of the list.
    pub fn register(&mut self, handler: H) -> (guard: Guard)
        requires
            old(self).wf(),
            old(self).count() < u64::MAX,
        ensures
            final(self).wf(),
            guard.id() == old(self).count(),
            final(self).order() == seq![guard.id()] + old(self).order(),
            final(self).handlers() == old(self).handlers().insert(guard.id(), handler),
            final(self).count() == old(self).count() + 1,
    {
        let id: u64 = self.next_id;
        assert(!self.chain.slots().contains_key(id)) by {
            assert(self.chain.slots().dom().contains(id) == self.handlers@.dom().contains(id));
        }
        self.chain.enqueue(id);
        self.handlers.insert(id, handler);
        self.next_id = id + 1;
        proof {
            self.chain.lemma_listed();
            let was = old(self).order();
            let now = self.order();
            assert(now == enqueue(false, was, id));
            assert(self.chain.slots().dom() =~= self.handlers@.dom());
            assert forall|x: u64| #[trigger]
                self.handlers@.contains_key(x) <==> now.contains(x) by {
                if was.contains(x) {
                    assert(now[was.index_of(x) + 1] == x);
                }
                assert(now[0] == id);
                if now.contains(x) && now.index_of(x) > 0 {
                    assert(was[now.index_of(x) - 1] == x);
                }
            }
        }
        Guard { node: id }
    }

    /// Drops a guard. The handler leaves the list and is handed out, to be destructed; if it
    /// was handed out before, by the dropping of the registry, nothing happens.
    pub fn cancel(&mut self, guard: Guard) -> (handler: Option<H>)
        requires
            old(self).wf(),
        ensures
            final(self).wf(),
            handler is Some <==> old(self).order().contains(guard.id()),
            handler matches Some(h) ==> {
                &&& h == old(self).handlers()[guard.id()]
                &&& final(self).order() == old(self).order().remove(
                    old(self).order().index_of(guard.id()),
                )
                &&& final(self).handlers() == old(self).handlers().remove(guard.id())
            },
            handler is None ==> final(self).order() == old(self).order() && final(self).handlers()
                == old(self).handlers(),
            final(self).count() == old(self).count(),
    {
        let id: u64 = guard.node;
        match self.handlers.remove(&id) {
            None => {
                assert(self.handlers@ =~= old(self).handlers@);
                None
            },
            Some(handler) => {
                self.chain.unlink(id);
                proof {
                    lemma_removed(old(self).order(), id);
                }
                self.chain.free(id);
                assert(self.chain.slots().dom() =~= self.handlers@.dom());
                Some(handler)
            },
        }
    }

    /// Begins to drop the registry, or goes on with it once the handler that was handed out
    /// last is destructed: the first handler leaves the list and is handed out, to be
    /// destructed. The registry is dropped when none is left. A guard that is dropped
    /// meanwhile takes its handler out as ever.
    pub fn resume_drop(&mut self) -> (handler: Option<H>)
        requires
            old(self).wf(),
        ensures
            final(self).wf(),
            handler is None <==> old(self).order().len() == 0,
            handler matches Some(h) ==> {
                &&& h == old(self).handlers()[old(self).order()[0]]
                &&& final(self).order() == old(self).order().skip(1)
                &&& final(self).handlers() == old(self).handlers().remove(old(self).order()[0])
            },
            handler is None ==> *final(self) == *old(self),
            final(self).count() == old(self).count(),
    {
        match self.chain.first() {
            None => None,
            Some(id) => {
                proof {
                    assert(self.order()[0] == id);
                    assert(self.order().contains(id));
                    assert(self.order().remove(0) =~= self.order().skip(1));
                }
                self.cancel(Guard { node: id })
            },
        }
    }
}

/// The nodes left in the list when the dropping of a registry has handed out `n` handlers,
/// with no guard dropped meanwhile.
pub open spec fn left_after(order: Seq<u64>, n: nat) -> Seq<u64>
    decreases n,
{
    if n == 0 {
        order
    } else {
        left_after(order, (n - 1) as nat).skip(1)
    }
}

/// Dropping a registry hands out all its handlers, each once, first to last.
pub proof fn law_drop_goes_through_the_list(order: Seq<u64>, n: nat)
    requires
        n <= order.len(),
    ensures
        n < order.len() ==> left_after(order, n).len() > 0 && left_after(order, n)[0]
            == order[n as int],
        left_after(order, n) == order.skip(n as int),
        n == order.len() ==> left_after(order, n).len() == 0,
    decreases n,
{
    if n > 0 {
        law_drop_goes_through_the_list(order, (n - 1) as nat);
    }
    assert(left_after(order, n) =~= order.skip(n as int));
}

/// A guard dropped while its registry is being dropped takes out its own handler at once, and
/// the others go on in the order in which they were.
pub proof fn law_cancel_during_drop(order: Seq<u64>, id: u64, i: int, j: int)
    requires
        order.no_duplicates(),
        order.contains(id),
        0 <= i < j < order.len(),
        order[i] != id,
        order[j] != id,
    ensures
        ({
            let rest = order.remove(order.index_of(id));
            &&& !rest.contains(id)
            &&& rest.contains(order[i])
            &&& rest.contains(order[j])
            &&& rest.index_of(order[i]) < rest.index_of(order[j])
        }),
{
    let k = order.index_of(id);
    let rest = order.remove(k);
    lemma_removed(order, id);
    assert(rest.contains(order[i]) && rest.contains(order[j]));
    let a = if i < k { i } else { i - 1 };
    let b = if j < k { j } else { j - 1 };
    assert(rest[a] == order[i]);
    assert(rest[b] == order[j]);
}

proof fn lemma_removed(order: Seq<u64>, id: u64)
    requires
        order.no_duplicates(),
        order.contains(id),
    ensures
        order.remove(order.index_of(id)).no_duplicates(),
        forall|x: u64| #[trigger]
            order.remove(order.index_of(id)).contains(x) <==> order.contains(x) && x != id,
{
    let k = order.index_of(id);
    let rest = order.remove(k);
    assert forall|x: u64| #[trigger] rest.contains(x) <==> order.contains(x) && x != id by {
        if rest.contains(x) {
            let i = rest.index_of(x);
            assert(order[if i < k { i } else { i + 1 }] == x);
        }
        if order.contains(x) && x != id {
            let i = order.index_of(x);
            assert(rest[if i < k { i } else { i - 1 }] == x);
        }
    }
}

/// Dropping the guard of a handler that was just registered restores the list.
pub proof fn law_cancel_undoes_register<H>(
    order: Seq<u64>,
    handlers: Map<u64, H>,
    id: u64,
    handler: H,
)
    requires
        !order.contains(id),
        !handlers.contains_key(id),
    ensures
        ({
            let longer = seq![id] + order;
            &&& longer.remove(longer.index_of(id)) == order
            &&& handlers.insert(id, handler).remove(id) == handlers
        }),
{
    let longer = seq![id] + order;
    assert(longer[0] == id);
    assert(longer.contains(id));
    let k = longer.index_of(id);
    assert(k == 0) by {
        if k > 0 {
            assert(order[k - 1] == id);
        }
    }
    assert(longer.remove(k) =~= order);
    assert(handlers.insert(id, handler).remove(id) =~= handlers);
}

/// A handler that was registered comes out by its guard, and leaves the registry as it was;
/// and it is the first to come out when the registry is dropped instead.
pub proof fn law_registered_handler_comes_out<T, H: Handler<T>>(
    registry: &mut Registry<T, H>,
    handler: H,
    guard: Guard,
    cancelled: &mut Registry<T, H>,
    by_guard: Option<H>,
    dropped: &mut Registry<T, H>,
    by_drop: Option<H>,
)
    requires
        old(registry).wf(),
        call_ensures(Registry::<T, H>::register, (registry, handler), guard),
        *old(cancelled) == *final(registry),
        call_ensures(Registry::<T, H>::cancel, (cancelled, guard), by_guard),
        *old(dropped) == *final(registry),
        call_ensures(Registry::<T, H>::resume_drop, (dropped,), by_drop),
    ensures
        guard.id() == old(registry).count(),
        final(registry).count() == old(registry).count() + 1,
        by_guard == Some(handler),
        final(cancelled).order() == old(registry).order(),
        final(cancelled).handlers() == old(registry).handlers(),
        by_drop == Some(handler),
        final(dropped).order() == old(registry).order(),
        final(dropped).handlers() == old(registry).handlers(),
{
    let id = guard.id();
    let order = old(registry).order();
    old(registry).lemma_wf();
    assert(!old(registry).handlers().contains_key(id));
    assert(!order.contains(id));
    law_cancel_undoes_register(order, old(registry).handlers(), id, handler);
    let longer = seq![id] + order;
    assert(longer[0] == id);
    assert(longer.contains(id));
    assert(longer.skip(1) =~= order);
}

/// What came out once, by its guard or by the drop, does not come out again; other handlers
/// are not touched.
pub proof fn law_handler_comes_out_once<T, H: Handler<T>>(
    registry: &mut Registry<T, H>,
    guard: Guard,
    handler: Option<H>,
    after: &mut Registry<T, H>,
    again: Guard,
    nothing: Option<H>,
    dropped: &mut Registry<T, H>,
    first: Option<H>,
    other: u64,
)
    requires
        old(registry).wf(),
        call_ensures(Registry::<T, H>::cancel, (registry, guard), handler),
        *old(after) == *final(registry),
        again.id() == guard.id(),
        call_ensures(Registry::<T, H>::cancel, (after, again), nothing),
        old(dropped).wf(),
        call_ensures(Registry::<T, H>::resume_drop, (dropped,), first),
    ensures
        handler is Some <==> old(registry).handlers().contains_key(guard.id()),
        handler is Some ==> handler == Some(old(registry).handlers()[guard.id()]),
        nothing is None,
        other != guard.id() ==> (final(registry).handlers().contains_key(other)
            <==> old(registry).handlers().contains_key(other)),
        first is None <==> old(dropped).order().len() == 0,
        first is Some ==> !final(dropped).handlers().contains_key(old(dropped).order()[0]),
        first is Some && other != old(dropped).order()[0] ==> (
        final(dropped).handlers().contains_key(other) <==> old(dropped).handlers().contains_key(
            other,
        )),
{
    old(registry).lemma_wf();
    final(registry).lemma_wf();
    if handler is Some {
        lemma_removed(old(registry).order(), guard.id());
    }
}

/// A new registry keeps no handler. The number of handlers that were ever registered is the one
/// that is answered.
pub proof fn law_new_registry<T, H: Handler<T>>(
    registry: Registry<T, H>,
    other: Registry<T, H>,
    registered: u64,
)
    requires
        call_ensures(Registry::<T, H>::new, (), registry),
        call_ensures(Registry::<T, H>::registered, (&other,), registered),
    ensures
        registry.wf(),
        registry.order().len() == 0,
        registry.count() == 0,
        registered == other.count(),
{
}

} // verus!
