//! What the steps of a shared registry come to, for the threads that make them: what each one
//! adds to the log, whom it hands out, and what is left to do. All of it is read off the log.
use crate::facts::{
    count, enrolled, law_alive_iff_present, law_calls_counted, law_empty_iff_vacant,
    law_guards_counted, law_left_by_the_drop, law_list_in_order,
    law_listener_is_the_registered_one, law_numbered_by_registration, law_registered_once,
    law_removals_are_taken, law_used_by_the_drop, present, registers, taken_by, vacant,
};
use crate::history::{
    is_next, later, lemma_called, lemma_inv, lemma_prefix, lemma_push, run, valid, Entry,
};
use crate::laws::{
    calls, law_no_call_after_cancel, law_uses_are_calls, lemma_closed_entry, lemma_split,
};
use crate::locked::{
    called, guards, Action, Broadcast, Departure, Guard, No, NoFlag,
    Policy, Registry, Sealable, Yes,
};
use crate::order::Order;
use crate::pointer::ListenerPtr;
use crate::rounds::{
    comes_to, law_received_iff_held_at_its_turn, law_round_undisturbed, lemma_sweep, of_round,
    received, target,
};
use crate::sweeping::nodes_of;
use std::sync::Arc;
use vstd::prelude::*;

verus! {

/// Whether the listeners, which were taken out of these nodes, are those that were registered
/// as them.
pub open spec fn as_registered<L>(log: Seq<Entry<(), Arc<L>>>, taken: Seq<(u64, Arc<L>)>) -> bool {
    forall|j: int, k: int|
        0 <= j < taken.len() && 0 <= k < log.len() && registers(
            #[trigger] log[k],
            (#[trigger] taken[j]).0,
        ) ==> taken[j].1 == log[k]->Registered_listener
}

proof fn lemma_departure_steps<L>(
    left: Departure<L>,
    steps: Seq<&mut Departure<L>>,
    actions: Seq<Action<L>>,
    i: int,
)
    requires
        0 <= i < steps.len(),
        steps.len() == actions.len(),
        *steps[0] == left,
        forall|i: int, j: int|
            #![trigger steps[i], steps[j]]
            0 <= i < j < steps.len() && j == i + 1 ==> *steps[j] == *final(steps[i]),
        forall|i: int| 0 <= i < steps.len() ==> call_ensures(
            Departure::<L>::next_action,
            (#[trigger] steps[i],),
            actions[i],
        ),
    ensures
        i < left.agenda().len() ==> (*steps[i]).agenda() == left.agenda().skip(i) && actions[i]
            == left.agenda()[i],
        i >= left.agenda().len() ==> (*steps[i]).agenda().len() == 0 && actions[i] is Done,
    decreases i,
{
    let all = left.agenda();
    assert(call_ensures(Departure::<L>::next_action, (steps[i],), actions[i]));
    if i > 0 {
        lemma_departure_steps(left, steps, actions, i - 1);
        assert(*steps[i] == *final(steps[i - 1]));
        assert(call_ensures(Departure::<L>::next_action, (steps[i - 1],), actions[i - 1]));
        if i - 1 < all.len() {
            assert(all.skip(i - 1).skip(1) =~= all.skip(i));
        }
    } else {
        assert(all.skip(0) =~= all);
    }
}

/// Dropping a guard of a shared registry, and what is then done without the lock, step by
/// step. If the registry is gone, or a call of the listener has not come back, the reference
/// is given back and that is all. Otherwise the listener is handed out to be destructed, after
/// that. If no one else is in the list, whatever its order, and the registry can be sealed,
/// the policy is told before all this.
pub proof fn law_shared_guard_dropped<L, P: Policy>(
    registry: &mut Registry<L, P>,
    guard: Guard,
    left: Departure<L>,
    sealable: bool,
    steps: Seq<&mut Departure<L>>,
    actions: Seq<Action<L>>,
    k: int,
    i: int,
)
    requires
        old(registry).wf(),
        0 <= k < old(registry).log().len(),
        registers(old(registry).log()[k], guard.id()),
        !old(registry).log().contains(Entry::Cancelled(guard.id())),
        call_ensures(Registry::<L, P>::cancel, (registry, guard), left),
        call_ensures(<P::Sealable as Sealable>::value, (), sealable),
        0 <= i < steps.len(),
        steps.len() == actions.len(),
        *steps[0] == left,
        forall|i: int, j: int|
            #![trigger steps[i], steps[j]]
            0 <= i < j < steps.len() && j == i + 1 ==> *steps[j] == *final(steps[i]),
        forall|i: int| 0 <= i < steps.len() ==> call_ensures(
            Departure::<L>::next_action,
            (#[trigger] steps[i],),
            actions[i],
        ),
    ensures
        ({
            let id = guard.id();
            let was = old(registry).log();
            let gone = was.push(Entry::Cancelled(id));
            let removed = !was.contains(Entry::Closed) && calls(was, id) == 0;
            let told = removed && sealable && vacant(gone);
            let n = if told {
                1int
            } else {
                0
            };
            &&& final(registry).log() == gone
            &&& final(registry).policy() == old(registry).policy()
            &&& final(registry).ref_count() == old(registry).ref_count()
            &&& final(registry).departing() == old(registry).departing() + 1
            &&& actions[i] == if told && i == 0 {
                Action::Tell
            } else if i == n {
                Action::Release
            } else if removed && i == n + 1 {
                Action::Destruct(was[k]->Registered_listener)
            } else {
                Action::Done
            }
        }),
{
    let fifo = P::Order::is_fifo();
    let start = *old(registry);
    let id = guard.id();
    let was = start.log();
    let m = start.model();
    let gone = was.push(Entry::Cancelled(id));
    start.lemma_wf();
    assert(enrolled(was, id));
    law_alive_iff_present(fifo, was, id);
    law_uses_are_calls(fifo, was, id);
    law_listener_is_the_registered_one(fifo, was, id, k);
    lemma_push(fifo, was, Entry::Cancelled(id));
    lemma_departure_steps(left, steps, actions, i);
    if !was.contains(Entry::Closed) && calls(was, id) == 0 {
        assert(m.order.contains(id));
        assert(m.listeners.contains_key(id));
        assert(!gone.contains(Entry::Closed)) by {
            if gone.contains(Entry::Closed) {
                let j = gone.index_of(Entry::Closed);
                assert(was[j] == Entry::<(), Arc<L>>::Closed);
            }
        }
        law_empty_iff_vacant(fifo, gone);
    }
}

/// What a step of a shared broadcast is. It looks for whom to call after `at`, if it called
/// anyone yet, and finds `next`: the first one in the list after that whose guard was not
/// dropped.
pub open spec fn finds<L>(
    fifo: bool,
    log: Seq<Entry<(), Arc<L>>>,
    at: Option<u64>,
    next: Option<u64>,
) -> bool {
    let eligible = |x: u64|
        enrolled(log, x) && !log.contains(Entry::Cancelled(x)) && (at is None || (if fifo {
            at->0 < x
        } else {
            at->0 > x
        }));
    match next {
        None => forall|x: u64| !#[trigger] eligible(x),
        Some(id) => eligible(id) && forall|x: u64| #[trigger]
            eligible(x) ==> (if fifo {
                id <= x
            } else {
                id >= x
            }),
    }
}

proof fn lemma_finds<L>(
    fifo: bool,
    log: Seq<Entry<(), Arc<L>>>,
    at: Option<u64>,
    next: Option<u64>,
)
    requires
        valid(fifo, log),
        is_next(fifo, run(fifo, log), at, next),
    ensures
        finds(fifo, log, at, next),
{
    let m = run(fifo, log);
    assert forall|x: u64| #[trigger] m.held(x) <==> enrolled(log, x) && !log.contains(
        Entry::Cancelled(x),
    ) by {
        law_alive_iff_present(fifo, log, x);
    }
    let eligible = |x: u64|
        enrolled(log, x) && !log.contains(Entry::Cancelled(x)) && (at is None || (if fifo {
            at->0 < x
        } else {
            at->0 > x
        }));
    assert forall|x: u64| #[trigger] eligible(x) implies m.held(x) && (at is None
        || later(fifo, at->0 as int, x as int)) by {
        assert(m.held(x) <==> enrolled(log, x) && !log.contains(Entry::Cancelled(x)));
    }
    if let Some(id) = next {
        assert(m.held(id));
        assert(eligible(id));
    }
}

/// Beginning a shared broadcast: the first one in the list whose guard was not dropped is
/// handed out to be called, as it was registered. If there is none, the broadcast has ended.
pub proof fn law_shared_broadcast_begins<L, P: Policy>(
    registry: &mut Registry<L, P>,
    begun: (Broadcast<L>, Option<Arc<L>>),
    k: int,
)
    requires
        old(registry).wf(),
        call_ensures(Registry::<L, P>::broadcast, (registry,), begun),
    ensures
        ({
            let fifo = P::Order::is_fifo();
            let was = old(registry).log();
            let round = count(was, |e: Entry<(), Arc<L>>| e is Begun) as nat;
            let open = was.push(Entry::Begun(round));
            let log = final(registry).log();
            &&& begun.0.round() == round
            &&& begun.0.bound() == count(was, |e: Entry<(), Arc<L>>| e is Registered)
            &&& final(registry).policy() == old(registry).policy()
            &&& final(registry).ref_count() == old(registry).ref_count()
            &&& final(registry).is_sealed() == old(registry).is_sealed()
            &&& begun.1 is None ==> log == open.push(Entry::Swept(round)) && finds(
                fifo,
                open,
                None,
                None,
            )
            &&& begun.1 matches Some(l) ==> {
                &&& log.len() == open.len() + 1
                &&& log.last() is Delivered
                &&& log == open.push(
                    Entry::Delivered { round, id: log.last()->Delivered_id, content: () },
                )
                &&& finds(fifo, open, None, Some(log.last()->Delivered_id))
                &&& begun.0.at() == Some(log.last()->Delivered_id)
                &&& 0 <= k < was.len() && registers(was[k], log.last()->Delivered_id) ==> l
                    == was[k]->Registered_listener
                &&& final(registry).running(begun.0)
            }
            &&& as_registered(log, begun.0.dropped())
        }),
{
    let fifo = P::Order::is_fifo();
    let start = *old(registry);
    let was = start.log();
    let round = start.model().rounds;
    let open = was.push(Entry::Begun(round));
    start.lemma_wf();
    final(registry).lemma_wf();
    law_numbered_by_registration(fifo, was);
    lemma_push(fifo, was, Entry::Begun(round));
    let log = final(registry).log();
    lemma_prefix(fifo, log, open.len() as int);
    assert(log.take(open.len() as int) =~= open);
    lemma_finds(
        fifo,
        open,
        None,
        if begun.1 is Some {
            begun.0.at()
        } else {
            None
        },
    );
    if begun.1 is Some {
        let id = begun.0.at()->0;
        assert(log.last() == Entry::<(), Arc<L>>::Delivered { round, id, content: () });
        lemma_inv(fifo, open);
        assert(run(fifo, open).listeners.contains_key(id)) by {
            assert(run(fifo, open).held(id));
            assert(run(fifo, open).order.contains(id));
        }
        if 0 <= k < was.len() && registers(was[k], id) {
            assert(open[k] == was[k]);
            law_listener_is_the_registered_one(fifo, open, id, k);
        }
    }
}

/// Going on with a shared broadcast: the call that was in progress has come back. The next one
/// in the list whose guard was not dropped is handed out to be called, as it was registered. If
/// there is none, the broadcast has ended. Whom it takes out of the list it keeps as they were
/// registered.
pub proof fn law_shared_broadcast_goes_on<L, P: Policy>(
    registry: &mut Registry<L, P>,
    broadcast: &mut Broadcast<L>,
    next: Option<Arc<L>>,
    k: int,
)
    requires
        old(registry).wf(),
        old(registry).running(*old(broadcast)),
        call_ensures(Registry::<L, P>::resume_broadcast, (registry, broadcast), next),
        as_registered(old(registry).log(), old(broadcast).dropped()),
    ensures
        ({
            let fifo = P::Order::is_fifo();
            let was = old(registry).log();
            let round = old(broadcast).round();
            let at = old(broadcast).at()->0;
            let back = was.push(Entry::Returned { round, id: at });
            let log = final(registry).log();
            &&& final(broadcast).round() == round
            &&& final(broadcast).bound() == old(broadcast).bound()
            &&& final(registry).policy() == old(registry).policy()
            &&& final(registry).ref_count() == old(registry).ref_count()
            &&& final(registry).is_sealed() == old(registry).is_sealed()
            &&& next is None ==> log == back.push(Entry::Swept(round)) && finds(
                fifo,
                back,
                Some(at),
                None,
            )
            &&& next matches Some(l) ==> {
                &&& log.len() == back.len() + 1
                &&& log.last() is Delivered
                &&& log == back.push(
                    Entry::Delivered { round, id: log.last()->Delivered_id, content: () },
                )
                &&& finds(fifo, back, Some(at), Some(log.last()->Delivered_id))
                &&& final(broadcast).at() == Some(log.last()->Delivered_id)
                &&& 0 <= k < was.len() && registers(was[k], log.last()->Delivered_id) ==> l
                    == was[k]->Registered_listener
                &&& final(registry).running(*final(broadcast))
            }
            &&& as_registered(log, final(broadcast).dropped())
        }),
{
    let fifo = P::Order::is_fifo();
    let start = *old(registry);
    let began = *old(broadcast);
    let ended = *final(broadcast);
    let was = start.log();
    let m = start.model();
    let round = began.round();
    let at = began.at()->0;
    let back = was.push(Entry::Returned { round, id: at });
    let log = final(registry).log();
    start.lemma_wf();
    final(registry).lemma_wf();
    assert(called(was, began) == back);
    lemma_prefix(fifo, log, back.len() as int);
    assert(log.take(back.len() as int) =~= back);
    lemma_finds(
        fifo,
        back,
        Some(at),
        if next is Some {
            ended.at()
        } else {
            None
        },
    );
    if next is Some {
        let id = ended.at()->0;
        assert(log.last() == Entry::<(), Arc<L>>::Delivered { round, id, content: () });
        lemma_inv(fifo, back);
        assert(run(fifo, back).listeners.contains_key(id)) by {
            assert(run(fifo, back).held(id));
            assert(run(fifo, back).open);
            assert(run(fifo, back).order.contains(id));
        }
        if 0 <= k < was.len() && registers(was[k], id) {
            assert(back[k] == was[k]);
            law_listener_is_the_registered_one(fifo, back, id, k);
        }
    }
    let taken = ended.dropped();
    lemma_called(fifo, m, round);
    assert forall|j: int, k: int|
        0 <= j < taken.len() && 0 <= k < log.len() && registers(
            #[trigger] log[k],
            (#[trigger] taken[j]).0,
        ) implies taken[j].1 == log[k]->Registered_listener by {
        assert(k < was.len());
        assert(log[k] == was[k]);
        if j < began.dropped().len() {
            assert(taken[j] == began.dropped()[j]);
        } else {
            assert(taken[j] == (at, m.listeners[at]));
            assert(m.listeners.contains_key(at));
            law_listener_is_the_registered_one(fifo, was, at, k);
        }
    }
}

proof fn lemma_broadcast_steps<L>(
    ended: Broadcast<L>,
    steps: Seq<&mut Broadcast<L>>,
    actions: Seq<Action<L>>,
    i: int,
)
    requires
        0 <= i < steps.len(),
        steps.len() == actions.len(),
        *steps[0] == ended,
        forall|i: int, j: int|
            #![trigger steps[i], steps[j]]
            0 <= i < j < steps.len() && j == i + 1 ==> *steps[j] == *final(steps[i]),
        forall|i: int| 0 <= i < steps.len() ==> call_ensures(
            Broadcast::<L>::next_action,
            (#[trigger] steps[i],),
            actions[i],
        ),
    ensures
        i < ended.agenda().len() ==> (*steps[i]).agenda() == ended.agenda().skip(i) && actions[i]
            == ended.agenda()[i],
        i >= ended.agenda().len() ==> (*steps[i]).agenda().len() == 0 && actions[i] is Done,
    decreases i,
{
    let all = ended.agenda();
    assert(call_ensures(Broadcast::<L>::next_action, (steps[i],), actions[i]));
    if i > 0 {
        lemma_broadcast_steps(ended, steps, actions, i - 1);
        assert(*steps[i] == *final(steps[i - 1]));
        assert(call_ensures(Broadcast::<L>::next_action, (steps[i - 1],), actions[i - 1]));
        if i - 1 < all.len() {
            assert(all.skip(i - 1).skip(1) =~= all.skip(i));
        }
    } else {
        assert(all.skip(0) =~= all);
    }
}

/// What is done without the lock after the end of a shared broadcast, step by step. If the
/// registry can be sealed, the end of one of its calls took someone out of the list, and no one
/// is left in it, whatever its order, the policy is told first. Then those whom it took out are
/// destructed, each as registered, the one taken out last before the others.
pub proof fn law_shared_broadcast_cleans_up<L, P: Policy>(
    registry: &mut Registry<L, P>,
    broadcast: &mut Broadcast<L>,
    sealable: bool,
    steps: Seq<&mut Broadcast<L>>,
    actions: Seq<Action<L>>,
    k: int,
    i: int,
)
    requires
        old(registry).wf(),
        old(registry).running(*old(broadcast)),
        call_ensures(
            Registry::<L, P>::resume_broadcast,
            (registry, broadcast),
            None::<Arc<L>>,
        ),
        call_ensures(<P::Sealable as Sealable>::value, (), sealable),
        as_registered(old(registry).log(), old(broadcast).dropped()),
        0 <= i < steps.len(),
        steps.len() == actions.len(),
        *steps[0] == *final(broadcast),
        forall|i: int, j: int|
            #![trigger steps[i], steps[j]]
            0 <= i < j < steps.len() && j == i + 1 ==> *steps[j] == *final(steps[i]),
        forall|i: int| 0 <= i < steps.len() ==> call_ensures(
            Broadcast::<L>::next_action,
            (#[trigger] steps[i],),
            actions[i],
        ),
    ensures
        ({
            let log = final(registry).log();
            let taken = taken_by(log, old(broadcast).round());
            let told = sealable && taken.len() > 0 && vacant(log.drop_last());
            let q = taken.len() - 1 - (if told {
                i - 1
            } else {
                i
            });
            if told && i == 0 {
                actions[i] is Tell
            } else if 0 <= q < taken.len() {
                &&& actions[i] is Destruct
                &&& 0 <= k < log.len() && registers(log[k], taken[q]) ==> actions[i]
                    == Action::Destruct(log[k]->Registered_listener)
            } else {
                actions[i] is Done
            }
        }),
{
    let fifo = P::Order::is_fifo();
    let start = *old(registry);
    let ended = *final(broadcast);
    let round = old(broadcast).round();
    let log = final(registry).log();
    let back = called(start.log(), *old(broadcast));
    final(registry).lemma_wf();
    law_shared_broadcast_goes_on(registry, broadcast, None, k);
    law_removals_are_taken(fifo, log, round);
    let taken = taken_by(log, round);
    assert(taken == nodes_of(ended.dropped()));
    assert(log.drop_last() =~= back);
    lemma_prefix(fifo, log, log.len() - 1);
    assert(log.take(log.len() - 1) =~= back);
    assert(log[log.len() - 1] == Entry::<(), Arc<L>>::Swept(round));
    lemma_closed_entry(fifo, back);
    law_empty_iff_vacant(fifo, back);
    lemma_broadcast_steps(ended, steps, actions, i);
}

/// While a broadcast is in progress there is nothing to do but its call, and asking changes
/// nothing.
pub proof fn law_nothing_to_do_while_calling<L, P: Policy>(
    registry: Registry<L, P>,
    step: &mut Broadcast<L>,
    action: Action<L>,
)
    requires
        registry.running(*old(step)),
        call_ensures(Broadcast::<L>::next_action, (step,), action),
    ensures
        action is Done,
        *final(step) == *old(step),
{
}

/// A broadcast that found no one to call leaves nothing to do.
pub proof fn law_shared_broadcast_to_no_one<L, P: Policy>(
    registry: &mut Registry<L, P>,
    begun: (Broadcast<L>, Option<Arc<L>>),
    step: &mut Broadcast<L>,
    action: Action<L>,
)
    requires
        old(registry).wf(),
        call_ensures(Registry::<L, P>::broadcast, (registry,), begun),
        begun.1 is None,
        *old(step) == begun.0,
        call_ensures(Broadcast::<L>::next_action, (step,), action),
    ensures
        action is Done,
{
}

/// Whom a shared broadcast has called when it ends, whatever other threads did meanwhile. The
/// calls followed the order of the list; so no one was called twice. No one was called whose
/// guard had been dropped. Everyone who was registered when it began was called, unless their
/// guard was dropped before anyone further down the list was called. Who was registered
/// meanwhile was called likewise when the first in is the first out, and not at all otherwise.
pub proof fn law_shared_broadcast_calls_everyone<L, P: Policy>(
    registry: &mut Registry<L, P>,
    broadcast: &mut Broadcast<L>,
    id: u64,
)
    requires
        old(registry).wf(),
        old(registry).running(*old(broadcast)),
        call_ensures(
            Registry::<L, P>::resume_broadcast,
            (registry, broadcast),
            None::<Arc<L>>,
        ),
    ensures
        ({
            let fifo = P::Order::is_fifo();
            let round = old(broadcast).round();
            let bound = old(broadcast).bound();
            let log = final(registry).log();
            let made = |i: int|
                0 <= i < log.len() && log[i] is Delivered && log[i]->Delivered_round == round;
            &&& forall|i: int, j: int|
                i < j && #[trigger] made(i) && #[trigger] made(j) ==> if fifo {
                    log[i]->Delivered_id < log[j]->Delivered_id
                } else {
                    log[i]->Delivered_id > log[j]->Delivered_id
                }
            &&& forall|i: int, c: int|
                #[trigger] made(i) && 0 <= c < i ==> #[trigger] log[c] != Entry::<
                    (),
                    Arc<L>,
                >::Cancelled(log[i]->Delivered_id)
            &&& !fifo ==> forall|i: int| #[trigger] made(i) ==> log[i]->Delivered_id < bound
            &&& id < bound || (fifo && enrolled(log, id)) ==> (exists|i: int| #[trigger]
                made(i) && log[i]->Delivered_id == id) || exists|c: int| {
                &&& 0 <= c < log.len()
                &&& #[trigger] log[c] == Entry::<(), Arc<L>>::Cancelled(id)
                &&& forall|j: int| #[trigger]
                    made(j) && (if fifo {
                        id < log[j]->Delivered_id
                    } else {
                        id > log[j]->Delivered_id
                    }) ==> c < j
            }
        }),
{
    let fifo = P::Order::is_fifo();
    let round = old(broadcast).round();
    let bound = old(broadcast).bound();
    let log = final(registry).log();
    let end = log.len() - 1;
    let made = |i: int|
        0 <= i < log.len() && log[i] is Delivered && log[i]->Delivered_round == round;
    final(registry).lemma_wf();
    let was = old(registry).log();
    let at = old(broadcast).at();
    let back = called(was, *old(broadcast));
    lemma_prefix(fifo, log, end);
    assert(log.take(end) =~= back);
    law_round_undisturbed(fifo, was, back, round, bound, at);
    assert forall|x: u64| at is None || later(fifo, at->0 as int, x as int) implies !#[trigger] run(
        fifo,
        back,
    ).held(x) by {}
    lemma_sweep(fifo, back, round, bound, at);
    assert forall|i: int| #[trigger] made(i) implies of_round(log[i], round) by {}
    assert forall|i: int, c: int| #[trigger] made(i) && 0 <= c < i implies #[trigger] log[c]
        != Entry::<(), Arc<L>>::Cancelled(log[i]->Delivered_id) by {
        if log[c] == Entry::<(), Arc<L>>::Cancelled(log[i]->Delivered_id) {
            law_no_call_after_cancel(fifo, log, c, i, log[i]->Delivered_id);
        }
    }
    if (id < bound || (fifo && enrolled(log, id))) && !exists|i: int| #[trigger]
        made(i) && log[i]->Delivered_id == id {
        law_registered_once(fifo, back, id);
        assert(enrolled(back, id) || id < bound) by {
            if enrolled(log, id) {
                let j = choose|j: int| 0 <= j < log.len() && registers(#[trigger] log[j], id);
                assert(registers(back[j], id));
            }
        }
        let turn = law_received_iff_held_at_its_turn(fifo, log, round, bound, end, id);
        if received(log, round, id) {
            let i = choose|i: int|
                0 <= i < log.len() && of_round(#[trigger] log[i], round) && target(log[i]) == id;
            assert(made(i));
        }
        let c = choose|c: int|
            0 <= c < turn && #[trigger] log[c] == Entry::<(), Arc<L>>::Cancelled(id);
        assert forall|j: int| #[trigger]
            made(j) && (if fifo {
                id < log[j]->Delivered_id
            } else {
                id > log[j]->Delivered_id
            }) implies c < j by {
            assert(of_round(log[j], round));
            assert(comes_to(fifo, log, round, end, id, j));
        }
        assert(log[c] == Entry::<(), Arc<L>>::Cancelled(id));
    }
}

/// Registering with a shared registry. It is refused exactly if an attempt to seal the registry
/// succeeded before, and then the listener comes back and nothing changes. Otherwise the
/// listener is put into the list as the next node, and its guard holds a reference.
pub proof fn law_shared_register<L, P: Policy>(
    registry: &mut Registry<L, P>,
    listener: L,
    result: Result<Guard, L>,
    other: u64,
)
    requires
        old(registry).wf(),
        !old(registry).log().contains(Entry::Closed),
        call_ensures(Registry::<L, P>::register, (registry, listener), result),
    ensures
        result is Err <==> old(registry).log().contains(Entry::Sealed),
        result matches Err(l) ==> l == listener && *final(registry) == *old(registry) && vacant(
            old(registry).log(),
        ),
        result matches Ok(guard) ==> {
            &&& guard.id() == count(old(registry).log(), |e: Entry<(), Arc<L>>| e is Registered)
            &&& exists|handle: Arc<L>|
                *handle == listener && #[trigger] old(registry).log().push(
                    Entry::Registered { id: guard.id(), listener: handle },
                ) == final(registry).log()
            &&& !present(old(registry).log(), guard.id())
            &&& present(final(registry).log(), other) <==> present(old(registry).log(), other)
                || other == guard.id()
            &&& final(registry).ref_count() == old(registry).ref_count() + 1
        },
        final(registry).policy() == old(registry).policy(),
        final(registry).departing() == old(registry).departing(),
        final(registry).attached() == old(registry).attached(),
{
    let fifo = P::Order::is_fifo();
    let start = *old(registry);
    let after = *final(registry);
    start.lemma_wf();
    after.lemma_wf();
    law_alive_iff_present(fifo, start.log(), other);
    if let Ok(guard) = result {
        let id = guard.id();
        law_numbered_by_registration(fifo, start.log());
        law_registered_once(fifo, start.log(), id);
        let entry = after.log().last();
        let handle = entry->Registered_listener;
        assert(after.log() =~= start.log().push(entry));
        assert(!after.log().contains(Entry::Closed)) by {
            if after.log().contains(Entry::Closed) {
                let i = after.log().index_of(Entry::Closed);
                assert(start.log()[i] == Entry::<(), Arc<L>>::Closed);
            }
        }
        lemma_push(fifo, start.log(), entry);
        law_alive_iff_present(fifo, start.log(), id);
        law_alive_iff_present(fifo, after.log(), id);
        law_alive_iff_present(fifo, after.log(), other);
        assert(start.log().push(Entry::Registered { id, listener: handle }) == after.log());
    } else {
        law_empty_iff_vacant(fifo, start.log());
    }
}

/// Sealing succeeds exactly if no one is in the list; otherwise nothing changes.
pub proof fn law_seal_iff_vacant<L, P: Policy<Sealable = Yes>>(
    registry: &mut Registry<L, P>,
    sealed: bool,
)
    requires
        old(registry).wf(),
        !old(registry).log().contains(Entry::Closed),
        call_ensures(Registry::<L, P>::try_seal, (registry,), sealed),
    ensures
        sealed <==> vacant(old(registry).log()),
        sealed ==> final(registry).log() == old(registry).log().push(Entry::Sealed),
        !sealed ==> *final(registry) == *old(registry),
        final(registry).policy() == old(registry).policy(),
        final(registry).ref_count() == old(registry).ref_count(),
{
    old(registry).lemma_wf();
    law_empty_iff_vacant(P::Order::is_fifo(), old(registry).log());
}

/// Which registries can be sealed, and what their gate lets through: all of those that cannot,
/// and of those that can, all that were not sealed.
pub proof fn law_gates<T, F: FnOnce() -> T>(f: F, flag: bool, no: Option<T>, yes: Option<T>)
    requires
        call_ensures(<No as Sealable>::gate_register::<T, F>, (NoFlag, f), no),
        call_ensures(<Yes as Sealable>::gate_register::<T, F>, (flag, f), yes),
    ensures
        forall|sealable: bool| #[trigger]
            call_ensures(<Yes as Sealable>::value, (), sealable) ==> sealable,
        forall|sealable: bool| #[trigger]
            call_ensures(<No as Sealable>::value, (), sealable) ==> !sealable,
        yes is None <==> flag,
        yes matches Some(t) ==> f.ensures((), t),
        no matches Some(t) && f.ensures((), t),
        forall|unsealed: bool| #[trigger]
            call_ensures(<Yes as Sealable>::unsealed, (), unsealed) ==> !unsealed,
{
}

/// Reaching a listener through its guard: the closure is run on the listener that was
/// registered, exactly if it is alive. So it is from its registration until its guard is
/// dropped and no call of it is in progress, or until the registry is dropped; calls in
/// progress are no obstacle.
pub proof fn law_enter_iff_alive<L, P: Policy, U, F: FnOnce(&L) -> U>(
    registry: Registry<L, P>,
    guard: Guard,
    f: F,
    result: Option<U>,
    k: int,
)
    requires
        registry.wf(),
        call_ensures(Guard::enter::<L, P, U, F>, (&guard, &registry, f), result),
        0 <= k < registry.log().len(),
        registers(registry.log()[k], guard.id()),
    ensures
        result is Some <==> !registry.log().contains(Entry::Closed) && (!registry.log().contains(
            Entry::Cancelled(guard.id()),
        ) || calls(registry.log(), guard.id()) > 0),
        result matches Some(u) ==> f.ensures((&*registry.log()[k]->Registered_listener,), u),
{
    let fifo = P::Order::is_fifo();
    registry.lemma_wf();
    assert(enrolled(registry.log(), guard.id()));
    law_alive_iff_present(fifo, registry.log(), guard.id());
    law_listener_is_the_registered_one(fifo, registry.log(), guard.id(), k);
    if registry.model().alive(guard.id()) {
        assert(registry.model().order.contains(guard.id()));
        assert(registry.model().listeners.contains_key(guard.id()));
    }
}

/// What a guard of a shared registry points to: as long as the registry is there, the listener
/// that was registered as its node if it is alive, and nothing otherwise.
pub proof fn law_shared_pointer_finds_the_listener<L, P: Policy>(
    registry: Registry<L, P>,
    guard: Guard,
    ptr: ListenerPtr,
    found: Option<&L>,
    k: int,
)
    requires
        registry.wf(),
        !registry.log().contains(Entry::Closed),
        call_ensures(Guard::as_ptr, (&guard,), ptr),
        call_ensures(Registry::<L, P>::listener_at, (&registry, ptr), found),
    ensures
        found is Some <==> present(registry.log(), guard.id()),
        found is Some && 0 <= k < registry.log().len() && registers(registry.log()[k], guard.id())
            ==> *found->0 == *registry.log()[k]->Registered_listener,
{
    let fifo = P::Order::is_fifo();
    registry.lemma_wf();
    law_alive_iff_present(fifo, registry.log(), guard.id());
    if 0 <= k < registry.log().len() && registers(registry.log()[k], guard.id()) {
        law_listener_is_the_registered_one(fifo, registry.log(), guard.id(), k);
    }
    assert(registry.model().listeners.contains_key(guard.id())
        <==> registry.model().order.contains(guard.id()));
}

/// What a shared registry answers about itself and a guard is what its log says.
pub proof fn law_shared_answers<L, P: Policy>(
    registry: Registry<L, P>,
    guard: Guard,
    empty: bool,
    open: bool,
    registered: u64,
    in_progress: usize,
    held: bool,
    hook: Arc<P>,
)
    requires
        registry.wf(),
        call_ensures(Registry::<L, P>::is_empty, (&registry,), empty),
        call_ensures(Registry::<L, P>::is_open, (&registry,), open),
        call_ensures(Registry::<L, P>::registered, (&registry,), registered),
        call_ensures(Registry::<L, P>::calls_in_progress, (&registry,), in_progress),
        call_ensures(Registry::<L, P>::holds, (&registry, &guard), held),
        call_ensures(Registry::<L, P>::hook, (&registry,), hook),
    ensures
        open <==> !registry.log().contains(Entry::Closed),
        open ==> (empty <==> vacant(registry.log())),
        registered == count(registry.log(), |e: Entry<(), Arc<L>>| e is Registered),
        open ==> in_progress == count(registry.log(), |e: Entry<(), Arc<L>>| e is Delivered)
            - count(registry.log(), |e: Entry<(), Arc<L>>| e is Returned),
        held <==> enrolled(registry.log(), guard.id()) && !registry.log().contains(
            Entry::Cancelled(guard.id()),
        ),
        *hook == registry.policy(),
{
    let fifo = P::Order::is_fifo();
    registry.lemma_wf();
    law_alive_iff_present(fifo, registry.log(), guard.id());
    law_numbered_by_registration(fifo, registry.log());
    if open {
        law_empty_iff_vacant(fifo, registry.log());
        law_calls_counted(fifo, registry.log());
    }
}

/// A broadcast in progress can always be gone on with.
pub proof fn law_running_can_resume<L, P: Policy>(
    registry: Registry<L, P>,
    broadcast: Broadcast<L>,
    resumable: bool,
)
    requires
        registry.wf(),
        registry.running(broadcast),
        call_ensures(Registry::<L, P>::can_resume, (&registry, &broadcast), resumable),
    ensures
        resumable,
{
    registry.lemma_wf();
    lemma_called(P::Order::is_fifo(), registry.model(), broadcast.round());
}

/// A broadcast of a registry cannot be gone on with once no call of the one whom it called
/// last is in progress.
pub proof fn law_idle_cannot_resume<L, P: Policy>(
    registry: Registry<L, P>,
    broadcast: Broadcast<L>,
    resumable: bool,
)
    requires
        registry.wf(),
        call_ensures(Registry::<L, P>::can_resume, (&registry, &broadcast), resumable),
    ensures
        resumable ==> !registry.log().contains(Entry::Closed) && broadcast.at() is Some && calls(
            registry.log(),
            broadcast.at()->0,
        ) > 0,
{
    let fifo = P::Order::is_fifo();
    registry.lemma_wf();
    law_alive_iff_present(fifo, registry.log(), broadcast.at()->0);
}

/// The steps are there for every thread: a registry that was not dropped takes in listeners and
/// begins broadcasts, as far as the machine counts; it begins to be dropped whenever no call is
/// in progress; and a guard can be dropped at any time, once.
pub proof fn law_shared_with_everyone<L, P: Policy>(
    registry: &mut Registry<L, P>,
    listener: L,
    guard: Guard,
)
    requires
        old(registry).wf(),
    ensures
        !old(registry).log().contains(Entry::Closed) && old(registry).depth() < usize::MAX / 4
            ==> call_requires(Registry::<L, P>::broadcast, (registry,)),
        !old(registry).log().contains(Entry::Closed) && count(
            old(registry).log(),
            |e: Entry<(), Arc<L>>| e is Registered,
        ) < u64::MAX && old(registry).ref_count() < usize::MAX ==> call_requires(
            Registry::<L, P>::register,
            (registry, listener),
        ),
        !old(registry).log().contains(Entry::Closed) && old(registry).depth() == 0
            ==> call_requires(Registry::<L, P>::begin_drop, (registry,)),
        old(registry).log().contains(Entry::Closed) ==> call_requires(
            Registry::<L, P>::resume_drop,
            (registry,),
        ),
        enrolled(old(registry).log(), guard.id()) && !old(registry).log().contains(
            Entry::Cancelled(guard.id()),
        ) ==> call_requires(Registry::<L, P>::cancel, (registry, guard)),
{
    let fifo = P::Order::is_fifo();
    old(registry).lemma_wf();
    law_alive_iff_present(fifo, old(registry).log(), guard.id());
    law_numbered_by_registration(fifo, old(registry).log());
}

/// The policy that does nothing is for registries that cannot be sealed, and serves the latest
/// first.
pub proof fn law_plain_shared_policy(sealable: bool)
    requires
        call_ensures(<<() as Policy>::Sealable as Sealable>::value, (), sealable),
    ensures
        !sealable,
        !<<() as Policy>::Order as Order>::is_fifo(),
{
}

/// There is a reference for each guard that was not dropped, for each that was dropped and has
/// not given it back, and for the registry itself until it has.
pub proof fn law_references_counted<L, P: Policy>(
    registry: Registry<L, P>,
    references: usize,
    departing: bool,
    attached: bool,
    standing: bool,
)
    requires
        registry.wf(),
        call_ensures(Registry::<L, P>::references, (&registry,), references),
        call_ensures(Registry::<L, P>::has_departing, (&registry,), departing),
        call_ensures(Registry::<L, P>::is_attached, (&registry,), attached),
        call_ensures(Registry::<L, P>::is_standing, (&registry,), standing),
    ensures
        references == count(registry.log(), |e: Entry<(), Arc<L>>| e is Registered) - count(
            registry.log(),
            |e: Entry<(), Arc<L>>| e is Cancelled,
        ) + registry.departing() + if attached {
            1int
        } else {
            0
        },
        departing <==> registry.departing() > 0,
        !registry.log().contains(Entry::Closed) ==> attached && !standing,
        standing <==> registry.standing() is Some,
{
    let fifo = P::Order::is_fifo();
    registry.lemma_wf();
    law_guards_counted(fifo, registry.log());
    lemma_closed_entry(fifo, registry.log());
    assert(guards(registry.model()) =~= Set::new(|id: u64| registry.model().held(id)));
}

/// Giving back a reference: it is the last one exactly if every guard was dropped and has given
/// back its reference, and so has the registry.
pub proof fn law_last_reference<L, P: Policy>(
    registry: &mut Registry<L, P>,
    dropped: &mut Registry<L, P>,
    last: bool,
    last_of_all: bool,
)
    requires
        old(registry).wf(),
        old(registry).departing() > 0,
        call_ensures(Registry::<L, P>::release, (registry,), last),
        old(dropped).wf(),
        old(dropped).attached(),
        call_ensures(Registry::<L, P>::finish_drop, (dropped,), last_of_all),
    ensures
        final(registry).log() == old(registry).log(),
        final(registry).departing() == old(registry).departing() - 1,
        final(registry).ref_count() == old(registry).ref_count() - 1,
        last <==> !final(registry).attached() && final(registry).departing() == 0 && count(
            final(registry).log(),
            |e: Entry<(), Arc<L>>| e is Registered,
        ) == count(final(registry).log(), |e: Entry<(), Arc<L>>| e is Cancelled),
        final(dropped).log() == old(dropped).log(),
        !final(dropped).attached(),
        final(dropped).ref_count() == old(dropped).ref_count() - 1,
        last_of_all <==> final(dropped).departing() == 0 && count(
            final(dropped).log(),
            |e: Entry<(), Arc<L>>| e is Registered,
        ) == count(final(dropped).log(), |e: Entry<(), Arc<L>>| e is Cancelled),
{
    let fifo = P::Order::is_fifo();
    let one = *final(registry);
    let two = *final(dropped);
    one.lemma_wf();
    two.lemma_wf();
    law_guards_counted(fifo, one.log());
    law_guards_counted(fifo, two.log());
    assert(guards(one.model()) =~= Set::new(|id: u64| one.model().held(id)));
    assert(guards(two.model()) =~= Set::new(|id: u64| two.model().held(id)));
}

/// Dropping a shared registry, from its beginning: no listener is alive from then on.
pub proof fn law_shared_drop_begins<L, P: Policy>(registry: &mut Registry<L, P>, id: u64)
    requires
        old(registry).wf(),
        call_ensures(Registry::<L, P>::begin_drop, (registry,), ()),
    ensures
        final(registry).log() == old(registry).log().push(Entry::Closed),
        !final(registry).model().alive(id),
        final(registry).model().held(id) == old(registry).model().held(id),
        final(registry).policy() == old(registry).policy(),
        final(registry).ref_count() == old(registry).ref_count(),
        final(registry).attached() == old(registry).attached(),
{
    let fifo = P::Order::is_fifo();
    let was = old(registry).log();
    let log = final(registry).log();
    old(registry).lemma_wf();
    final(registry).lemma_wf();
    law_alive_iff_present(fifo, was, id);
    law_alive_iff_present(fifo, log, id);
    assert(log[was.len() as int] == Entry::<(), Arc<L>>::Closed);
    lemma_split(log, Entry::Cancelled(id));
    assert(log.drop_last() =~= was);
    law_registered_once(fifo, was, id);
    law_registered_once(fifo, log, id);
    lemma_push(fifo, was, Entry::Closed);
}

/// Going on with dropping a shared registry: of those who were in the list when it began and
/// were not handed out since, the first one is handed out, as registered, to be destructed. If
/// there is none, that is the end of it.
pub proof fn law_shared_drop_goes_on<L, P: Policy>(
    registry: &mut Registry<L, P>,
    listener: Option<Arc<L>>,
    c: int,
    id: u64,
    k: int,
)
    requires
        old(registry).wf(),
        0 <= c < old(registry).log().len(),
        old(registry).log()[c] == Entry::<(), Arc<L>>::Closed,
        call_ensures(Registry::<L, P>::resume_drop, (registry,), listener),
        present(old(registry).log().take(c), id),
        !old(registry).log().contains(Entry::Detached(id)),
        0 <= k < old(registry).log().len(),
    ensures
        ({
            let fifo = P::Order::is_fifo();
            let was = old(registry).log();
            let log = final(registry).log();
            let first = log.last()->Detached_0;
            &&& listener is Some
            &&& log.last() is Detached
            &&& present(was.take(c), first)
            &&& !was.contains(Entry::Detached(first))
            &&& if fifo {
                first <= id
            } else {
                first >= id
            }
            &&& registers(was[k], first) ==> listener == Some(was[k]->Registered_listener)
            &&& log == (match old(registry).standing() {
                Some(x) => was.push(Entry::Buried(x)),
                None => was,
            }).push(Entry::Detached(first))
            &&& final(registry).standing() == Some(first)
        }),
{
    let fifo = P::Order::is_fifo();
    let start = *old(registry);
    let was = start.log();
    let order = start.model().order;
    start.lemma_wf();
    lemma_closed_entry(fifo, was);
    assert(was.contains(Entry::Closed));
    law_left_by_the_drop(fifo, was, c, id);
    let first = order[0];
    assert(order.contains(first));
    law_left_by_the_drop(fifo, was, c, first);
    let x = order.index_of(id);
    if x > 0 {
        law_list_in_order(fifo, was, 0, x);
    }
    if registers(was[k], first) {
        law_listener_is_the_registered_one(fifo, was, first, k);
        assert(start.model().listeners.contains_key(first));
    }
}

/// A shared registry that is being dropped hands out no one whom it handed out before, nor
/// anyone who was not in the list when it began.
pub proof fn law_shared_drop_ends<L, P: Policy>(
    registry: &mut Registry<L, P>,
    listener: Option<Arc<L>>,
    c: int,
)
    requires
        old(registry).wf(),
        0 <= c < old(registry).log().len(),
        old(registry).log()[c] == Entry::<(), Arc<L>>::Closed,
        call_ensures(Registry::<L, P>::resume_drop, (registry,), listener),
        forall|id: u64| #[trigger]
            present(old(registry).log().take(c), id) ==> old(registry).log().contains(
                Entry::Detached(id),
            ),
    ensures
        listener is None,
        final(registry).log() == (match old(registry).standing() {
            Some(x) => old(registry).log().push(Entry::Buried(x)),
            None => old(registry).log(),
        }),
        final(registry).standing() is None,
{
    let fifo = P::Order::is_fifo();
    let was = old(registry).log();
    let order = old(registry).model().order;
    old(registry).lemma_wf();
    if order.len() > 0 {
        assert(order.contains(order[0]));
        law_left_by_the_drop(fifo, was, c, order[0]);
    }
}

/// A new shared registry has the policy that it was made with and one reference, and nothing
/// has happened to it.
pub proof fn law_new_shared_registry<L, P: Policy>(policy: P, registry: Registry<L, P>)
    requires
        call_ensures(Registry::<L, P>::new, (policy,), registry),
    ensures
        registry.wf(),
        registry.log().len() == 0,
        registry.policy() == policy,
        registry.ref_count() == 1,
        registry.attached(),
        registry.departing() == 0,
        registry.depth() == 0,
        !registry.is_sealed(),
{
}

/// What a shared registry answers once it is dropped: who was in its list then, and was not
/// handed out since, is still in it. It stands at the one whom it handed out and is not done
/// with. No call is in progress.
pub proof fn law_shared_answers_after_drop<L, P: Policy>(
    registry: Registry<L, P>,
    guard: Guard,
    c: int,
    empty: bool,
    in_progress: usize,
    ptr: ListenerPtr,
    found: Option<&L>,
    standing: bool,
)
    requires
        registry.wf(),
        0 <= c < registry.log().len(),
        registry.log()[c] == Entry::<(), Arc<L>>::Closed,
        call_ensures(Registry::<L, P>::is_empty, (&registry,), empty),
        call_ensures(Registry::<L, P>::calls_in_progress, (&registry,), in_progress),
        call_ensures(Guard::as_ptr, (&guard,), ptr),
        call_ensures(Registry::<L, P>::listener_at, (&registry, ptr), found),
        call_ensures(Registry::<L, P>::is_standing, (&registry,), standing),
    ensures
        in_progress == 0,
        found is Some <==> present(registry.log().take(c), guard.id()) && !registry.log().contains(
            Entry::Detached(guard.id()),
        ),
        empty <==> forall|id: u64| #[trigger]
            present(registry.log().take(c), id) ==> registry.log().contains(Entry::Detached(id)),
        standing <==> exists|id: u64| #[trigger]
            present(registry.log().take(c), id) && registry.log().contains(Entry::Detached(id))
                && !registry.log().contains(Entry::Buried(id)),
{
    let fifo = P::Order::is_fifo();
    let log = registry.log();
    let order = registry.model().order;
    registry.lemma_wf();
    assert(log.contains(Entry::Closed));
    law_alive_iff_present(fifo, log, guard.id());
    law_left_by_the_drop(fifo, log, c, guard.id());
    if order.len() > 0 {
        assert(order.contains(order[0]));
        law_left_by_the_drop(fifo, log, c, order[0]);
    } else {
        assert forall|id: u64| #[trigger] present(log.take(c), id) implies log.contains(
            Entry::Detached(id),
        ) by {
            law_left_by_the_drop(fifo, log, c, id);
            assert(!order.contains(id));
        }
    }
    if let Some(x) = registry.standing() {
        law_left_by_the_drop(fifo, log, c, x);
        law_used_by_the_drop(fifo, log, c, x);
        assert(registry.model().visits(x) > 0);
        assert(present(log.take(c), x));
    }
    if exists|id: u64| #[trigger]
        present(log.take(c), id) && log.contains(Entry::Detached(id)) && !log.contains(
            Entry::Buried(id),
        ) {
        let x = choose|id: u64| #[trigger]
            present(log.take(c), id) && log.contains(Entry::Detached(id)) && !log.contains(
                Entry::Buried(id),
            );
        law_left_by_the_drop(fifo, log, c, x);
        law_used_by_the_drop(fifo, log, c, x);
        assert(registry.model().visits(x) > 0);
    }
}

/// A shared registry made by default has a default policy, and nothing has happened to it.
pub proof fn law_default_shared_registry<L, P: Policy + Default>(registry: Registry<L, P>)
    requires
        call_ensures(<Registry<L, P> as Default>::default, (), registry),
    ensures
        registry.wf(),
        registry.log().len() == 0,
        registry.depth() == 0,
        registry.ref_count() == 1,
        registry.attached(),
        !registry.is_sealed(),
        call_ensures(P::default, (), registry.policy()),
{
}

} // verus!
