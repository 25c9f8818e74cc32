//! What the operations of a registry for a single thread come to, for those who use them: what
//! each one adds to the log, and what it runs. All of it is read off the log and the
//! relations by which listeners and policies say what they do.
use crate::course::{
    arrived, broadcast_course, removed_by, serves, sweeps, unwinds_at, winds_up_at,
};
use crate::event::EventFamily;
use crate::facts::{
    count, enrolled, law_alive_iff_present, law_empty_iff_vacant, law_list_in_order,
    law_calls_counted, law_left_by_the_drop, law_listed_when_idle,
    law_listener_is_the_registered_one, law_numbered_by_registration, law_registered_once,
    law_removals_are_taken, lemma_count_same, present, registers, taken_by, vacant,
};
use crate::frames::{
    law_broadcast_adds_nothing_else, law_close_adds_nothing_else, law_quiet_broadcast,
    law_quiet_close, lemma_arrived_on_the_way, quiet,
};
use crate::history::{
    before, lemma_inv, lemma_prefix, lemma_push, lemma_remove, run, valid, Entry,
};
use crate::laws::{
    calls, law_destructed_once, law_held_until_cancelled, law_no_call_after_cancel,
    law_nothing_alive_after_close, law_uses_are_calls,
};
use crate::local::{Guard, Listener, Policy, Registry, Visit};
use crate::order::Order;
use crate::pointer::ListenerPtr;
use crate::places::{all_apart, apart_from, lemma_places};
use crate::rounds::{
    comes_to, concluded, destructed_before, law_received_iff_held_at_its_turn, lemma_monotone,
    lemma_round_begun, of_round, received, since_round, target,
};
use std::rc::Rc;
use vstd::prelude::*;

verus! {

/// Dropping a guard. If the registry is gone, or a call of the listener has not come back,
/// that is all. Otherwise the listener's destructor is run, once. If no one else is in the
/// list, whatever its order, the policy is told first, once and at once. Nothing else is done.
pub proof fn law_guard_dropped<T: EventFamily, L: Listener<T, P>, P: Policy<T, L>>(
    guard: Guard,
    registry: &mut Registry<T, L, P, P::Order>,
    k: int,
)
    requires
        old(registry).wf(),
        0 <= k < old(registry).log().len(),
        registers(old(registry).log()[k], guard.id()),
        !old(registry).log().contains(Entry::Cancelled(guard.id())),
        call_ensures(Guard::cancel::<T, L, P>, (guard, registry), ()),
    ensures
        ({
            let id = guard.id();
            let was = old(registry).log();
            let listener = was[k]->Registered_listener;
            let gone = was.push(Entry::Cancelled(id));
            let policy = old(registry).policy();
            let after = *final(registry);
            if was.contains(Entry::Closed) || calls(was, id) > 0 {
                after.log() == gone && after.policy() == policy
            } else if vacant(gone) {
                exists|
                    told: Registry<T, L, P, P::Order>,
                    hushed: Registry<T, L, P, P::Order>,
                    first: Registry<T, L, P, P::Order>,
                | {
                    &&& told.log() == gone.push(Entry::Notified)
                    &&& told.policy() == policy
                    &&& #[trigger] P::told(told, hushed)
                    &&& first.log() == hushed.log().push(Entry::Destructed(id))
                    &&& first.policy() == hushed.policy()
                    &&& #[trigger] listener.destructed(first, after)
                    &&& after.log()[gone.len() as int] == Entry::<T::Content, Rc<L>>::Notified
                }
            } else {
                exists|first: Registry<T, L, P, P::Order>| {
                    &&& first.log() == gone.push(Entry::Destructed(id))
                    &&& first.policy() == policy
                    &&& #[trigger] listener.destructed(first, after)
                }
            }
        }),
{
    let fifo = P::Order::is_fifo();
    let start = *old(registry);
    let after = *final(registry);
    let id = guard.id();
    let was = start.log();
    let m = start.model();
    let gone = was.push(Entry::Cancelled(id));
    let done = choose|done: Seq<Visit<Registry<T, L, P, P::Order>>>| #[trigger]
        after.cancelled(start, id, done);
    assert(after.cancelled(start, id, done));
    let turns = Registry::<T, L, P, P::Order>::turns(done);
    start.lemma_wf();
    assert(enrolled(was, id));
    law_alive_iff_present(fifo, was, id);
    law_listener_is_the_registered_one(fifo, was, id, k);
    lemma_push(fifo, was, Entry::Cancelled(id));
    if !was.contains(Entry::Closed) && calls(was, id) <= 0 {
        law_uses_are_calls(fifo, was, id);
        assert(m.order.contains(id));
        assert(m.listeners.contains_key(id));
        lemma_remove(fifo, m, id);
        assert(!gone.contains(Entry::Closed)) by {
            if gone.contains(Entry::Closed) {
                let i = gone.index_of(Entry::Closed);
                assert(was[i] == Entry::<T::Content, Rc<L>>::Closed);
            }
        }
        law_empty_iff_vacant(fifo, gone);
        let n = run(fifo, gone);
        assert(n.pending.contains_key(id));
        assert(n.pending[id] == was[k]->Registered_listener);
        assert(Registry::<T, L, P, P::Order>::answered_at(start, done, 0));
        if vacant(gone) {
            assert(Registry::<T, L, P, P::Order>::answered_at(start, done, 1));
            let told = done[0].first;
            let hushed = done[0].last;
            let first = done[1].first;
            assert(turns[0].follows(gone, Entry::Notified));
            assert(turns[1].follows(turns[0].last, Entry::Destructed(id)));
            assert(hushed.resumed(told));
            assert(first.log().drop_last() =~= hushed.log());
            assert(told.log().drop_last() =~= gone);
            lemma_push(fifo, gone, Entry::Notified);
            assert(hushed.model().pending == told.model().pending);
            assert(P::told(told, hushed));
            assert(was[k]->Registered_listener.destructed(first, after));
            assert(after.log()[gone.len() as int] == told.log()[gone.len() as int]) by {
                assert(first.log().is_prefix_of(after.log()));
                assert(first.log()[gone.len() as int] == hushed.log()[gone.len() as int]);
            }
        } else {
            let first = done[0].first;
            assert(turns[0].follows(gone, Entry::Destructed(id)));
            assert(first.log().drop_last() =~= gone);
            assert(was[k]->Registered_listener.destructed(first, after));
        }
    }
}

/// The calls of a broadcast do nothing in its name.
proof fn lemma_calls_apart<T: EventFamily, L: Listener<T, P>, P: Policy<T, L>>(
    start: Registry<T, L, P, P::Order>,
    after: Registry<T, L, P, P::Order>,
    done: Seq<Visit<Registry<T, L, P, P::Order>>>,
    n: int,
)
    requires
        start.wf(),
        after.wf(),
        after.broadcasted(start, done, n),
        start.log().is_prefix_of(after.log()),
    ensures
        valid(P::Order::is_fifo(), after.log()),
        broadcast_course(
            P::Order::is_fifo(),
            start.log(),
            Registry::<T, L, P, P::Order>::turns(done),
            n,
            after.log(),
        ),
        all_apart(Registry::<T, L, P, P::Order>::turns(done), start.model().rounds),
        n <= done.len(),
        forall|j: int|
            0 <= j < done.len() ==> (#[trigger] done[j]).last.log().is_prefix_of(after.log())
                && done[j].first.log().is_prefix_of(after.log()) && done[j].first.log().len() > 0,
{
    let fifo = P::Order::is_fifo();
    let round = start.model().rounds;
    let turns = Registry::<T, L, P, P::Order>::turns(done);
    let end = after.log();
    let s = start.log().len() as int;
    start.lemma_wf();
    after.lemma_wf();
    law_broadcast_adds_nothing_else(fifo, start.log(), turns, n, end);
    lemma_arrived_on_the_way(fifo, start.log(), turns, n, end, 0);
    let begun = start.log().push(Entry::Begun(round));
    lemma_push(fifo, start.log(), Entry::Begun(round));
    assert forall|j: int| 0 <= j < done.len() implies (#[trigger] done[j]).last.log().is_prefix_of(
        end,
    ) && done[j].first.log().is_prefix_of(end) && done[j].first.log().len() > s && apart_from(
        turns[j],
        round,
    ) by {
        assert(Registry::<T, L, P, P::Order>::answered_at(start, done, j));
        let first = done[j].first.log();
        let last = done[j].last.log();
        assert(turns[j].last.is_prefix_of(end));
        assert(done[j].last.resumed(done[j].first));
        assert(first =~= end.take(first.len() as int)) by {
            assert forall|i: int| 0 <= i < first.len() implies first[i] == #[trigger] end[i] by {
                assert(first[i] == last[i]);
            }
        }
        assert(serves(fifo, start.log(), round, turns, 0)) by {
            if n == 0 {
                assert(removed_by(fifo, turns, n).len() == 0);
            }
        }
        assert(turns[0].first.len() == s + 2);
        assert(Registry::<T, L, P, P::Order>::answered_at(start, done, 0));
        if j > 0 {
            assert(turns[0].last.len() < turns[j].first.len());
        }
        lemma_prefix(fifo, end, first.len() as int);
        lemma_monotone(fifo, first, s + 1);
        assert(first.take(s + 1) =~= begun);
        assert forall|i: int| first.len() <= i < last.len() implies since_round(
            #[trigger] last[i],
            round + 1,
        ) by {
            assert(since_round(last[i], done[j].first.model().rounds));
        }
    }
}

/// Every delivery of a broadcast is a call of the listener that was registered as that node,
/// with what a clone of the event says: at any depth of nesting, in either order of the list,
/// and whatever else goes on. The call is made at the entry that stands for the delivery, and
/// the entry after what it did is that of its return.
#[verifier::rlimit(40)]
pub proof fn law_delivery_is_a_call<T: EventFamily, L: Listener<T, P>, P: Policy<T, L>>(
    registry: &mut Registry<T, L, P, P::Order>,
    event: T::Event<'_>,
    i: int,
    k: int,
)
    requires
        old(registry).wf(),
        call_ensures(Registry::<T, L, P, P::Order>::broadcast, (registry, event), ()),
        0 <= i < final(registry).log().len(),
        0 <= k < final(registry).log().len(),
        final(registry).log()[i] is Delivered,
        final(registry).log()[i]->Delivered_round == count(
            old(registry).log(),
            |e: Entry<T::Content, Rc<L>>| e is Begun,
        ),
        registers(final(registry).log()[k], final(registry).log()[i]->Delivered_id),
    ensures
        ({
            let log = final(registry).log();
            let listener = log[k]->Registered_listener;
            let content = log[i]->Delivered_content;
            exists|called: Registry<T, L, P, P::Order>, back: Registry<T, L, P, P::Order>| {
                &&& called.log() == log.take(i + 1)
                &&& #[trigger] listener.accepted(content, called, back)
                &&& back.resumed(called)
                &&& back.log().is_prefix_of(log)
                &&& back.log().len() < log.len()
                &&& log[back.log().len() as int] == Entry::<T::Content, Rc<L>>::Returned {
                    round: log[i]->Delivered_round,
                    id: log[i]->Delivered_id,
                }
            }
        }),
        exists|copy: T::Event<'_>|
            cloned(event, copy) && #[trigger] T::content(copy)
                == final(registry).log()[i]->Delivered_content,
        k < i,
{
    let fifo = P::Order::is_fifo();
    let start = *old(registry);
    let after = *final(registry);
    let log = after.log();
    let round = start.model().rounds;
    let (done, n) = choose|done: Seq<Visit<Registry<T, L, P, P::Order>>>, n: int| #[trigger]
        after.broadcasted(start, done, n);
    let turns = Registry::<T, L, P, P::Order>::turns(done);
    start.lemma_wf();
    law_numbered_by_registration(fifo, start.log());
    lemma_calls_apart(start, after, done, n);
    lemma_places(fifo, start.log(), turns, n, log);
    assert(of_round(log[i], round));
    let j = choose|j: int| 0 <= j < n && (#[trigger] turns[j]).first.len() == i + 1;
    assert(turns[j].first.len() == i + 1);
    let called = done[j].first;
    let back = done[j].last;
    let id = log[i]->Delivered_id;
    assert(Registry::<T, L, P, P::Order>::answered_at(start, done, j));
    assert(called.log() =~= log.take(i + 1));
    assert(called.log().last() == log[i]);
    lemma_prefix(fifo, log, i + 1);
    lemma_prefix(fifo, log, i);
    lemma_inv(fifo, log.take(i));
    law_registered_once(fifo, log.take(i), id);
    law_registered_once(fifo, log, id);
    assert(before(fifo, log, i).held(id));
    let k0 = choose|k0: int| 0 <= k0 < log.take(i).len() && registers(#[trigger] log.take(i)[k0], id);
    assert(registers(log[k0], id));
    assert(called.log()[k] == log[k]);
    law_listener_is_the_registered_one(fifo, called.log(), id, k);
    assert(called.model().listeners.contains_key(id)) by {
        assert(before(fifo, log, i).order.contains(id));
    }
    assert(log[k]->Registered_listener.accepted(log[i]->Delivered_content, called, back));
    lemma_arrived_on_the_way(fifo, start.log(), turns, n, log, j + 1);
    let next = arrived(start.log(), round, turns, j + 1);
    assert(next.last() == log[next.len() - 1]);
    assert(turns[j].target() == id);
}

/// Whom a broadcast calls. The calls follow the order of the list; so no one is called twice.
/// No one is called whose guard was dropped before. Everyone who was registered when it began
/// is called, unless their guard was dropped before anyone further down the list was called,
/// and before the end. Who is registered meanwhile is called likewise when the first in is the
/// first out, and not at all otherwise.
#[verifier::rlimit(40)]
pub proof fn law_broadcast_calls_everyone<T: EventFamily, L: Listener<T, P>, P: Policy<T, L>>(
    registry: &mut Registry<T, L, P, P::Order>,
    event: T::Event<'_>,
    end: int,
    id: u64,
)
    requires
        old(registry).wf(),
        call_ensures(Registry::<T, L, P, P::Order>::broadcast, (registry, event), ()),
        0 <= end < final(registry).log().len(),
        final(registry).log()[end] == Entry::<T::Content, Rc<L>>::Swept(
            count(old(registry).log(), |e: Entry<T::Content, Rc<L>>| e is Begun) as nat,
        ),
    ensures
        ({
            let fifo = P::Order::is_fifo();
            let round = count(old(registry).log(), |e: Entry<T::Content, Rc<L>>| e is Begun);
            let log = final(registry).log();
            let made = |i: int|
                0 <= i < log.len() && log[i] is Delivered && log[i]->Delivered_round == round;
            &&& old(registry).log().len() < end
            &&& log[old(registry).log().len() as int] == Entry::<T::Content, Rc<L>>::Begun(
                round as nat,
            )
            &&& forall|i: int| #[trigger] made(i) ==> old(registry).log().len() < i < end
            &&& forall|i: int, j: int|
                i < j && #[trigger] made(i) && #[trigger] made(j) ==> if fifo {
                    log[i]->Delivered_id < log[j]->Delivered_id
                } else {
                    log[i]->Delivered_id > log[j]->Delivered_id
                }
            &&& forall|i: int, c: int|
                #[trigger] made(i) && 0 <= c < i ==> #[trigger] log[c] != Entry::<
                    T::Content,
                    Rc<L>,
                >::Cancelled(log[i]->Delivered_id)
            &&& forall|i: int| #[trigger]
                made(i) ==> enrolled(
                    if fifo {
                        log.take(i)
                    } else {
                        old(registry).log()
                    },
                    log[i]->Delivered_id,
                )
            &&& enrolled(
                if fifo {
                    log.take(end)
                } else {
                    old(registry).log()
                },
                id,
            ) ==> (exists|
                i: int,
            | #[trigger] made(i) && log[i]->Delivered_id == id) || exists|c: int| {
                &&& 0 <= c < end
                &&& #[trigger] log[c] == Entry::<T::Content, Rc<L>>::Cancelled(id)
                &&& forall|j: int| #[trigger]
                    made(j) && (if fifo {
                        id < log[j]->Delivered_id
                    } else {
                        id > log[j]->Delivered_id
                    }) ==> c < j
            }
        }),
{
    let fifo = P::Order::is_fifo();
    let start = *old(registry);
    let after = *final(registry);
    let log = after.log();
    let round = start.model().rounds;
    let bound = start.model().next_id;
    let s = start.log().len() as int;
    let made = |i: int|
        0 <= i < log.len() && log[i] is Delivered && log[i]->Delivered_round == round;
    let (done, n) = choose|done: Seq<Visit<Registry<T, L, P, P::Order>>>, n: int| #[trigger]
        after.broadcasted(start, done, n);
    let turns = Registry::<T, L, P, P::Order>::turns(done);
    start.lemma_wf();
    after.lemma_wf();
    law_numbered_by_registration(fifo, start.log());
    lemma_calls_apart(start, after, done, n);
    lemma_places(fifo, start.log(), turns, n, log);
    let e0 = choose|e0: int| s <= e0 && #[trigger] concluded(fifo, log, round, bound, e0);
    assert(e0 == end);
    lemma_arrived_on_the_way(fifo, start.log(), turns, n, log, 0);
    assert(log[s] == arrived(start.log(), round, turns, 0)[s]);
    assert(log.take(s) =~= start.log());
    assert forall|i: int| #[trigger] made(i) implies of_round(log[i], round) && s < i < end by {
        assert(of_round(log[i], round));
        if i < s {
            assert(log[i] == start.log()[i]);
            lemma_round_begun(fifo, start.log(), i, round);
        }
    }
    assert forall|i: int, c: int| #[trigger] made(i) && 0 <= c < i implies #[trigger] log[c]
        != Entry::<T::Content, Rc<L>>::Cancelled(log[i]->Delivered_id) by {
        if log[c] == Entry::<T::Content, Rc<L>>::Cancelled(log[i]->Delivered_id) {
            law_no_call_after_cancel(fifo, log, c, i, log[i]->Delivered_id);
        }
    }
    assert forall|i: int| #[trigger] made(i) implies enrolled(
        if fifo {
            log.take(i)
        } else {
            start.log()
        },
        log[i]->Delivered_id,
    ) by {
        assert(of_round(log[i], round));
        let x = log[i]->Delivered_id;
        lemma_prefix(fifo, log, i);
        lemma_inv(fifo, log.take(i));
        law_registered_once(fifo, log.take(i), x);
        law_registered_once(fifo, start.log(), x);
        assert(before(fifo, log, i).held(x));
    }
    let whom = if fifo { log.take(end) } else { start.log() };
    if enrolled(whom, id) && !exists|i: int| #[trigger] made(i) && log[i]->Delivered_id == id {
        lemma_prefix(fifo, log, end);
        law_registered_once(fifo, whom, id);
        let turn = law_received_iff_held_at_its_turn(fifo, log, round, bound, end, id);
        if received(log, round, id) {
            let i = choose|i: int|
                0 <= i < log.len() && of_round(#[trigger] log[i], round) && target(log[i]) == id;
            assert(made(i));
        }
        let c = choose|c: int|
            0 <= c < turn && #[trigger] log[c] == Entry::<T::Content, Rc<L>>::Cancelled(id);
        assert forall|j: int| #[trigger]
            made(j) && (if fifo {
                id < log[j]->Delivered_id
            } else {
                id > log[j]->Delivered_id
            }) implies c < j by {
            assert(of_round(log[j], round));
            assert(comes_to(fifo, log, round, end, id, j));
        }
        assert(log[c] == Entry::<T::Content, Rc<L>>::Cancelled(id));
    }
}

/// How a broadcast ends, once. If the end of one of its calls took someone out of the list,
/// and no one is left in it, whatever its order, the policy is told, at once. Otherwise it is
/// not told.
pub proof fn law_broadcast_tells_when_emptied<T: EventFamily, L: Listener<T, P>, P: Policy<T, L>>(
    registry: &mut Registry<T, L, P, P::Order>,
    event: T::Event<'_>,
    end: int,
)
    requires
        old(registry).wf(),
        call_ensures(Registry::<T, L, P, P::Order>::broadcast, (registry, event), ()),
        0 <= end < final(registry).log().len(),
        final(registry).log()[end] == Entry::<T::Content, Rc<L>>::Swept(
            count(old(registry).log(), |e: Entry<T::Content, Rc<L>>| e is Begun) as nat,
        ),
    ensures
        ({
            let round = count(old(registry).log(), |e: Entry<T::Content, Rc<L>>| e is Begun) as nat;
            let log = final(registry).log();
            let emptied = taken_by(log, round).len() > 0 && vacant(log.take(end));
            &&& old(registry).log().len() < end
            &&& forall|i: int|
                0 <= i < log.len() && #[trigger] log[i] == Entry::<T::Content, Rc<L>>::Swept(
                    round,
                ) ==> i == end
            &&& emptied <==> end + 1 < log.len() && log[end + 1] == Entry::<
                T::Content,
                Rc<L>,
            >::Notified
            &&& emptied ==> exists|
                told: Registry<T, L, P, P::Order>,
                hushed: Registry<T, L, P, P::Order>,
            | {
                &&& told.log() == log.take(end + 2)
                &&& #[trigger] P::told(told, hushed)
                &&& hushed.resumed(told)
                &&& hushed.log().is_prefix_of(log)
            }
        }),
{
    let fifo = P::Order::is_fifo();
    let start = *old(registry);
    let after = *final(registry);
    let log = after.log();
    let round = start.model().rounds;
    let s = start.log().len() as int;
    let (done, n) = choose|done: Seq<Visit<Registry<T, L, P, P::Order>>>, n: int| #[trigger]
        after.broadcasted(start, done, n);
    let turns = Registry::<T, L, P, P::Order>::turns(done);
    let came = arrived(start.log(), round, turns, n);
    let swept = came.push(Entry::Swept(round));
    let bound = start.model().next_id;
    let e0 = choose|e0: int| s <= e0 && #[trigger] concluded(fifo, log, round, bound, e0);
    start.lemma_wf();
    after.lemma_wf();
    law_numbered_by_registration(fifo, start.log());
    lemma_calls_apart(start, after, done, n);
    lemma_places(fifo, start.log(), turns, n, log);
    law_removals_are_taken(fifo, log, round);
    assert(e0 == end);
    lemma_arrived_on_the_way(fifo, start.log(), turns, n, log, 0);
    assert(log[s] == arrived(start.log(), round, turns, 0)[s]);
    lemma_vacant_at(fifo, log, end);
    assert(log.take(end) =~= came);
    if taken_by(log, round).len() > 0 && vacant(came) {
        assert(Registry::<T, L, P, P::Order>::answered_at(start, done, n));
        assert(turns[n].follows(swept, Entry::Notified));
        assert(done[n].first.log().is_prefix_of(log));
        assert(done[n].first.log() =~= log.take(end + 2));
        assert(P::told(done[n].first, done[n].last));
    }
}

/// Whether the list was empty when the entry was made is read off the log before it.
proof fn lemma_vacant_at<C, H>(fifo: bool, log: Seq<Entry<C, H>>, i: int)
    requires
        valid(fifo, log),
        0 <= i < log.len(),
        log[i] is Swept,
    ensures
        before(fifo, log, i).order.len() == 0 <==> vacant(log.take(i)),
{
    lemma_prefix(fifo, log, i);
    law_alive_iff_present(fifo, log.take(i), 0);
    law_empty_iff_vacant(fifo, log.take(i));
}

/// A broadcast makes a call for each destructor of those whom it took out.
proof fn lemma_unwound<T: EventFamily, L: Listener<T, P>, P: Policy<T, L>>(
    start: Registry<T, L, P, P::Order>,
    after: Registry<T, L, P, P::Order>,
    done: Seq<Visit<Registry<T, L, P, P::Order>>>,
    n: int,
    q: int,
) -> (j: int)
    requires
        start.wf(),
        after.wf(),
        after.broadcasted(start, done, n),
        start.log().is_prefix_of(after.log()),
        0 <= q < taken_by(after.log(), start.model().rounds).len(),
    ensures
        ({
            let round = start.model().rounds;
            let came = arrived(
                start.log(),
                round,
                Registry::<T, L, P, P::Order>::turns(done),
                n,
            );
            &&& 0 <= j < done.len()
            &&& Registry::<T, L, P, P::Order>::answered_at(start, done, j)
            &&& done[j].first.log().is_prefix_of(after.log())
            &&& done[j].last.log().is_prefix_of(after.log())
            &&& done[j].first.log().len() > came.len() + 1
            &&& done[j].first.log().last() == Entry::<T::Content, Rc<L>>::Destructed(
                taken_by(after.log(), round)[q],
            )
        }),
{
    let fifo = P::Order::is_fifo();
    let log = after.log();
    let round = start.model().rounds;
    let turns = Registry::<T, L, P, P::Order>::turns(done);
    let came = arrived(start.log(), round, turns, n);
    let swept = came.push(Entry::Swept(round));
    lemma_calls_apart(start, after, done, n);
    lemma_places(fifo, start.log(), turns, n, log);
    law_removals_are_taken(fifo, log, round);
    let taken = taken_by(log, round);
    let told = taken.len() > 0 && run(fifo, came).order.len() == 0;
    let from = if told { n + 1 } else { n };
    let first = if told { turns[n].last } else { swept };
    let j = from + taken.len() - 1 - q;
    assert(unwinds_at(first, turns, from, taken, j));
    assert(Registry::<T, L, P, P::Order>::answered_at(start, done, j));
    assert(done[j].first.log().is_prefix_of(log));
    law_broadcast_adds_nothing_else(fifo, start.log(), turns, n, log);
    if told {
        assert(turns[n].follows(swept, Entry::Notified));
        assert(turns[n].last.len() < turns[j].first.len());
    } else if j > n {
        assert(unwinds_at(first, turns, from, taken, n));
        assert(turns[n].last.len() < turns[j].first.len());
    }
    j
}

proof fn lemma_unwound_as_registered<T: EventFamily, L: Listener<T, P>, P: Policy<T, L>>(
    start: Registry<T, L, P, P::Order>,
    after: Registry<T, L, P, P::Order>,
    end: int,
    q: int,
    k: int,
)
    requires
        start.wf(),
        after.wf(),
        exists|done: Seq<Visit<Registry<T, L, P, P::Order>>>, n: int| #[trigger]
            after.broadcasted(start, done, n),
        start.log().is_prefix_of(after.log()),
        0 <= end < after.log().len(),
        after.log()[end] == Entry::<T::Content, Rc<L>>::Swept(start.model().rounds),
        0 <= q < taken_by(after.log(), start.model().rounds).len(),
        0 <= k < after.log().len(),
        registers(after.log()[k], taken_by(after.log(), start.model().rounds)[q]),
    ensures
        exists|first: Registry<T, L, P, P::Order>, last: Registry<T, L, P, P::Order>| {
            &&& first.log().is_prefix_of(after.log())
            &&& first.log().len() > end + 1
            &&& first.log().last() == Entry::<T::Content, Rc<L>>::Destructed(
                taken_by(after.log(), start.model().rounds)[q],
            )
            &&& #[trigger] after.log()[k]->Registered_listener.destructed(first, last)
            &&& last.resumed(first)
            &&& last.log().is_prefix_of(after.log())
        },
{
    let fifo = P::Order::is_fifo();
    let log = after.log();
    let (done, n) = choose|done: Seq<Visit<Registry<T, L, P, P::Order>>>, n: int| #[trigger]
        after.broadcasted(start, done, n);
    after.lemma_wf();
    lemma_calls_apart(start, after, done, n);
    lemma_places(fifo, start.log(), Registry::<T, L, P, P::Order>::turns(done), n, log);
    let j = lemma_unwound(start, after, done, n, q);
    let first = done[j].first;
    let id = taken_by(log, start.model().rounds)[q];
    let p = first.log().len() - 1;
    assert(log[p] == first.log()[p]);
    lemma_destructed_is_registered(fifo, log, p, id, k);
    assert(first.log().drop_last() =~= log.take(p));
    assert(log[k]->Registered_listener.destructed(first, done[j].last));
}

/// After the end of a broadcast the destructors of those whom it took out of the list are
/// run, each of the listener that was registered as that node.
pub proof fn law_broadcast_destructs_what_it_took<T: EventFamily, L: Listener<T, P>, P: Policy<T, L>>(
    registry: &mut Registry<T, L, P, P::Order>,
    event: T::Event<'_>,
    end: int,
    q: int,
    k: int,
)
    requires
        old(registry).wf(),
        call_ensures(Registry::<T, L, P, P::Order>::broadcast, (registry, event), ()),
        0 <= end < final(registry).log().len(),
        final(registry).log()[end] == Entry::<T::Content, Rc<L>>::Swept(
            count(old(registry).log(), |e: Entry<T::Content, Rc<L>>| e is Begun) as nat,
        ),
        0 <= q < taken_by(
            final(registry).log(),
            count(old(registry).log(), |e: Entry<T::Content, Rc<L>>| e is Begun) as nat,
        ).len(),
        0 <= k < final(registry).log().len(),
        registers(
            final(registry).log()[k],
            taken_by(
                final(registry).log(),
                count(old(registry).log(), |e: Entry<T::Content, Rc<L>>| e is Begun) as nat,
            )[q],
        ),
    ensures
        ({
            let round = count(old(registry).log(), |e: Entry<T::Content, Rc<L>>| e is Begun) as nat;
            let log = final(registry).log();
            let id = taken_by(log, round)[q];
            let listener = log[k]->Registered_listener;
            exists|first: Registry<T, L, P, P::Order>, last: Registry<T, L, P, P::Order>| {
                &&& first.log().is_prefix_of(log)
                &&& first.log().len() > end + 1
                &&& first.log().last() == Entry::<T::Content, Rc<L>>::Destructed(id)
                &&& #[trigger] listener.destructed(first, last)
                &&& last.resumed(first)
                &&& last.log().is_prefix_of(log)
            }
        }),
{
    let fifo = P::Order::is_fifo();
    let start = *old(registry);
    let after = *final(registry);
    let log = after.log();
    let round = start.model().rounds;
    start.lemma_wf();
    law_numbered_by_registration(fifo, start.log());
    lemma_unwound_as_registered(start, after, end, q, k);
}

/// The listener that is destructed is the one that was registered as that node.
proof fn lemma_destructed_is_registered<C, H>(
    fifo: bool,
    log: Seq<Entry<C, H>>,
    p: int,
    id: u64,
    k: int,
)
    requires
        valid(fifo, log),
        0 <= p < log.len(),
        0 <= k < log.len(),
        log[p] == Entry::<C, H>::Destructed(id),
        registers(log[k], id),
    ensures
        k < p,
        before(fifo, log, p).pending.contains_key(id),
        before(fifo, log, p).pending[id] == log[k]->Registered_listener,
{
    lemma_prefix(fifo, log, p);
    lemma_inv(fifo, log.take(p));
    law_registered_once(fifo, log.take(p), id);
    law_registered_once(fifo, log, id);
    assert(before(fifo, log, p).pending.contains_key(id));
    let k0 = choose|k0: int|
        0 <= k0 < log.take(p).len() && registers(#[trigger] log.take(p)[k0], id);
    assert(registers(log[k0], id));
    assert(log.take(p)[k] == log[k]);
    law_listener_is_the_registered_one(fifo, log.take(p), id, k);
}

/// Of those whom a broadcast took out of the list, the one taken out later is destructed
/// earlier.
pub proof fn law_broadcast_destructs_the_last_first<T: EventFamily, L: Listener<T, P>, P: Policy<T, L>>(
    registry: &mut Registry<T, L, P, P::Order>,
    event: T::Event<'_>,
    q: int,
    r: int,
    i: int,
    j: int,
)
    requires
        old(registry).wf(),
        call_ensures(Registry::<T, L, P, P::Order>::broadcast, (registry, event), ()),
        0 <= i < final(registry).log().len(),
        0 <= j < final(registry).log().len(),
        ({
            let round = count(old(registry).log(), |e: Entry<T::Content, Rc<L>>| e is Begun) as nat;
            let log = final(registry).log();
            let taken = taken_by(log, round);
            &&& 0 <= q < r < taken.len()
            &&& log[i] == Entry::<T::Content, Rc<L>>::Destructed(taken[q])
            &&& log[j] == Entry::<T::Content, Rc<L>>::Destructed(taken[r])
        }),
    ensures
        j < i,
{
    let fifo = P::Order::is_fifo();
    let start = *old(registry);
    let after = *final(registry);
    let log = after.log();
    let round = start.model().rounds;
    let bound = start.model().next_id;
    start.lemma_wf();
    after.lemma_wf();
    law_numbered_by_registration(fifo, start.log());
    law_removals_are_taken(fifo, log, round);
    let taken = taken_by(log, round);
    let e0 = choose|e0: int|
        start.log().len() <= e0 && #[trigger] concluded(fifo, log, round, bound, e0);
    assert(destructed_before(log, taken[r], taken[q]));
    let (a, b) = choose|a: int, b: int|
        0 <= a < b < log.len() && #[trigger] log[a] == Entry::<T::Content, Rc<L>>::Destructed(
            taken[r],
        ) && #[trigger] log[b] == Entry::<T::Content, Rc<L>>::Destructed(taken[q]);
    law_destructed_once(fifo, log, a, j, taken[r]);
    law_destructed_once(fifo, log, b, i, taken[q]);
}

/// A broadcast comes to an end.
pub proof fn law_broadcast_ends<T: EventFamily, L: Listener<T, P>, P: Policy<T, L>>(
    registry: &mut Registry<T, L, P, P::Order>,
    event: T::Event<'_>,
)
    requires
        old(registry).wf(),
        call_ensures(Registry::<T, L, P, P::Order>::broadcast, (registry, event), ()),
    ensures
        old(registry).log().is_prefix_of(final(registry).log()),
        exists|end: int|
            0 <= end < final(registry).log().len() && #[trigger] final(registry).log()[end]
                == Entry::<T::Content, Rc<L>>::Swept(
                count(old(registry).log(), |e: Entry<T::Content, Rc<L>>| e is Begun) as nat,
            ),
{
    let fifo = P::Order::is_fifo();
    let start = *old(registry);
    let after = *final(registry);
    start.lemma_wf();
    law_numbered_by_registration(fifo, start.log());
    let end = choose|end: int|
        start.log().len() <= end && #[trigger] concluded(
            fifo,
            after.log(),
            start.model().rounds,
            start.model().next_id,
            end,
        );
    assert(after.log()[end] == Entry::<T::Content, Rc<L>>::Swept(start.model().rounds));
}

/// How much a policy holds of something after the first `k` of the calls that were made, of
/// which `n` are those of listeners, and the next one is that of the policy if it is `told`.
proof fn lemma_adds_up<T: EventFamily, L: Listener<T, P>, P: Policy<T, L>>(
    start: Registry<T, L, P, P::Order>,
    done: Seq<Visit<Registry<T, L, P, P::Order>>>,
    amount: spec_fn(P) -> int,
    a: int,
    t: int,
    d: int,
    n: int,
    told: bool,
    k: int,
)
    requires
        Registry::<T, L, P, P::Order>::answered_all(start, done),
        0 <= k <= done.len(),
        0 <= n,
        forall|j: int|
            0 <= j < done.len() ==> (#[trigger] done[j]).first.log().last() is Delivered == (j < n),
        forall|j: int|
            0 <= j < done.len() ==> (#[trigger] done[j]).first.log().last() is Notified == (told && j
                == n),
        forall|
            l: L,
            c: T::Content,
            before: Registry<T, L, P, P::Order>,
            after: Registry<T, L, P, P::Order>,
        | #[trigger]
            l.accepted(c, before, after) ==> amount(after.policy()) == amount(before.policy()) + a,
        forall|before: Registry<T, L, P, P::Order>, after: Registry<T, L, P, P::Order>| #[trigger]
            P::told(before, after) ==> amount(after.policy()) == amount(before.policy()) + t,
        forall|
            l: L,
            before: Registry<T, L, P, P::Order>,
            after: Registry<T, L, P, P::Order>,
        | #[trigger]
            l.destructed(before, after) ==> amount(after.policy()) == amount(before.policy()) + d,
    ensures
        amount(start.policy_after(done.take(k))) == amount(start.policy()) + (if k <= n {
            a * k
        } else if told {
            a * n + t + d * (k - n - 1)
        } else {
            a * n + d * (k - n)
        }),
    decreases k,
{
    if k > 0 {
        lemma_adds_up(start, done, amount, a, t, d, n, told, k - 1);
        assert(Registry::<T, L, P, P::Order>::answered_at(start, done, k - 1));
        assert(done.take(k).last() == done[k - 1]);
        if k > 1 {
            assert(done.take(k - 1).last() == done[k - 2]);
        }
        assert(a * k == a * (k - 1) + a) by (nonlinear_arith);
        assert(d * (k - n - 1) == d * (k - n - 2) + d) by (nonlinear_arith);
        assert(d * (k - n) == d * (k - n - 1) + d) by (nonlinear_arith);
        if k - 1 < n {
            assert(done[k - 1].first.log().last() is Delivered);
        } else {
            assert(!(done[k - 1].first.log().last() is Delivered));
            if k - 1 == n {
                assert(d * (k - n - 1) == 0) by (nonlinear_arith)
                    requires
                        k - 1 == n,
                ;
            }
        }
    } else {
        assert(a * k == 0) by (nonlinear_arith)
            requires
                k == 0,
        ;
    }
}

/// Which of the calls of a broadcast are those of listeners, and which that of the policy.
proof fn lemma_kinds_of_calls<T: EventFamily, L: Listener<T, P>, P: Policy<T, L>>(
    start: Registry<T, L, P, P::Order>,
    after: Registry<T, L, P, P::Order>,
    done: Seq<Visit<Registry<T, L, P, P::Order>>>,
    n: int,
    end: int,
)
    requires
        start.wf(),
        after.wf(),
        after.broadcasted(start, done, n),
        start.log().is_prefix_of(after.log()),
        0 <= end < after.log().len(),
        after.log()[end] == Entry::<T::Content, Rc<L>>::Swept(start.model().rounds),
    ensures
        ({
            let round = start.model().rounds;
            let taken = taken_by(after.log(), round);
            let told = taken.len() > 0 && vacant(after.log().take(end));
            &&& 0 <= n
            &&& n == count(after.log(), |e: Entry<T::Content, Rc<L>>| of_round(e, round))
            &&& done.len() == n + taken.len() + if told {
                1int
            } else {
                0
            }
            &&& forall|j: int|
                0 <= j < done.len() ==> (#[trigger] done[j]).first.log().last() is Delivered == (j
                    < n)
            &&& forall|j: int|
                0 <= j < done.len() ==> (#[trigger] done[j]).first.log().last() is Notified == (
                told && j == n)
        }),
{
    let fifo = P::Order::is_fifo();
    let log = after.log();
    let round = start.model().rounds;
    let turns = Registry::<T, L, P, P::Order>::turns(done);
    let came = arrived(start.log(), round, turns, n);
    after.lemma_wf();
    lemma_calls_apart(start, after, done, n);
    lemma_places(fifo, start.log(), turns, n, log);
    law_removals_are_taken(fifo, log, round);
    lemma_vacant_at(fifo, log, end);
    let taken = taken_by(log, round);
    let swept = came.push(Entry::Swept(round));
    assert(log.take(end) =~= came);
    let told = taken.len() > 0 && run(fifo, came).order.len() == 0;
    let from = if told { n + 1 } else { n };
    let first = if told { turns[n].last } else { swept };
    assert forall|j: int| 0 <= j < done.len() implies {
        &&& (#[trigger] done[j]).first.log().last() is Delivered == (j < n)
        &&& done[j].first.log().last() is Notified == (told && j == n)
    } by {
        assert(turns[j].first == done[j].first.log());
        if j < n {
            assert(serves(fifo, start.log(), round, turns, j));
            assert(of_round(turns[j].first.last(), round));
        } else if j >= from {
            assert(unwinds_at(first, turns, from, taken, j));
        }
    }
}

/// A broadcast runs each of its callees once, and nothing but they touches the policy. If
/// every call of a listener adds `a` to something that the policy holds, every destructor adds
/// `d`, and being told adds `t`, then a broadcast adds `a` for each of its deliveries, `d` for
/// each listener that it took out, and `t` if it left the list empty by that.
pub proof fn law_broadcast_adds_up<T: EventFamily, L: Listener<T, P>, P: Policy<T, L>>(
    registry: &mut Registry<T, L, P, P::Order>,
    event: T::Event<'_>,
    amount: spec_fn(P) -> int,
    a: int,
    t: int,
    d: int,
    end: int,
)
    requires
        old(registry).wf(),
        call_ensures(Registry::<T, L, P, P::Order>::broadcast, (registry, event), ()),
        0 <= end < final(registry).log().len(),
        final(registry).log()[end] == Entry::<T::Content, Rc<L>>::Swept(
            count(old(registry).log(), |e: Entry<T::Content, Rc<L>>| e is Begun) as nat,
        ),
        forall|
            l: L,
            c: T::Content,
            before: Registry<T, L, P, P::Order>,
            after: Registry<T, L, P, P::Order>,
        | #[trigger]
            l.accepted(c, before, after) ==> amount(after.policy()) == amount(before.policy()) + a,
        forall|before: Registry<T, L, P, P::Order>, after: Registry<T, L, P, P::Order>| #[trigger]
            P::told(before, after) ==> amount(after.policy()) == amount(before.policy()) + t,
        forall|
            l: L,
            before: Registry<T, L, P, P::Order>,
            after: Registry<T, L, P, P::Order>,
        | #[trigger]
            l.destructed(before, after) ==> amount(after.policy()) == amount(before.policy()) + d,
    ensures
        ({
            let round = count(old(registry).log(), |e: Entry<T::Content, Rc<L>>| e is Begun) as nat;
            let log = final(registry).log();
            let taken = taken_by(log, round);
            let made = |e: Entry<T::Content, Rc<L>>|
                e is Delivered && e->Delivered_round == round;
            amount(final(registry).policy()) == amount(old(registry).policy()) + a * count(
                log,
                made,
            ) + d * taken.len() + if taken.len() > 0 && vacant(log.take(end)) {
                t
            } else {
                0
            }
        }),
{
    let fifo = P::Order::is_fifo();
    let start = *old(registry);
    let after = *final(registry);
    let log = after.log();
    let round = start.model().rounds;
    let (done, n) = choose|done: Seq<Visit<Registry<T, L, P, P::Order>>>, n: int| #[trigger]
        after.broadcasted(start, done, n);
    start.lemma_wf();
    law_numbered_by_registration(fifo, start.log());
    lemma_kinds_of_calls(start, after, done, n, end);
    let taken = taken_by(log, round);
    let told = taken.len() > 0 && vacant(log.take(end));
    let k = done.len() as int;
    lemma_adds_up(start, done, amount, a, t, d, n, told, k);
    assert(done.take(k) =~= done);
    if k <= n {
        assert(d * taken.len() == 0) by (nonlinear_arith)
            requires
                taken.len() == 0,
        ;
    }
    let made = |e: Entry<T::Content, Rc<L>>| e is Delivered && e->Delivered_round == round;
    let kind = |e: Entry<T::Content, Rc<L>>| of_round(e, round);
    lemma_count_same(log, made, kind);
}

/// The calls of a registry that is being dropped.
proof fn lemma_closing_call<T: EventFamily, L: Listener<T, P>, P: Policy<T, L>>(
    start: Registry<T, L, P, P::Order>,
    after: Registry<T, L, P, P::Order>,
    done: Seq<Visit<Registry<T, L, P, P::Order>>>,
    x: int,
)
    requires
        start.wf(),
        after.wf(),
        after.closed(start, done),
        0 <= x < start.model().order.len(),
    ensures
        done.len() == start.model().order.len(),
        Registry::<T, L, P, P::Order>::answered_at(start, done, x),
        done[x].first.log().is_prefix_of(after.log()),
        done[x].last.log().is_prefix_of(after.log()),
        done[x].first.log().len() > start.log().len() + 1,
        done[x].first.log().last() == Entry::<T::Content, Rc<L>>::Destructed(
            start.model().order[x],
        ),
{
    let fifo = P::Order::is_fifo();
    let turns = Registry::<T, L, P, P::Order>::turns(done);
    let order = start.model().order;
    law_close_adds_nothing_else(fifo, start.log(), turns, after.log());
    assert(Registry::<T, L, P, P::Order>::answered_at(start, done, x));
    assert(winds_up_at(start.log(), order, turns, x));
    assert(turns[x].last.is_prefix_of(after.log()));
    assert(done[x].last.resumed(done[x].first));
    let first = done[x].first.log();
    assert forall|i: int| 0 <= i < first.len() implies first[i] == #[trigger] after.log()[i] by {
        assert(first[i] == done[x].last.log()[i]);
    }
    assert(first =~= after.log().take(first.len() as int));
    if x > 0 {
        assert(winds_up_at(start.log(), order, turns, 0));
        assert(Registry::<T, L, P, P::Order>::answered_at(start, done, 0));
        assert(turns[0].last.len() < turns[x].first.len());
    }
}

/// Dropping a registry. It counts as dropped from the start; then the destructor of everyone
/// who was in the list is run, each of the listener that was registered as that node, in
/// either order of the list.
pub proof fn law_close_destructs_everyone<T: EventFamily, L: Listener<T, P>, P: Policy<T, L>>(
    registry: &mut Registry<T, L, P, P::Order>,
    id: u64,
    k: int,
)
    requires
        old(registry).wf(),
        !old(registry).log().contains(Entry::Closed),
        call_ensures(Registry::<T, L, P, P::Order>::close, (registry,), ()),
        present(old(registry).log(), id),
        0 <= k < old(registry).log().len(),
        registers(old(registry).log()[k], id),
    ensures
        ({
            let was = old(registry).log();
            let log = final(registry).log();
            let listener = was[k]->Registered_listener;
            &&& was.is_prefix_of(log)
            &&& was.len() < log.len()
            &&& log[was.len() as int] == Entry::<T::Content, Rc<L>>::Closed
            &&& exists|first: Registry<T, L, P, P::Order>, last: Registry<T, L, P, P::Order>| {
                &&& first.log().is_prefix_of(log)
                &&& first.log().len() > was.len() + 1
                &&& first.log().last() == Entry::<T::Content, Rc<L>>::Destructed(id)
                &&& #[trigger] listener.destructed(first, last)
                &&& last.resumed(first)
                &&& last.log().is_prefix_of(log)
            }
        }),
{
    let fifo = P::Order::is_fifo();
    let start = *old(registry);
    let after = *final(registry);
    let log = after.log();
    let order = start.model().order;
    let done = choose|done: Seq<Visit<Registry<T, L, P, P::Order>>>| #[trigger]
        after.closed(start, done);
    start.lemma_wf();
    after.lemma_wf();
    law_alive_iff_present(fifo, start.log(), id);
    assert(order.contains(id));
    let x = order.index_of(id);
    lemma_closing_call(start, after, done, x);
    let first = done[x].first;
    let p = first.log().len() - 1;
    assert(log[p] == first.log()[p]);
    assert(log[k] == start.log()[k]);
    lemma_destructed_is_registered(fifo, log, p, id, k);
    assert(first.log().drop_last() =~= log.take(p));
    assert(start.log()[k]->Registered_listener.destructed(first, done[x].last));
}

/// A registry that is dropped destructs those in its list from the first to the last: the
/// earliest registered first when the first in is the first out, the latest first otherwise.
pub proof fn law_close_goes_in_order<T: EventFamily, L: Listener<T, P>, P: Policy<T, L>>(
    registry: &mut Registry<T, L, P, P::Order>,
    a: u64,
    b: u64,
    i: int,
    j: int,
)
    requires
        old(registry).wf(),
        !old(registry).log().contains(Entry::Closed),
        call_ensures(Registry::<T, L, P, P::Order>::close, (registry,), ()),
        present(old(registry).log(), a),
        present(old(registry).log(), b),
        if P::Order::is_fifo() {
            a < b
        } else {
            a > b
        },
        0 <= i < final(registry).log().len(),
        0 <= j < final(registry).log().len(),
        final(registry).log()[i] == Entry::<T::Content, Rc<L>>::Destructed(a),
        final(registry).log()[j] == Entry::<T::Content, Rc<L>>::Destructed(b),
    ensures
        i < j,
{
    let fifo = P::Order::is_fifo();
    let start = *old(registry);
    let after = *final(registry);
    let log = after.log();
    let order = start.model().order;
    let done = choose|done: Seq<Visit<Registry<T, L, P, P::Order>>>| #[trigger]
        after.closed(start, done);
    let turns = Registry::<T, L, P, P::Order>::turns(done);
    start.lemma_wf();
    after.lemma_wf();
    law_alive_iff_present(fifo, start.log(), a);
    law_alive_iff_present(fifo, start.log(), b);
    assert(order.contains(a) && order.contains(b));
    let x = order.index_of(a);
    let y = order.index_of(b);
    if y < x {
        law_list_in_order(fifo, start.log(), y, x);
    }
    lemma_closing_call(start, after, done, x);
    lemma_closing_call(start, after, done, y);
    let p = done[x].first.log().len() - 1;
    let q = done[y].first.log().len() - 1;
    assert(log[p] == done[x].first.log()[p]);
    assert(log[q] == done[y].first.log()[q]);
    law_destructed_once(fifo, log, i, p, a);
    law_destructed_once(fifo, log, j, q, b);
    law_close_adds_nothing_else(fifo, start.log(), turns, log);
    assert(turns[x].last.len() < turns[y].first.len());
}

/// Dropping a registry runs each destructor once, and nothing but they touches the policy. If
/// every destructor adds `d` to something that the policy holds, then `d` is added for each
/// listener whose guard had not been dropped.
pub proof fn law_close_adds_up<T: EventFamily, L: Listener<T, P>, P: Policy<T, L>>(
    registry: &mut Registry<T, L, P, P::Order>,
    amount: spec_fn(P) -> int,
    d: int,
)
    requires
        old(registry).wf(),
        old(registry).depth() == 0,
        !old(registry).log().contains(Entry::Closed),
        call_ensures(Registry::<T, L, P, P::Order>::close, (registry,), ()),
        forall|
            l: L,
            before: Registry<T, L, P, P::Order>,
            after: Registry<T, L, P, P::Order>,
        | #[trigger]
            l.destructed(before, after) ==> amount(after.policy()) == amount(before.policy()) + d,
    ensures
        ({
            let was = old(registry).log();
            amount(final(registry).policy()) == amount(old(registry).policy()) + d * (count(
                was,
                |e: Entry<T::Content, Rc<L>>| e is Registered,
            ) - count(was, |e: Entry<T::Content, Rc<L>>| e is Cancelled))
        }),
{
    let fifo = P::Order::is_fifo();
    let start = *old(registry);
    let after = *final(registry);
    let order = start.model().order;
    let done = choose|done: Seq<Visit<Registry<T, L, P, P::Order>>>| #[trigger]
        after.closed(start, done);
    start.lemma_wf();
    after.lemma_wf();
    assert forall|id: u64| calls(start.log(), id) == 0 by {
        law_alive_iff_present(fifo, start.log(), id);
        assert(start.model().visits(id) <= start.depth());
    }
    law_listed_when_idle(fifo, start.log());
    lemma_destructors_add_up(start, after, done, amount, d, order.len() as int);
    assert(done.take(order.len() as int) =~= done);
}

proof fn lemma_destructors_add_up<T: EventFamily, L: Listener<T, P>, P: Policy<T, L>>(
    start: Registry<T, L, P, P::Order>,
    after: Registry<T, L, P, P::Order>,
    done: Seq<Visit<Registry<T, L, P, P::Order>>>,
    amount: spec_fn(P) -> int,
    d: int,
    k: int,
)
    requires
        start.wf(),
        after.wf(),
        after.closed(start, done),
        0 <= k <= start.model().order.len(),
        forall|
            l: L,
            before: Registry<T, L, P, P::Order>,
            after: Registry<T, L, P, P::Order>,
        | #[trigger]
            l.destructed(before, after) ==> amount(after.policy()) == amount(before.policy()) + d,
    ensures
        amount(start.policy_after(done.take(k))) == amount(start.policy()) + d * k,
    decreases k,
{
    if k > 0 {
        lemma_destructors_add_up(start, after, done, amount, d, k - 1);
        lemma_closing_call(start, after, done, k - 1);
        assert(done.take(k).last() == done[k - 1]);
        if k > 1 {
            assert(done.take(k - 1).last() == done[k - 2]);
        }
        assert(d * k == d * (k - 1) + d) by (nonlinear_arith);
    } else {
        assert(d * k == 0) by (nonlinear_arith)
            requires
                k == 0,
        ;
    }
}

/// When a registry is dropped, everyone is out of its list in the end.
pub proof fn law_close_leaves_no_one<T: EventFamily, L: Listener<T, P>, P: Policy<T, L>>(
    registry: &mut Registry<T, L, P, P::Order>,
    id: u64,
)
    requires
        old(registry).wf(),
        !old(registry).log().contains(Entry::Closed),
        call_ensures(Registry::<T, L, P, P::Order>::close, (registry,), ()),
    ensures
        final(registry).log().contains(Entry::Closed),
        present(old(registry).log(), id) ==> final(registry).log().contains(Entry::Detached(id)),
        !final(registry).model().listeners.contains_key(id),
{
    let fifo = P::Order::is_fifo();
    let start = *old(registry);
    let after = *final(registry);
    let s = start.log().len() as int;
    after.lemma_wf();
    assert(after.log()[s] == Entry::<T::Content, Rc<L>>::Closed);
    assert(after.log().take(s) =~= start.log());
    law_left_by_the_drop(fifo, after.log(), s, id);
    assert(!after.model().order.contains(id));
}

/// Registering puts one listener into the list, as the next node, and does nothing else.
pub proof fn law_register_adds_one<T: EventFamily, L: Listener<T, P>, P: Policy<T, L>>(
    registry: &mut Registry<T, L, P, P::Order>,
    listener: L,
    guard: Guard,
    other: u64,
)
    requires
        old(registry).wf(),
        !old(registry).log().contains(Entry::Closed),
        call_ensures(
            Registry::<T, L, P, P::Order>::register,
            (registry, listener),
            guard,
        ),
    ensures
        guard.id() == count(
            old(registry).log(),
            |e: Entry<T::Content, Rc<L>>| e is Registered,
        ),
        exists|handle: Rc<L>|
            *handle == listener && #[trigger] old(registry).log().push(
                Entry::Registered { id: guard.id(), listener: handle },
            ) == final(registry).log(),
        final(registry).policy() == old(registry).policy(),
        !present(old(registry).log(), guard.id()),
        present(final(registry).log(), other) <==> present(old(registry).log(), other) || other
            == guard.id(),
        final(registry).model().held(guard.id()),
{
    let fifo = P::Order::is_fifo();
    let start = *old(registry);
    let after = *final(registry);
    let id = guard.id();
    start.lemma_wf();
    after.lemma_wf();
    law_numbered_by_registration(fifo, start.log());
    law_registered_once(fifo, start.log(), id);
    let entry = after.log().last();
    let handle = entry->Registered_listener;
    assert(start.log().is_prefix_of(after.log()));
    assert(after.log() =~= start.log().push(entry));
    assert(!after.log().contains(Entry::Closed)) by {
        if after.log().contains(Entry::Closed) {
            let i = after.log().index_of(Entry::Closed);
            assert(start.log()[i] == Entry::<T::Content, Rc<L>>::Closed);
        }
    }
    lemma_push(fifo, start.log(), entry);
    law_alive_iff_present(fifo, start.log(), id);
    law_alive_iff_present(fifo, after.log(), id);
    law_alive_iff_present(fifo, start.log(), other);
    law_alive_iff_present(fifo, after.log(), other);
    assert(start.log().push(Entry::Registered { id, listener: handle }) == after.log());
}

/// What a registry answers about itself and a guard is what its log says. A listener is alive
/// from its registration until its guard is dropped and no call of it is in progress, or until
/// the registry is dropped; so it is while it is being called.
pub proof fn law_answers<T: EventFamily, L: Listener<T, P>, P: Policy<T, L>>(
    registry: Registry<T, L, P, P::Order>,
    guard: Guard,
    empty: bool,
    open: bool,
    registered: u64,
    in_progress: usize,
    held: bool,
    alive: bool,
)
    requires
        registry.wf(),
        call_ensures(Registry::<T, L, P, P::Order>::is_empty, (&registry,), empty),
        call_ensures(Registry::<T, L, P, P::Order>::is_open, (&registry,), open),
        call_ensures(Registry::<T, L, P, P::Order>::registered, (&registry,), registered),
        call_ensures(
            Registry::<T, L, P, P::Order>::calls_in_progress,
            (&registry,),
            in_progress,
        ),
        call_ensures(Registry::<T, L, P, P::Order>::holds, (&registry, &guard), held),
        call_ensures(Guard::is_alive::<T, L, P, P::Order>, (&guard, &registry), alive),
    ensures
        open <==> !registry.log().contains(Entry::Closed),
        open ==> (empty <==> vacant(registry.log())),
        registered == count(registry.log(), |e: Entry<T::Content, Rc<L>>| e is Registered),
        open ==> in_progress == count(
            registry.log(),
            |e: Entry<T::Content, Rc<L>>| e is Delivered,
        ) - count(registry.log(), |e: Entry<T::Content, Rc<L>>| e is Returned),
        held <==> enrolled(registry.log(), guard.id()) && !registry.log().contains(
            Entry::Cancelled(guard.id()),
        ),
        alive <==> open && enrolled(registry.log(), guard.id()) && (!registry.log().contains(
            Entry::Cancelled(guard.id()),
        ) || calls(registry.log(), guard.id()) > 0),
        open && held ==> alive,
{
    let fifo = P::Order::is_fifo();
    let log = registry.log();
    registry.lemma_wf();
    law_alive_iff_present(fifo, log, guard.id());
    law_numbered_by_registration(fifo, log);
    if open {
        law_empty_iff_vacant(fifo, log);
        law_calls_counted(fifo, log);
    }
}

/// What a guard points to: as long as the registry is there, the listener that was registered
/// as its node if it is alive, and nothing otherwise.
pub proof fn law_pointer_finds_the_listener<T: EventFamily, L: Listener<T, P>, P: Policy<T, L>>(
    registry: Registry<T, L, P, P::Order>,
    guard: Guard,
    ptr: ListenerPtr,
    found: Option<Rc<L>>,
    k: int,
)
    requires
        registry.wf(),
        !registry.log().contains(Entry::Closed),
        call_ensures(Guard::as_ptr, (&guard,), ptr),
        call_ensures(Registry::<T, L, P, P::Order>::listener_at, (&registry, ptr), found),
    ensures
        found is Some <==> present(registry.log(), guard.id()),
        found is Some && 0 <= k < registry.log().len() && registers(registry.log()[k], guard.id())
            ==> found->0 == registry.log()[k]->Registered_listener,
{
    let fifo = P::Order::is_fifo();
    let log = registry.log();
    registry.lemma_wf();
    law_alive_iff_present(fifo, log, guard.id());
    if 0 <= k < log.len() && registers(log[k], guard.id()) {
        law_listener_is_the_registered_one(fifo, log, guard.id(), k);
    }
    assert(registry.model().listeners.contains_key(guard.id())
        <==> registry.model().order.contains(guard.id()));
}

/// A policy that was put in is the one that is read, and the one that comes out when another
/// is put in; nothing else changes.
pub proof fn law_policy_replaced<T: EventFamily, L: Listener<T, P>, P: Policy<T, L>>(
    registry: &mut Registry<T, L, P, P::Order>,
    policy: P,
    was: P,
    before: &P,
    after: &P,
)
    requires
        call_ensures(
            Registry::<T, L, P, P::Order>::replace_policy,
            (registry, policy),
            was,
        ),
        call_ensures(Registry::<T, L, P, P::Order>::policy_ref, (&*old(registry),), before),
        call_ensures(Registry::<T, L, P, P::Order>::policy_ref, (&*final(registry),), after),
    ensures
        *after == policy,
        was == *before,
        final(registry).log() == old(registry).log(),
        final(registry).depth() == old(registry).depth(),
{
}

/// A new registry has the policy that it was made with, and nothing has happened to it.
pub proof fn law_new_registry<T: EventFamily, L: Listener<T, P>, P: Policy<T, L>>(
    policy: P,
    registry: Registry<T, L, P, P::Order>,
)
    requires
        call_ensures(Registry::<T, L, P, P::Order>::new, (policy,), registry),
    ensures
        registry.wf(),
        registry.log().len() == 0,
        registry.policy() == policy,
        registry.depth() == 0,
{
}

/// Calls of those who leave the log alone add nothing to it.
proof fn lemma_quiet_calls<T: EventFamily, L: Listener<T, P>, P: Policy<T, L>>(
    start: Registry<T, L, P, P::Order>,
    done: Seq<Visit<Registry<T, L, P, P::Order>>>,
)
    requires
        Registry::<T, L, P, P::Order>::answered_all(start, done),
        forall|
            l: L,
            c: T::Content,
            before: Registry<T, L, P, P::Order>,
            after: Registry<T, L, P, P::Order>,
        | #[trigger]
            l.accepted(c, before, after) ==> after.log() == before.log(),
        forall|before: Registry<T, L, P, P::Order>, after: Registry<T, L, P, P::Order>| #[trigger]
            P::told(before, after) ==> after.log() == before.log(),
        forall|
            l: L,
            before: Registry<T, L, P, P::Order>,
            after: Registry<T, L, P, P::Order>,
        | #[trigger]
            l.destructed(before, after) ==> after.log() == before.log(),
    ensures
        quiet(Registry::<T, L, P, P::Order>::turns(done)),
{
    let turns = Registry::<T, L, P, P::Order>::turns(done);
    assert forall|i: int| 0 <= i < turns.len() implies (#[trigger] turns[i]).last
        == turns[i].first by {
        assert(Registry::<T, L, P, P::Order>::answered_at(start, done, i));
    }
}

proof fn lemma_quiet_length<T: EventFamily, L: Listener<T, P>, P: Policy<T, L>>(
    start: Registry<T, L, P, P::Order>,
    done: Seq<Visit<Registry<T, L, P, P::Order>>>,
    n: int,
)
    requires
        0 <= n <= done.len(),
        quiet(Registry::<T, L, P, P::Order>::turns(done)),
        sweeps(
            P::Order::is_fifo(),
            start.log(),
            start.model().rounds,
            Registry::<T, L, P, P::Order>::turns(done),
            n,
        ),
    ensures
        arrived(
            start.log(),
            start.model().rounds,
            Registry::<T, L, P, P::Order>::turns(done),
            n,
        ).len() == start.log().len() + 1 + 2 * n,
    decreases n,
{
    let fifo = P::Order::is_fifo();
    let round = start.model().rounds;
    let turns = Registry::<T, L, P, P::Order>::turns(done);
    if n > 0 {
        assert forall|j: int| 0 <= j < n - 1 implies #[trigger] serves(
            fifo,
            start.log(),
            round,
            turns,
            j,
        ) by {}
        lemma_quiet_length(start, done, n - 1);
        assert(serves(fifo, start.log(), round, turns, n - 1));
        assert(turns[n - 1].last == turns[n - 1].first);
    }
}

/// A broadcast does nothing on its own. If those whom it calls do nothing to the registry, then
/// nothing happens but that it begins, makes its calls and ends: no one is registered, taken
/// out or destructed, no guard is dropped and the policy is not told.
pub proof fn law_broadcast_among_the_quiet<T: EventFamily, L: Listener<T, P>, P: Policy<T, L>>(
    registry: &mut Registry<T, L, P, P::Order>,
    event: T::Event<'_>,
    id: u64,
)
    requires
        old(registry).wf(),
        !old(registry).log().contains(Entry::Closed),
        call_ensures(Registry::<T, L, P, P::Order>::broadcast, (registry, event), ()),
        forall|
            l: L,
            c: T::Content,
            before: Registry<T, L, P, P::Order>,
            after: Registry<T, L, P, P::Order>,
        | #[trigger]
            l.accepted(c, before, after) ==> after.log() == before.log(),
        forall|before: Registry<T, L, P, P::Order>, after: Registry<T, L, P, P::Order>| #[trigger]
            P::told(before, after) ==> after.log() == before.log(),
        forall|
            l: L,
            before: Registry<T, L, P, P::Order>,
            after: Registry<T, L, P, P::Order>,
        | #[trigger]
            l.destructed(before, after) ==> after.log() == before.log(),
    ensures
        ({
            let was = old(registry).log();
            let log = final(registry).log();
            let round = count(was, |e: Entry<T::Content, Rc<L>>| e is Begun) as nat;
            let made = |e: Entry<T::Content, Rc<L>>|
                e is Delivered && e->Delivered_round == round;
            &&& log.len() == was.len() + 2 + 2 * count(log, made)
            &&& !log.contains(Entry::Closed)
            &&& present(log, id) <==> present(was, id)
            &&& enrolled(log, id) <==> enrolled(was, id)
            &&& log.contains(Entry::Cancelled(id)) <==> was.contains(Entry::Cancelled(id))
            &&& taken_by(log, round).len() == 0
        }),
{
    let fifo = P::Order::is_fifo();
    let start = *old(registry);
    let after = *final(registry);
    let log = after.log();
    let was = start.log();
    let round = start.model().rounds;
    let (done, n) = choose|done: Seq<Visit<Registry<T, L, P, P::Order>>>, n: int| #[trigger]
        after.broadcasted(start, done, n);
    let turns = Registry::<T, L, P, P::Order>::turns(done);
    start.lemma_wf();
    after.lemma_wf();
    law_numbered_by_registration(fifo, was);
    lemma_calls_apart(start, after, done, n);
    lemma_places(fifo, was, turns, n, log);
    lemma_quiet_calls(start, done);
    law_alive_iff_present(fifo, was, id);
    law_quiet_broadcast(fifo, was, turns, n, log);
    lemma_quiet_length(start, done, n);
    law_alive_iff_present(fifo, log, id);
    law_registered_once(fifo, was, id);
    law_registered_once(fifo, log, id);
    law_held_until_cancelled(fifo, was, id);
    law_held_until_cancelled(fifo, log, id);
    law_removals_are_taken(fifo, log, round);
    let made = |e: Entry<T::Content, Rc<L>>| e is Delivered && e->Delivered_round == round;
    let kind = |e: Entry<T::Content, Rc<L>>| of_round(e, round);
    lemma_count_same(log, made, kind);
}

/// Dropping a registry drops no guard. If the destructors do nothing to the registry, then
/// every guard is there as before, to be dropped later on.
pub proof fn law_close_among_the_quiet<T: EventFamily, L: Listener<T, P>, P: Policy<T, L>>(
    registry: &mut Registry<T, L, P, P::Order>,
    id: u64,
)
    requires
        old(registry).wf(),
        old(registry).depth() == 0,
        !old(registry).log().contains(Entry::Closed),
        call_ensures(Registry::<T, L, P, P::Order>::close, (registry,), ()),
        forall|
            l: L,
            c: T::Content,
            before: Registry<T, L, P, P::Order>,
            after: Registry<T, L, P, P::Order>,
        | #[trigger]
            l.accepted(c, before, after) ==> after.log() == before.log(),
        forall|before: Registry<T, L, P, P::Order>, after: Registry<T, L, P, P::Order>| #[trigger]
            P::told(before, after) ==> after.log() == before.log(),
        forall|
            l: L,
            before: Registry<T, L, P, P::Order>,
            after: Registry<T, L, P, P::Order>,
        | #[trigger]
            l.destructed(before, after) ==> after.log() == before.log(),
    ensures
        final(registry).log().contains(Entry::Cancelled(id)) <==> old(registry).log().contains(
            Entry::Cancelled(id),
        ),
        enrolled(final(registry).log(), id) <==> enrolled(old(registry).log(), id),
        final(registry).model().held(id) == old(registry).model().held(id),
        final(registry).model().visits(id) == 0,
{
    let fifo = P::Order::is_fifo();
    let start = *old(registry);
    let after = *final(registry);
    let log = after.log();
    let was = start.log();
    let done = choose|done: Seq<Visit<Registry<T, L, P, P::Order>>>| #[trigger]
        after.closed(start, done);
    let turns = Registry::<T, L, P, P::Order>::turns(done);
    start.lemma_wf();
    after.lemma_wf();
    lemma_quiet_calls(start, done);
    law_alive_iff_present(fifo, was, id);
    assert(start.model().enabled(Entry::<T::Content, Rc<L>>::Closed)) by {
        assert forall|x: u64| start.model().visits(x) == 0 by {
            assert(start.model().visits(x) <= start.depth());
        }
    }
    law_quiet_close(fifo, was, turns, log);
    law_alive_iff_present(fifo, log, id);
    law_held_until_cancelled(fifo, was, id);
    law_held_until_cancelled(fifo, log, id);
    lemma_close_registers_no_one(start, after, id);
    law_registered_once(fifo, was, id);
    law_registered_once(fifo, log, id);
}

/// A registry that is being dropped takes in no one.
proof fn lemma_close_registers_no_one<T: EventFamily, L: Listener<T, P>, P: Policy<T, L>>(
    start: Registry<T, L, P, P::Order>,
    after: Registry<T, L, P, P::Order>,
    id: u64,
)
    requires
        start.wf(),
        after.wf(),
        start.log().is_prefix_of(after.log()),
        start.log().len() < after.log().len(),
        after.log()[start.log().len() as int] == Entry::<T::Content, Rc<L>>::Closed,
    ensures
        enrolled(after.log(), id) <==> enrolled(start.log(), id),
{
    let fifo = P::Order::is_fifo();
    let s = start.log().len() as int;
    after.lemma_wf();
    if enrolled(start.log(), id) {
        let k = choose|k: int| 0 <= k < s && registers(#[trigger] start.log()[k], id);
        assert(registers(after.log()[k], id));
    }
    if enrolled(after.log(), id) {
        let k = choose|k: int|
            0 <= k < after.log().len() && registers(#[trigger] after.log()[k], id);
        if k > s {
            law_nothing_alive_after_close(fifo, after.log(), s, k, id);
        }
        assert(registers(start.log()[k], id));
    }
}

/// The operations are there for everyone: a registry that was not dropped takes in listeners
/// and makes broadcasts at any depth of nesting, as far as the machine counts; it can be
/// dropped whenever it is not at work; and a guard can be dropped at any time, once.
pub proof fn law_open_to_everyone<T: EventFamily, L: Listener<T, P>, P: Policy<T, L>>(
    registry: &mut Registry<T, L, P, P::Order>,
    event: T::Event<'_>,
    listener: L,
    guard: Guard,
)
    requires
        old(registry).wf(),
    ensures
        !old(registry).log().contains(Entry::Closed) && old(registry).depth() < usize::MAX / 4
            ==> call_requires(Registry::<T, L, P, P::Order>::broadcast, (registry, event)),
        !old(registry).log().contains(Entry::Closed) && count(
            old(registry).log(),
            |e: Entry<T::Content, Rc<L>>| e is Registered,
        ) < u64::MAX ==> call_requires(
            Registry::<T, L, P, P::Order>::register,
            (registry, listener),
        ),
        !old(registry).log().contains(Entry::Closed) && old(registry).depth() == 0
            ==> call_requires(Registry::<T, L, P, P::Order>::close, (registry,)),
        enrolled(old(registry).log(), guard.id()) && !old(registry).log().contains(
            Entry::Cancelled(guard.id()),
        ) ==> call_requires(Guard::cancel::<T, L, P>, (guard, registry)),
{
    let fifo = P::Order::is_fifo();
    old(registry).lemma_wf();
    law_alive_iff_present(fifo, old(registry).log(), guard.id());
    law_numbered_by_registration(fifo, old(registry).log());
}

/// The policy that does nothing does nothing, and serves the latest first.
pub proof fn law_plain_policy<T: EventFamily, L>(
    before: Registry<T, L, (), <() as Policy<T, L>>::Order>,
    after: Registry<T, L, (), <() as Policy<T, L>>::Order>,
)
    requires
        <() as Policy<T, L>>::told(before, after),
    ensures
        after == before,
        !<<() as Policy<T, L>>::Order as Order>::is_fifo(),
{
}

/// What a registry answers once it is dropped: who was in its list then, and was not taken out
/// since, is still in it. No call is in progress.
pub proof fn law_answers_after_close<T: EventFamily, L: Listener<T, P>, P: Policy<T, L>>(
    registry: Registry<T, L, P, P::Order>,
    guard: Guard,
    c: int,
    empty: bool,
    in_progress: usize,
    alive: bool,
    ptr: ListenerPtr,
    found: Option<Rc<L>>,
)
    requires
        registry.wf(),
        0 <= c < registry.log().len(),
        registry.log()[c] == Entry::<T::Content, Rc<L>>::Closed,
        call_ensures(Registry::<T, L, P, P::Order>::is_empty, (&registry,), empty),
        call_ensures(
            Registry::<T, L, P, P::Order>::calls_in_progress,
            (&registry,),
            in_progress,
        ),
        call_ensures(Guard::is_alive::<T, L, P, P::Order>, (&guard, &registry), alive),
        call_ensures(Guard::as_ptr, (&guard,), ptr),
        call_ensures(Registry::<T, L, P, P::Order>::listener_at, (&registry, ptr), found),
    ensures
        !alive,
        in_progress == 0,
        found is Some <==> present(registry.log().take(c), guard.id()) && !registry.log().contains(
            Entry::Detached(guard.id()),
        ),
        empty <==> forall|id: u64| #[trigger]
            present(registry.log().take(c), id) ==> registry.log().contains(Entry::Detached(id)),
{
    let fifo = P::Order::is_fifo();
    let log = registry.log();
    let order = registry.model().order;
    registry.lemma_wf();
    assert(log.contains(Entry::Closed));
    law_alive_iff_present(fifo, log, guard.id());
    law_left_by_the_drop(fifo, log, c, guard.id());
    if order.len() > 0 {
        assert(order.contains(order[0]));
        law_left_by_the_drop(fifo, log, c, order[0]);
    } else {
        assert forall|id: u64| #[trigger] present(log.take(c), id) implies log.contains(
            Entry::Detached(id),
        ) by {
            law_left_by_the_drop(fifo, log, c, id);
            assert(!order.contains(id));
        }
    }
}

/// A registry made by default has a default policy, and nothing has happened to it.
pub proof fn law_default_registry<T: EventFamily, L: Listener<T, P>, P: Policy<T, L> + Default>(
    registry: Registry<T, L, P, P::Order>,
)
    requires
        call_ensures(<Registry<T, L, P, P::Order> as Default>::default, (), registry),
    ensures
        registry.wf(),
        registry.log().len() == 0,
        registry.depth() == 0,
        call_ensures(P::default, (), registry.policy()),
{
}

} // verus!
