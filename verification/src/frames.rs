//! What follows from the exact course of an operation: nothing happens but what it does
//! itself and what those do whom it calls, and with callees that do nothing its outcome is
//! one and the same.
use crate::course::{
    arrived, broadcast_course, buried_upto, cancel_course, close_course, removed_by, serves, stands,
    sweeps, unwinds, unwinds_at, winds_up, winds_up_at, Turn,
};
use crate::history::{
    dead_slot, doomed_slot, later, lemma_inv, lemma_not_called, lemma_prefix, lemma_push, run, valid,
    Entry, Model,
};
use crate::laws::{done_by, law_held_until_cancelled};
use crate::rounds::lemma_monotone;
use vstd::prelude::*;

verus! {

/// Whether index `i` of the log lies within one of the first `upto` calls.
pub open spec fn within<C, H>(turns: Seq<Turn<C, H>>, upto: int, i: int) -> bool {
    exists|j: int|
        0 <= j < upto && (#[trigger] turns[j]).first.len() <= i && i < turns[j].last.len()
}

/// Whether the log went on from `start` with nothing but entries of its own, which `own`
/// tells, and with what happened within the first `upto` calls.
pub open spec fn framed<C, H>(
    start: Seq<Entry<C, H>>,
    log: Seq<Entry<C, H>>,
    turns: Seq<Turn<C, H>>,
    upto: int,
    own: spec_fn(Entry<C, H>) -> bool,
) -> bool {
    &&& start.is_prefix_of(log)
    &&& forall|j: int| 0 <= j < upto ==> (#[trigger] turns[j]).last.is_prefix_of(log)
    &&& forall|i: int|
        start.len() <= i < log.len() ==> own(#[trigger] log[i]) || within(turns, upto, i)
}

proof fn lemma_framed_push<C, H>(
    start: Seq<Entry<C, H>>,
    log: Seq<Entry<C, H>>,
    turns: Seq<Turn<C, H>>,
    upto: int,
    own: spec_fn(Entry<C, H>) -> bool,
    entry: Entry<C, H>,
)
    requires
        framed(start, log, turns, upto, own),
        own(entry),
    ensures
        framed(start, log.push(entry), turns, upto, own),
{
    let longer = log.push(entry);
    assert forall|i: int| start.len() <= i < longer.len() implies own(#[trigger] longer[i])
        || within(turns, upto, i) by {
        if i < log.len() {
            assert(longer[i] == log[i]);
        }
    }
    assert forall|j: int| 0 <= j < upto implies (#[trigger] turns[j]).last.is_prefix_of(longer) by {
        assert(turns[j].last.is_prefix_of(log));
    }
}

proof fn lemma_framed_call<C, H>(
    start: Seq<Entry<C, H>>,
    log: Seq<Entry<C, H>>,
    turns: Seq<Turn<C, H>>,
    upto: int,
    own: spec_fn(Entry<C, H>) -> bool,
    entry: Entry<C, H>,
)
    requires
        framed(start, log, turns, upto, own),
        0 <= upto < turns.len(),
        turns[upto].follows(log, entry),
        own(entry),
    ensures
        framed(start, turns[upto].last, turns, upto + 1, own),
{
    let turn = turns[upto];
    lemma_framed_push(start, log, turns, upto, own, entry);
    assert forall|i: int| start.len() <= i < turn.last.len() implies own(#[trigger] turn.last[i])
        || within(turns, upto + 1, i) by {
        if i < turn.first.len() {
            assert(turn.first[i] == turn.last[i]);
            if within(turns, upto, i) {
                let j = choose|j: int|
                    0 <= j < upto && (#[trigger] turns[j]).first.len() <= i && i
                        < turns[j].last.len();
                assert(turns[j].first.len() <= i);
            }
        } else {
            assert(turns[upto].first.len() <= i);
        }
    }
    assert forall|j: int| 0 <= j < upto + 1 implies (#[trigger] turns[j]).last.is_prefix_of(
        turn.last,
    ) by {
        if j < upto {
            assert(turns[j].last.is_prefix_of(turn.first));
        }
    }
}

/// Whether each call stands for an entry of its own, made after the calls before it came
/// back: no entry stands for two calls.
pub open spec fn apart<C, H>(turns: Seq<Turn<C, H>>) -> bool {
    forall|i: int, j: int|
        0 <= i < j < turns.len() ==> (#[trigger] turns[i]).last.len() < (
        #[trigger] turns[j]).first.len()
}

spec fn apart_at<C, H>(turns: Seq<Turn<C, H>>, j: int) -> bool {
    &&& turns[j].first.len() <= turns[j].last.len()
    &&& j > 0 ==> turns[j - 1].last.len() < turns[j].first.len()
}

proof fn lemma_apart<C, H>(turns: Seq<Turn<C, H>>)
    requires
        forall|j: int| 0 <= j < turns.len() ==> #[trigger] apart_at(turns, j),
    ensures
        apart(turns),
    decreases turns.len(),
{
    if turns.len() > 1 {
        let rest = turns.drop_last();
        let n = turns.len() - 1;
        assert forall|j: int| 0 <= j < rest.len() implies #[trigger] apart_at(rest, j) by {
            assert(apart_at(turns, j));
            assert(rest[j] == turns[j]);
            if j > 0 {
                assert(rest[j - 1] == turns[j - 1]);
            }
        }
        lemma_apart(rest);
        assert(apart_at(turns, n) && apart_at(turns, n - 1));
        assert forall|i: int, j: int| 0 <= i < j < turns.len() implies (
        #[trigger] turns[i]).last.len() < (#[trigger] turns[j]).first.len() by {
            assert(rest[i] == turns[i]);
            if j < n {
                assert(rest[j] == turns[j]);
            } else if i < n - 1 {
                assert(rest[n - 1] == turns[n - 1]);
            }
        }
    }
}

/// What a broadcast adds to the log itself.
pub open spec fn own_of_broadcast<C, H>(entry: Entry<C, H>, round: nat, removed: Seq<u64>) -> bool {
    ||| entry == Entry::<C, H>::Begun(round)
    ||| done_by(entry, round)
    ||| entry is Notified
    ||| entry matches Entry::Destructed(id) && removed.contains(id)
}

proof fn lemma_sweeps_framed<C, H>(
    fifo: bool,
    start: Seq<Entry<C, H>>,
    round: nat,
    turns: Seq<Turn<C, H>>,
    n: int,
    own: spec_fn(Entry<C, H>) -> bool,
)
    requires
        0 <= n <= turns.len(),
        sweeps(fifo, start, round, turns, n),
        forall|e: Entry<C, H>| #[trigger] done_by(e, round) ==> own(e),
        own(Entry::Begun(round)),
    ensures
        framed(start, arrived(start, round, turns, n), turns, n, own),
    decreases n,
{
    if n == 0 {
        assert(framed(start, start, turns, 0, own));
        lemma_framed_push(start, start, turns, 0, own, Entry::Begun(round));
    } else {
        assert(sweeps(fifo, start, round, turns, n - 1)) by {
            assert forall|i: int| 0 <= i < n - 1 implies #[trigger] serves(
                fifo,
                start,
                round,
                turns,
                i,
            ) by {}
        }
        lemma_sweeps_framed(fifo, start, round, turns, n - 1, own);
        assert(serves(fifo, start, round, turns, n - 1));
        let entry = turns[n - 1].first.last();
        assert(done_by(entry, round));
        lemma_framed_call(
            start,
            arrived(start, round, turns, n - 1),
            turns,
            n - 1,
            own,
            entry,
        );
        let back = Entry::<C, H>::Returned { round, id: turns[n - 1].target() };
        assert(done_by(back, round));
        lemma_framed_push(start, turns[n - 1].last, turns, n, own, back);
    }
}

proof fn lemma_unwinds_framed<C, H>(
    start: Seq<Entry<C, H>>,
    log: Seq<Entry<C, H>>,
    turns: Seq<Turn<C, H>>,
    from: int,
    removed: Seq<u64>,
    k: int,
    own: spec_fn(Entry<C, H>) -> bool,
)
    requires
        0 <= from <= k <= turns.len(),
        turns.len() == from + removed.len(),
        framed(start, log, turns, from, own),
        unwinds(log, turns, from, removed),
        forall|i: int| 0 <= i < removed.len() ==> own(Entry::Destructed(#[trigger] removed[i])),
    ensures
        framed(
            start,
            if k == from {
                log
            } else {
                turns[k - 1].last
            },
            turns,
            k,
            own,
        ),
    decreases k,
{
    if k > from {
        lemma_unwinds_framed(start, log, turns, from, removed, k - 1, own);
        assert(unwinds_at(log, turns, from, removed, k - 1));
        let id = removed[removed.len() - 1 - (k - 1 - from)];
        lemma_framed_call(
            start,
            if k - 1 == from {
                log
            } else {
                turns[k - 2].last
            },
            turns,
            k - 1,
            own,
            Entry::Destructed(id),
        );
    }
}

/// A broadcast does nothing to a registry but call its listeners, tell the policy and
/// destruct what it removed: every entry of the log since it began is its own or was made
/// within one of its calls, and each of its calls is made once.
pub proof fn law_broadcast_adds_nothing_else<C, H>(
    fifo: bool,
    start: Seq<Entry<C, H>>,
    turns: Seq<Turn<C, H>>,
    n: int,
    end: Seq<Entry<C, H>>,
)
    requires
        broadcast_course(fifo, start, turns, n, end),
    ensures
        framed(
            start,
            end,
            turns,
            turns.len() as int,
            |e: Entry<C, H>|
                own_of_broadcast(e, run(fifo, start).rounds, removed_by(fifo, turns, n)),
        ),
        apart(turns),
{
    let round = run(fifo, start).rounds;
    let removed = removed_by(fifo, turns, n);
    let own = |e: Entry<C, H>| own_of_broadcast(e, round, removed);
    let log = arrived(start, round, turns, n);
    let swept = log.push(Entry::Swept(round));
    let told = removed.len() > 0 && run(fifo, log).order.len() == 0;
    lemma_sweeps_framed(fifo, start, round, turns, n, own);
    assert(done_by(Entry::<C, H>::Swept(round), round));
    lemma_framed_push(start, log, turns, n, own, Entry::Swept(round));
    if told {
        lemma_framed_call(start, swept, turns, n, own, Entry::Notified);
    }
    let from = if told { n + 1 } else { n };
    let first = if told { turns[n].last } else { swept };
    lemma_unwinds_framed(start, first, turns, from, removed, turns.len() as int, own);
    assert forall|j: int| 0 <= j < turns.len() implies #[trigger] apart_at(turns, j) by {
        if j < n {
            assert(serves(fifo, start, round, turns, j));
        } else if j >= from {
            assert(unwinds_at(first, turns, from, removed, j));
        }
    }
    lemma_apart(turns);
}

/// Dropping a guard does nothing to a registry but give up its listener, tell the policy and
/// run the destructor, each once.
pub proof fn law_cancel_adds_nothing_else<C, H>(
    fifo: bool,
    start: Seq<Entry<C, H>>,
    id: u64,
    turns: Seq<Turn<C, H>>,
    end: Seq<Entry<C, H>>,
)
    requires
        cancel_course(fifo, start, id, turns, end),
    ensures
        framed(
            start,
            end,
            turns,
            turns.len() as int,
            |e: Entry<C, H>|
                e == Entry::<C, H>::Cancelled(id) || e is Notified || e == Entry::<
                    C,
                    H,
                >::Destructed(id),
        ),
        apart(turns),
{
    let own = |e: Entry<C, H>|
        e == Entry::<C, H>::Cancelled(id) || e is Notified || e == Entry::<C, H>::Destructed(id);
    let log = start.push(Entry::Cancelled(id));
    assert(framed(start, start, turns, 0, own));
    lemma_framed_push(start, start, turns, 0, own, Entry::Cancelled(id));
    if turns.len() == 1 {
        lemma_framed_call(start, log, turns, 0, own, Entry::Destructed(id));
    } else if turns.len() == 2 {
        lemma_framed_call(start, log, turns, 0, own, Entry::Notified);
        lemma_framed_call(start, turns[0].last, turns, 1, own, Entry::Destructed(id));
    }
    assert forall|j: int| 0 <= j < turns.len() implies #[trigger] apart_at(turns, j) by {}
    lemma_apart(turns);
}

/// What dropping a registry adds to the log itself.
pub open spec fn own_of_close<C, H>(entry: Entry<C, H>, order: Seq<u64>) -> bool {
    match entry {
        Entry::Closed => true,
        Entry::Detached(id) => order.contains(id),
        Entry::Destructed(id) => order.contains(id),
        Entry::Buried(id) => order.contains(id),
        _ => false,
    }
}

proof fn lemma_winds_up_framed<C, H>(
    start: Seq<Entry<C, H>>,
    order: Seq<u64>,
    turns: Seq<Turn<C, H>>,
    n: int,
    own: spec_fn(Entry<C, H>) -> bool,
)
    requires
        0 <= n <= turns.len(),
        turns.len() == order.len(),
        winds_up(start, order, turns),
        forall|e: Entry<C, H>| #[trigger] own_of_close(e, order) ==> own(e),
    ensures
        framed(start, buried_upto(start, order, turns, n), turns, n, own),
    decreases n,
{
    if n == 0 {
        assert(framed(start, start, turns, 0, own));
        assert(own_of_close(Entry::<C, H>::Closed, order));
        lemma_framed_push(start, start, turns, 0, own, Entry::Closed);
    } else {
        let log = buried_upto(start, order, turns, n - 1);
        let id = order[n - 1];
        assert(order.contains(id));
        assert(own_of_close(Entry::<C, H>::Detached(id), order));
        assert(own_of_close(Entry::<C, H>::Destructed(id), order));
        assert(own_of_close(Entry::<C, H>::Buried(id), order));
        lemma_winds_up_framed(start, order, turns, n - 1, own);
        assert(winds_up_at(start, order, turns, n - 1));
        lemma_framed_push(start, log, turns, n - 1, own, Entry::Detached(id));
        lemma_framed_call(
            start,
            log.push(Entry::Detached(id)),
            turns,
            n - 1,
            own,
            Entry::Destructed(id),
        );
        lemma_framed_push(start, turns[n - 1].last, turns, n, own, Entry::Buried(id));
    }
}

/// Dropping a registry does nothing but destruct its listeners, each once.
pub proof fn law_close_adds_nothing_else<C, H>(
    fifo: bool,
    start: Seq<Entry<C, H>>,
    turns: Seq<Turn<C, H>>,
    end: Seq<Entry<C, H>>,
)
    requires
        close_course(fifo, start, turns, end),
    ensures
        framed(
            start,
            end,
            turns,
            turns.len() as int,
            |e: Entry<C, H>| own_of_close(e, run(fifo, start).order),
        ),
        apart(turns),
{
    let order = run(fifo, start).order;
    let own = |e: Entry<C, H>| own_of_close(e, order);
    lemma_winds_up_framed(start, order, turns, order.len() as int, own);
    assert forall|j: int| 0 <= j < turns.len() implies #[trigger] apart_at(turns, j) by {
        assert(winds_up_at(start, order, turns, j));
    }
    lemma_apart(turns);
}

/// A guard is kept by whatever is done, unless it is dropped by what is done itself or within
/// one of the calls that are made.
pub proof fn law_guard_kept<C, H>(
    fifo: bool,
    start: Seq<Entry<C, H>>,
    end: Seq<Entry<C, H>>,
    turns: Seq<Turn<C, H>>,
    own: spec_fn(Entry<C, H>) -> bool,
    id: u64,
)
    requires
        valid(fifo, end),
        framed(start, end, turns, turns.len() as int, own),
        run(fifo, start).held(id),
        !own(Entry::Cancelled(id)),
        forall|i: int|
            within(turns, turns.len() as int, i) ==> #[trigger] end[i] != Entry::<
                C,
                H,
            >::Cancelled(id),
    ensures
        run(fifo, end).held(id),
{
    lemma_prefix(fifo, end, start.len() as int);
    lemma_monotone(fifo, end, start.len() as int);
    assert(end.take(start.len() as int) =~= start);
    law_held_until_cancelled(fifo, start, id);
    law_held_until_cancelled(fifo, end, id);
    if end.contains(Entry::Cancelled(id)) {
        let i = end.index_of(Entry::Cancelled(id));
        assert(end[i] == Entry::<C, H>::Cancelled(id));
        if i < start.len() {
            assert(start[i] == end[i]);
        }
    }
}

/// What a broadcast finds when it looks for the next listener is on the way to its end.
pub proof fn lemma_arrived_on_the_way<C, H>(
    fifo: bool,
    start: Seq<Entry<C, H>>,
    turns: Seq<Turn<C, H>>,
    n: int,
    end: Seq<Entry<C, H>>,
    k: int,
)
    requires
        broadcast_course(fifo, start, turns, n, end),
        0 <= k <= n,
    ensures
        arrived(start, run(fifo, start).rounds, turns, k).is_prefix_of(end),
{
    let round = run(fifo, start).rounds;
    let log = arrived(start, round, turns, k);
    law_broadcast_adds_nothing_else(fifo, start, turns, n, end);
    if k < n {
        assert(serves(fifo, start, round, turns, k));
        assert(turns[k].last.is_prefix_of(end));
        assert forall|i: int| 0 <= i < log.len() implies log[i] == #[trigger] end[i] by {
            assert(turns[k].first[i] == log[i]);
        }
    } else if turns.len() > n {
        let removed = removed_by(fifo, turns, n);
        let told = removed.len() > 0 && run(fifo, log).order.len() == 0;
        if !told {
            assert(unwinds_at(log.push(Entry::Swept(round)), turns, n, removed, n));
        }
        assert(turns[n].last.is_prefix_of(end));
        assert forall|i: int| 0 <= i < log.len() implies log[i] == #[trigger] end[i] by {
            assert(turns[n].first[i] == log[i]);
        }
    }
    assert(log =~= end.take(log.len() as int));
}

/// A broadcast calls a listener only while its guard is held, and passes over none whose
/// guard is held whenever it looks for the next one.
pub proof fn law_called_if_held<C, H>(
    fifo: bool,
    start: Seq<Entry<C, H>>,
    turns: Seq<Turn<C, H>>,
    n: int,
    end: Seq<Entry<C, H>>,
    id: u64,
)
    requires
        broadcast_course(fifo, start, turns, n, end),
    ensures
        ({
            let round = run(fifo, start).rounds;
            &&& forall|i: int|
                0 <= i < n && (#[trigger] turns[i]).target() == id ==> run(
                    fifo,
                    arrived(start, round, turns, i),
                ).held(id)
            &&& (forall|k: int|
                0 <= k <= n ==> (#[trigger] run(fifo, arrived(start, round, turns, k))).held(id))
                ==> exists|i: int| 0 <= i < n && (#[trigger] turns[i]).target() == id
        }),
{
    let round = run(fifo, start).rounds;
    assert forall|i: int| 0 <= i < n && (#[trigger] turns[i]).target() == id implies run(
        fifo,
        arrived(start, round, turns, i),
    ).held(id) by {
        assert(serves(fifo, start, round, turns, i));
    }
    if forall|k: int|
        0 <= k <= n ==> (#[trigger] run(fifo, arrived(start, round, turns, k))).held(id) {
        if !exists|i: int| 0 <= i < n && (#[trigger] turns[i]).target() == id {
            lemma_not_passed(fifo, start, round, turns, n, id);
            assert(run(fifo, arrived(start, round, turns, n)).held(id));
        }
    }
}

proof fn lemma_not_passed<C, H>(
    fifo: bool,
    start: Seq<Entry<C, H>>,
    round: nat,
    turns: Seq<Turn<C, H>>,
    n: int,
    id: u64,
)
    requires
        0 <= n,
        sweeps(fifo, start, round, turns, n),
        forall|k: int|
            0 <= k <= n ==> (#[trigger] run(fifo, arrived(start, round, turns, k))).held(id),
        forall|i: int| 0 <= i < n ==> (#[trigger] turns[i]).target() != id,
    ensures
        stands(turns, n) is None || later(fifo, stands(turns, n)->0 as int, id as int),
    decreases n,
{
    if n > 0 {
        assert forall|i: int| 0 <= i < n - 1 implies #[trigger] serves(
            fifo,
            start,
            round,
            turns,
            i,
        ) by {}
        lemma_not_passed(fifo, start, round, turns, n - 1, id);
        assert(serves(fifo, start, round, turns, n - 1));
        assert(run(fifo, arrived(start, round, turns, n - 1)).held(id));
        assert(turns[n - 1].target() != id);
    }
}

/// A listener whose guard is held when a broadcast begins, and is not dropped within one of
/// its calls, receives the event.
pub proof fn law_kept_listener_is_called<C, H>(
    fifo: bool,
    start: Seq<Entry<C, H>>,
    turns: Seq<Turn<C, H>>,
    n: int,
    end: Seq<Entry<C, H>>,
    id: u64,
)
    requires
        valid(fifo, end),
        broadcast_course(fifo, start, turns, n, end),
        run(fifo, start).held(id),
        forall|i: int|
            within(turns, turns.len() as int, i) ==> #[trigger] end[i] != Entry::<
                C,
                H,
            >::Cancelled(id),
    ensures
        exists|i: int| 0 <= i < n && (#[trigger] turns[i]).target() == id,
        run(fifo, end).held(id),
{
    let round = run(fifo, start).rounds;
    let removed = removed_by(fifo, turns, n);
    let own = |e: Entry<C, H>| own_of_broadcast(e, round, removed);
    law_broadcast_adds_nothing_else(fifo, start, turns, n, end);
    law_guard_kept(fifo, start, end, turns, own, id);
    assert forall|k: int| 0 <= k <= n implies (#[trigger] run(
        fifo,
        arrived(start, round, turns, k),
    )).held(id) by {
        let log = arrived(start, round, turns, k);
        lemma_arrived_on_the_way(fifo, start, turns, n, end, k);
        assert(end.take(log.len() as int) =~= log);
        lemma_prefix(fifo, end, log.len() as int);
        lemma_monotone(fifo, end, log.len() as int);
        law_held_until_cancelled(fifo, end, id);
        law_held_until_cancelled(fifo, log, id);
        if log.contains(Entry::Cancelled(id)) {
            let j = log.index_of(Entry::Cancelled(id));
            assert(end[j] == log[j]);
        }
        assert(sweeps(fifo, start, round, turns, k)) by {
            assert forall|i: int| 0 <= i < k implies #[trigger] serves(
                fifo,
                start,
                round,
                turns,
                i,
            ) by {}
        }
        lemma_sweeps_framed(fifo, start, round, turns, k, own);
        lemma_prefix(fifo, log, start.len() as int);
        lemma_monotone(fifo, log, start.len() as int);
        assert(log.take(start.len() as int) =~= start);
        law_held_until_cancelled(fifo, start, id);
    }
    law_called_if_held(fifo, start, turns, n, end, id);
}

/// Whether no call did anything to the registry.
pub open spec fn quiet<C, H>(turns: Seq<Turn<C, H>>) -> bool {
    forall|i: int| 0 <= i < turns.len() ==> (#[trigger] turns[i]).last == turns[i].first
}

/// With quiet listeners a broadcast finds the registry, after each call, as it was.
proof fn lemma_quiet_sweep<C, H>(
    fifo: bool,
    start: Seq<Entry<C, H>>,
    turns: Seq<Turn<C, H>>,
    n: int,
)
    requires
        valid(fifo, start),
        run(fifo, start).open,
        0 <= n <= turns.len(),
        sweeps(fifo, start, run(fifo, start).rounds, turns, n),
        quiet(turns),
    ensures
        ({
            let m = run(fifo, start);
            let log = arrived(start, m.rounds, turns, n);
            &&& run(fifo, log) == (Model { rounds: m.rounds + 1, ..m })
            &&& removed_by(fifo, turns, n) == Seq::<u64>::empty()
        }),
    decreases n,
{
    let m = run(fifo, start);
    let round = m.rounds;
    if n == 0 {
        lemma_push(fifo, start, Entry::Begun(round));
    } else {
        assert forall|i: int| 0 <= i < n - 1 implies #[trigger] serves(
            fifo,
            start,
            round,
            turns,
            i,
        ) by {}
        lemma_quiet_sweep(fifo, start, turns, n - 1);
        assert(serves(fifo, start, round, turns, n - 1));
        lemma_inv(fifo, start);
        lemma_not_called(fifo, m);
        let log = arrived(start, round, turns, n - 1);
        let turn = turns[n - 1];
        let id = turn.target();
        let back = Entry::<C, H>::Returned { round, id };
        lemma_push(fifo, log, turn.first.last());
        lemma_push(fifo, turn.last, back);
        let now = run(fifo, log);
        let called = run(fifo, turn.first);
        let next = run(fifo, turn.last.push(back));
        assert(turn.last == turn.first);
        assert(now.held(id));
        assert(!called.leaves(id));
        assert(next.slots =~= now.slots);
        assert(next.calling =~= now.calling);
    }
}

/// The calls of a quiet broadcast are those of the listeners that are not cancelled, in the
/// order of the list.
pub open spec fn calls_in_order<C, H>(
    fifo: bool,
    m: Model<H>,
    turns: Seq<Turn<C, H>>,
    n: int,
) -> bool {
    &&& forall|i: int| 0 <= i < n ==> m.held((#[trigger] turns[i]).target())
    &&& forall|i: int, j: int|
        0 <= i < j < n ==> later(
            fifo,
            (#[trigger] turns[i]).target() as int,
            (#[trigger] turns[j]).target() as int,
        )
    &&& forall|id: u64| #[trigger]
        m.held(id) && n > 0 && !later(fifo, turns[n - 1].target() as int, id as int)
            ==> exists|i: int| 0 <= i < n && (#[trigger] turns[i]).target() == id
}

proof fn lemma_quiet_calls<C, H>(
    fifo: bool,
    start: Seq<Entry<C, H>>,
    turns: Seq<Turn<C, H>>,
    n: int,
)
    requires
        valid(fifo, start),
        run(fifo, start).open,
        0 <= n <= turns.len(),
        sweeps(fifo, start, run(fifo, start).rounds, turns, n),
        quiet(turns),
    ensures
        calls_in_order(fifo, run(fifo, start), turns, n),
    decreases n,
{
    let m = run(fifo, start);
    let round = m.rounds;
    if n > 0 {
        assert forall|i: int| 0 <= i < n - 1 implies #[trigger] serves(
            fifo,
            start,
            round,
            turns,
            i,
        ) by {}
        lemma_quiet_calls(fifo, start, turns, n - 1);
        lemma_quiet_sweep(fifo, start, turns, n - 1);
        assert(serves(fifo, start, round, turns, n - 1));
        let now = run(fifo, arrived(start, round, turns, n - 1));
        let id = turns[n - 1].target();
        assert(now.held(id));
        assert forall|i: int, j: int| 0 <= i < j < n implies later(
            fifo,
            (#[trigger] turns[i]).target() as int,
            (#[trigger] turns[j]).target() as int,
        ) by {
            if j == n - 1 && i < n - 2 {
                assert(later(
                    fifo,
                    turns[i].target() as int,
                    turns[n - 2].target() as int,
                ));
            }
        }
        assert forall|x: u64| #[trigger]
            m.held(x) && !later(fifo, id as int, x as int) implies exists|i: int|
            0 <= i < n && (#[trigger] turns[i]).target() == x by {
            assert(now.held(x));
            if x == id {
                assert(turns[n - 1].target() == x);
            } else {
                assert(n > 1 && !later(fifo, turns[n - 2].target() as int, x as int));
                let i = choose|i: int|
                    0 <= i < n - 1 && (#[trigger] turns[i]).target() == x;
                assert(turns[i].target() == x);
            }
        }
    }
}

/// A broadcast to listeners that do nothing to the registry calls each of those that are not
/// cancelled once, in the order of the list, calls no one else, removes and destructs no one,
/// tells the policy nothing, and leaves everything as it was.
pub proof fn law_quiet_broadcast<C, H>(
    fifo: bool,
    start: Seq<Entry<C, H>>,
    turns: Seq<Turn<C, H>>,
    n: int,
    end: Seq<Entry<C, H>>,
)
    requires
        valid(fifo, start),
        run(fifo, start).open,
        broadcast_course(fifo, start, turns, n, end),
        quiet(turns),
    ensures
        turns.len() == n,
        run(fifo, end) == (Model { rounds: run(fifo, start).rounds + 1, ..run(fifo, start) }),
        calls_in_order(fifo, run(fifo, start), turns, n),
        forall|id: u64| #[trigger]
            run(fifo, start).held(id) ==> exists|i: int|
                0 <= i < n && (#[trigger] turns[i]).target() == id,
{
    let m = run(fifo, start);
    let round = m.rounds;
    let log = arrived(start, round, turns, n);
    lemma_quiet_sweep(fifo, start, turns, n);
    lemma_quiet_calls(fifo, start, turns, n);
    lemma_push(fifo, log, Entry::Swept(round));
    assert forall|id: u64| #[trigger] m.held(id) implies exists|i: int|
        0 <= i < n && (#[trigger] turns[i]).target() == id by {
        assert(run(fifo, log).held(id));
    }
}

/// While no listener is being called, a quiet broadcast calls exactly the listeners of the
/// list, in its order.
pub proof fn law_quiet_broadcast_goes_through_the_list<C, H>(
    fifo: bool,
    start: Seq<Entry<C, H>>,
    turns: Seq<Turn<C, H>>,
    n: int,
    end: Seq<Entry<C, H>>,
)
    requires
        valid(fifo, start),
        run(fifo, start).open,
        forall|id: u64| #[trigger] run(fifo, start).visits(id) == 0,
        broadcast_course(fifo, start, turns, n, end),
        quiet(turns),
    ensures
        n == run(fifo, start).order.len(),
        forall|i: int| 0 <= i < n ==> (#[trigger] turns[i]).target() == run(fifo, start).order[i],
{
    let m = run(fifo, start);
    lemma_inv(fifo, start);
    law_quiet_broadcast(fifo, start, turns, n, end);
    assert forall|i: int| 0 <= i < m.order.len() implies m.held(#[trigger] m.order[i]) by {
        assert(m.order.contains(m.order[i]));
        assert(m.visits(m.order[i]) == 0);
    }
    lemma_same_order(fifo, m, turns, n, 0);
}

proof fn lemma_same_order<C, H>(
    fifo: bool,
    m: Model<H>,
    turns: Seq<Turn<C, H>>,
    n: int,
    k: int,
)
    requires
        m.inv(fifo),
        m.open,
        0 <= k <= n <= turns.len(),
        k <= m.order.len(),
        calls_in_order(fifo, m, turns, n),
        forall|i: int| 0 <= i < m.order.len() ==> m.held(#[trigger] m.order[i]),
        forall|id: u64| #[trigger]
            m.held(id) ==> exists|i: int| 0 <= i < n && (#[trigger] turns[i]).target() == id,
        forall|i: int| 0 <= i < k ==> (#[trigger] turns[i]).target() == m.order[i],
    ensures
        n == m.order.len(),
        forall|i: int| 0 <= i < n ==> (#[trigger] turns[i]).target() == m.order[i],
    decreases n - k,
{
    if k < m.order.len() {
        let x = m.order[k];
        assert(m.held(x));
        let j = choose|j: int| 0 <= j < n && (#[trigger] turns[j]).target() == x;
        if j < k {
            assert(turns[j].target() == m.order[j]);
            assert(later(fifo, m.order[j] as int, m.order[k] as int));
        }
        assert(k < n);
        let y = turns[k].target();
        assert(m.held(y));
        assert(m.order.contains(y));
        let p = m.order.index_of(y);
        assert(m.order[p] == y);
        if p < k {
            assert(turns[p].target() == y);
            assert(later(fifo, turns[p].target() as int, turns[k].target() as int));
        }
        if p > k {
            assert(later(fifo, m.order[k] as int, m.order[p] as int));
            if j > k {
                assert(later(fifo, turns[k].target() as int, turns[j].target() as int));
            }
        }
        assert(y == x);
        lemma_same_order(fifo, m, turns, n, k + 1);
    } else if k < n {
        let y = turns[k].target();
        assert(m.held(y));
        assert(m.order.contains(y));
        let p = m.order.index_of(y);
        assert(turns[p].target() == y);
        assert(later(fifo, turns[p].target() as int, turns[k].target() as int));
    }
}

/// With a policy and a destructor that do nothing to the registry, dropping a guard takes
/// exactly that listener out and leaves everything else as it was.
pub proof fn law_quiet_cancel<C, H>(
    fifo: bool,
    start: Seq<Entry<C, H>>,
    id: u64,
    turns: Seq<Turn<C, H>>,
    end: Seq<Entry<C, H>>,
)
    requires
        valid(fifo, start),
        run(fifo, start).held(id),
        cancel_course(fifo, start, id, turns, end),
        quiet(turns),
    ensures
        run(fifo, end) == (Model {
            pending: run(fifo, start).pending,
            ..run(fifo, start).cancel(id)
        }),
{
    let m = run(fifo, start);
    let log = start.push(Entry::Cancelled(id));
    lemma_inv(fifo, start);
    lemma_push(fifo, start, Entry::Cancelled(id));
    let n = run(fifo, log);
    if m.visits(id) == 0 && m.alive(id) {
        assert(m.order.contains(id));
        assert(!m.pending.contains_key(id));
        assert(n.pending.remove(id) =~= m.pending);
        lemma_push(fifo, log, Entry::Notified);
        lemma_push(fifo, log, Entry::Destructed(id));
        lemma_push(fifo, log.push(Entry::Notified), Entry::Destructed(id));
        assert(turns[0].last == turns[0].first);
        if turns.len() == 2 {
            assert(turns[1].last == turns[1].first);
        }
    }
}

proof fn lemma_quiet_close<C, H>(
    fifo: bool,
    start: Seq<Entry<C, H>>,
    turns: Seq<Turn<C, H>>,
    n: int,
)
    requires
        valid(fifo, start),
        run(fifo, start).enabled(Entry::<C, H>::Closed),
        turns.len() == run(fifo, start).order.len(),
        winds_up(start, run(fifo, start).order, turns),
        quiet(turns),
        0 <= n <= turns.len(),
    ensures
        ({
            let m = run(fifo, start);
            let log = buried_upto(start, m.order, turns, n);
            let now = run(fifo, log);
            &&& valid(fifo, log)
            &&& !now.open
            &&& now.order == m.order.skip(n)
            &&& now.pending == m.pending
            &&& now.next_id == m.next_id
            &&& now.slots.dom() == m.slots.dom()
            &&& forall|i: int|
                0 <= i < m.order.len() ==> now.slots[#[trigger] m.order[i]] == if i < n {
                    dead_slot()
                } else {
                    doomed_slot()
                }
        }),
    decreases n,
{
    let m = run(fifo, start);
    lemma_inv(fifo, start);
    if n == 0 {
        let log = start.push(Entry::Closed);
        lemma_push(fifo, start, Entry::Closed);
        let now = run(fifo, log);
        assert(now.slots.dom() =~= m.slots.dom());
        assert(m.order.skip(0) =~= m.order);
        assert forall|i: int| 0 <= i < m.order.len() implies now.slots[#[trigger] m.order[i]]
            == doomed_slot() by {
            assert(m.order.contains(m.order[i]));
        }
    } else {
        let id = m.order[n - 1];
        let log = buried_upto(start, m.order, turns, n - 1);
        lemma_quiet_close(fifo, start, turns, n - 1);
        assert(winds_up_at(start, m.order, turns, n - 1));
        let now = run(fifo, log);
        assert(now.order[0] == id);
        assert(m.order.contains(id));
        let detached = log.push(Entry::Detached(id));
        let destructed = detached.push(Entry::Destructed(id));
        lemma_inv(fifo, log);
        lemma_push(fifo, log, Entry::Detached(id));
        lemma_push(fifo, detached, Entry::Destructed(id));
        assert(turns[n - 1].last == destructed);
        assert(now.order.contains(id));
        assert(!now.pending.contains_key(id));
        assert(run(fifo, destructed).pending =~= m.pending);
        assert(run(fifo, destructed).order =~= m.order.skip(n));
        assert(!run(fifo, destructed).order.contains(id)) by {
            if run(fifo, destructed).order.contains(id) {
                let k = m.order.skip(n).index_of(id);
                assert(m.order[k + n] == m.order[n - 1]);
                assert(later(fifo, m.order[n - 1] as int, m.order[k + n] as int));
            }
        }
        assert(now.slots[m.order[n - 1]] == doomed_slot());
        lemma_push(fifo, destructed, Entry::Buried(id));
        let next = run(fifo, destructed.push(Entry::Buried(id)));
        assert(next.slots.dom() =~= m.slots.dom());
        assert forall|i: int| 0 <= i < m.order.len() implies next.slots[#[trigger] m.order[i]]
            == if i < n {
            dead_slot()
        } else {
            doomed_slot()
        } by {
            if i < n - 1 {
                assert(later(fifo, m.order[i] as int, m.order[n - 1] as int));
            }
            if i > n - 1 {
                assert(later(fifo, m.order[n - 1] as int, m.order[i] as int));
            }
        }
    }
}

/// With destructors that do nothing to the registry, dropping it leaves every guard as it
/// was: it can be dropped later on.
pub proof fn law_quiet_close<C, H>(
    fifo: bool,
    start: Seq<Entry<C, H>>,
    turns: Seq<Turn<C, H>>,
    end: Seq<Entry<C, H>>,
)
    requires
        valid(fifo, start),
        run(fifo, start).enabled(Entry::<C, H>::Closed),
        close_course(fifo, start, turns, end),
        quiet(turns),
    ensures
        !run(fifo, end).open,
        run(fifo, end).order.len() == 0,
        run(fifo, end).pending == run(fifo, start).pending,
        forall|id: u64| #[trigger] run(fifo, end).held(id) == run(fifo, start).held(id),
        forall|id: u64| #[trigger] run(fifo, end).visits(id) == 0,
        forall|id: u64| !#[trigger] run(fifo, end).alive(id),
{
    let m = run(fifo, start);
    let n = m.order.len() as int;
    let now = run(fifo, end);
    lemma_inv(fifo, start);
    lemma_quiet_close(fifo, start, turns, n);
    assert forall|id: u64| #[trigger]
        now.slots.contains_key(id) implies now.slots[id] == dead_slot() by {
        assert(m.slots.dom().contains(id));
        assert(m.slots.contains_key(id));
        let i = m.order.index_of(id);
        assert(m.order[i] == id);
    }
    assert forall|id: u64| #[trigger] now.held(id) == m.held(id) by {
        assert(now.slots.dom().contains(id) == m.slots.dom().contains(id));
        assert(m.visits(id) == 0);
    }
}

} // verus!
