//! Where in the log the entries of a broadcast stand.
use crate::course::{
    arrived, broadcast_course, removed_by, serves, sweeps, unwinds_at, Turn,
};
use crate::facts::{count, lemma_count_extend, lemma_count_push};
use crate::frames::{law_broadcast_adds_nothing_else, lemma_arrived_on_the_way};
use crate::history::{lemma_prefix, run, valid, Entry};
use crate::rounds::{
    lemma_monotone, lemma_no_removals, lemma_removals_extend, lemma_removals_push,
    lemma_round_begun, of_round, removals, since_round,
};
use vstd::prelude::*;

verus! {

/// Whether nothing was done during the call in the name of that broadcast or an earlier one.
pub open spec fn apart_from<C, H>(turn: Turn<C, H>, round: nat) -> bool {
    forall|i: int|
        turn.first.len() <= i < turn.last.len() ==> since_round(
            #[trigger] turn.last[i],
            round + 1,
        )
}

/// Whether none of the calls did anything in the name of the broadcast that made them.
pub open spec fn all_apart<C, H>(turns: Seq<Turn<C, H>>, round: nat) -> bool {
    forall|j: int| 0 <= j < turns.len() ==> apart_from(#[trigger] turns[j], round)
}

/// Whether index `i` of the log is that of the entry for one of the first `upto` calls.
pub open spec fn opens_call<C, H>(turns: Seq<Turn<C, H>>, upto: int, i: int) -> bool {
    exists|j: int| 0 <= j < upto && (#[trigger] turns[j]).first.len() == i + 1
}

/// Up to where it looks for the next listener, a broadcast makes no delivery but by a call.
proof fn lemma_deliveries_before<C, H>(
    fifo: bool,
    start: Seq<Entry<C, H>>,
    round: nat,
    turns: Seq<Turn<C, H>>,
    k: int,
    i: int,
)
    requires
        0 <= k <= turns.len(),
        sweeps(fifo, start, round, turns, k),
        all_apart(turns, round),
        start.len() <= i < arrived(start, round, turns, k).len(),
        of_round(arrived(start, round, turns, k)[i], round) || arrived(start, round, turns, k)[i]
            == Entry::<C, H>::Swept(round),
    ensures
        opens_call(turns, k, i),
        of_round(arrived(start, round, turns, k)[i], round),
    decreases k,
{
    if k > 0 {
        let before = arrived(start, round, turns, k - 1);
        let now = arrived(start, round, turns, k);
        let turn = turns[k - 1];
        assert(sweeps(fifo, start, round, turns, k - 1)) by {
            assert forall|j: int| 0 <= j < k - 1 implies #[trigger] serves(
                fifo,
                start,
                round,
                turns,
                j,
            ) by {}
        }
        assert(serves(fifo, start, round, turns, k - 1));
        if i < before.len() {
            assert(now[i] == turn.last[i] && turn.last[i] == turn.first[i] && turn.first[i]
                == before[i]);
            lemma_deliveries_before(fifo, start, round, turns, k - 1, i);
            let j = choose|j: int|
                0 <= j < k - 1 && (#[trigger] turns[j]).first.len() == i + 1;
            assert(turns[j].first.len() == i + 1);
        } else if i == before.len() {
            assert(turns[k - 1].first.len() == i + 1);
            assert(now[i] == turn.last[i] && turn.last[i] == turn.first[i]);
        } else if i < turn.last.len() {
            assert(apart_from(turns[k - 1], round));
            assert(now[i] == turn.last[i]);
        }
    }
}

/// When it looks for the next listener, a broadcast has made as many deliveries as calls, and
/// removed the nodes that the calls left to it.
proof fn lemma_counts_before<C, H>(
    fifo: bool,
    start: Seq<Entry<C, H>>,
    turns: Seq<Turn<C, H>>,
    k: int,
)
    requires
        0 <= k <= turns.len(),
        valid(fifo, start),
        sweeps(fifo, start, run(fifo, start).rounds, turns, k),
        all_apart(turns, run(fifo, start).rounds),
    ensures
        ({
            let round = run(fifo, start).rounds;
            let log = arrived(start, round, turns, k);
            &&& count(log, |e: Entry<C, H>| of_round(e, round)) == k
            &&& removals(fifo, log, round) == removed_by(fifo, turns, k)
        }),
    decreases k,
{
    let round = run(fifo, start).rounds;
    let kind = |e: Entry<C, H>| of_round(e, round);
    let now = arrived(start, round, turns, k);
    if k == 0 {
        let none = Seq::<Entry<C, H>>::empty();
        assert forall|i: int| 0 <= i < start.len() implies !kind(#[trigger] start[i]) by {
            if of_round(start[i], round) {
                lemma_round_begun(fifo, start, i, round);
            }
        }
        lemma_count_extend(none, start, kind);
        lemma_count_push(start, kind, Entry::Begun(round));
        lemma_no_removals(fifo, start, round);
        lemma_removals_push(fifo, start, round, Entry::Begun(round));
    } else {
        let before = arrived(start, round, turns, k - 1);
        let turn = turns[k - 1];
        assert(sweeps(fifo, start, round, turns, k - 1)) by {
            assert forall|j: int| 0 <= j < k - 1 implies #[trigger] serves(
                fifo,
                start,
                round,
                turns,
                j,
            ) by {}
        }
        lemma_counts_before(fifo, start, turns, k - 1);
        assert(serves(fifo, start, round, turns, k - 1));
        assert(apart_from(turns[k - 1], round));
        let made = turn.first.last();
        lemma_count_push(before, kind, made);
        lemma_count_extend(turn.first, turn.last, kind);
        lemma_removals_push(fifo, before, round, made);
        lemma_removals_extend(fifo, turn.first, turn.last, round);
        let back = Entry::<C, H>::Returned { round, id: turn.target() };
        lemma_count_push(turn.last, kind, back);
        lemma_removals_push(fifo, turn.last, round, back);
    }
}

/// After it has called everyone, a broadcast makes no delivery any more.
proof fn lemma_nothing_after<C, H>(
    fifo: bool,
    start: Seq<Entry<C, H>>,
    turns: Seq<Turn<C, H>>,
    n: int,
    end: Seq<Entry<C, H>>,
    k: int,
    i: int,
)
    requires
        broadcast_course(fifo, start, turns, n, end),
        all_apart(turns, run(fifo, start).rounds),
        n < k <= turns.len(),
        arrived(start, run(fifo, start).rounds, turns, n).len() < i < turns[k - 1].last.len(),
    ensures
        since_round(turns[k - 1].last[i], run(fifo, start).rounds + 1),
    decreases k,
{
    let round = run(fifo, start).rounds;
    let log = arrived(start, round, turns, n);
    let swept = log.push(Entry::Swept(round));
    let removed = removed_by(fifo, turns, n);
    let told = removed.len() > 0 && run(fifo, log).order.len() == 0;
    let from = if told { n + 1 } else { n };
    let first = if told { turns[n].last } else { swept };
    let turn = turns[k - 1];
    assert(apart_from(turns[k - 1], round));
    if k - 1 >= from {
        assert(unwinds_at(first, turns, from, removed, k - 1));
    }
    if i < turn.first.len() {
        assert(turn.last[i] == turn.first[i]);
        if i < turn.first.len() - 1 {
            assert(k - 1 > n);
            assert(turn.first[i] == turns[k - 2].last[i]);
            lemma_nothing_after(fifo, start, turns, n, end, k - 1, i);
        }
    }
}

/// Where the entries of a broadcast stand. Its deliveries are the entries of its first `n`
/// calls, as many as there are, and it ends after them, once.
pub proof fn lemma_places<C, H>(
    fifo: bool,
    start: Seq<Entry<C, H>>,
    turns: Seq<Turn<C, H>>,
    n: int,
    end: Seq<Entry<C, H>>,
)
    requires
        valid(fifo, end),
        start.is_prefix_of(end),
        broadcast_course(fifo, start, turns, n, end),
        all_apart(turns, run(fifo, start).rounds),
    ensures
        ({
            let round = run(fifo, start).rounds;
            let log = arrived(start, round, turns, n);
            &&& log.is_prefix_of(end)
            &&& end[log.len() as int] == Entry::<C, H>::Swept(round)
            &&& log.len() < end.len()
            &&& forall|i: int|
                0 <= i < end.len() && of_round(#[trigger] end[i], round) ==> opens_call(
                    turns,
                    n,
                    i,
                )
            &&& forall|i: int|
                0 <= i < end.len() && #[trigger] end[i] == Entry::<C, H>::Swept(round) ==> i
                    == log.len()
            &&& count(end, |e: Entry<C, H>| of_round(e, round)) == n
            &&& removals(fifo, end, round) == removed_by(fifo, turns, n)
            &&& forall|j: int|
                0 <= j < turns.len() ==> (#[trigger] turns[j]).last.is_prefix_of(end)
        }),
{
    let round = run(fifo, start).rounds;
    let kind = |e: Entry<C, H>| of_round(e, round);
    let log = arrived(start, round, turns, n);
    let swept = log.push(Entry::Swept(round));
    let removed = removed_by(fifo, turns, n);
    let told = removed.len() > 0 && run(fifo, log).order.len() == 0;
    let s = start.len() as int;
    law_broadcast_adds_nothing_else(fifo, start, turns, n, end);
    lemma_arrived_on_the_way(fifo, start, turns, n, end, n);
    lemma_prefix(fifo, end, s);
    assert(end.take(s) =~= start);
    lemma_counts_before(fifo, start, turns, n);
    assert(swept.is_prefix_of(end)) by {
        if turns.len() > n {
            if !told {
                assert(unwinds_at(swept, turns, n, removed, n));
            }
            assert(turns[n].last.is_prefix_of(end));
            assert forall|i: int| 0 <= i < swept.len() implies swept[i] == #[trigger] end[i] by {
                assert(turns[n].first[i] == swept[i]);
            }
        }
        assert(swept =~= end.take(swept.len() as int));
    }
    assert(end[log.len() as int] == swept[log.len() as int]);
    assert forall|i: int| swept.len() <= i < end.len() implies since_round(
        #[trigger] end[i],
        round + 1,
    ) by {
        lemma_nothing_after(fifo, start, turns, n, end, turns.len() as int, i);
    }
    lemma_count_push(log, kind, Entry::Swept(round));
    lemma_count_extend(swept, end, kind);
    lemma_removals_push(fifo, log, round, Entry::Swept(round));
    lemma_removals_extend(fifo, swept, end, round);
    assert forall|i: int|
        0 <= i < end.len() && (of_round(#[trigger] end[i], round) || end[i] == Entry::<
            C,
            H,
        >::Swept(round)) implies i == log.len() || (opens_call(turns, n, i) && of_round(
        end[i],
        round,
    )) by {
        if i < s {
            assert(start[i] == end[i]);
            lemma_prefix(fifo, start, i);
            lemma_monotone(fifo, start, i);
        } else if i < log.len() {
            assert(log[i] == end[i]);
            lemma_deliveries_before(fifo, start, round, turns, n, i);
        }
    }
}

} // verus!
