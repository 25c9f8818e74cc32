//! The exact course of what a registry does on a single thread: which entries it adds to its
//! log itself, and where it calls a listener, a destructor or the policy. What is added while
//! such a call is in progress is the doing of whoever is called.
use crate::history::{is_next, run, Entry};
use crate::rounds::{of_round, target};
use vstd::prelude::*;

verus! {

/// A call of a listener, a destructor or the policy: the log when it was made, which ends
/// with the entry that stands for it, and the log when it came back.
pub struct Turn<C, H> {
    pub first: Seq<Entry<C, H>>,
    pub last: Seq<Entry<C, H>>,
}

impl<C, H> Turn<C, H> {
    /// Whether this is the call for `entry`, made when the log was `log`.
    pub open spec fn follows(self, log: Seq<Entry<C, H>>, entry: Entry<C, H>) -> bool {
        &&& self.first == log.push(entry)
        &&& self.first.is_prefix_of(self.last)
    }

    /// The node whose listener was called with an event.
    pub open spec fn target(self) -> u64 {
        target(self.first.last())
    }
}

/// The log when a broadcast looks for the next listener to call, after its first `n` calls.
pub open spec fn arrived<C, H>(
    start: Seq<Entry<C, H>>,
    round: nat,
    turns: Seq<Turn<C, H>>,
    n: int,
) -> Seq<Entry<C, H>> {
    if n <= 0 {
        start.push(Entry::Begun(round))
    } else {
        turns[n - 1].last.push(Entry::Returned { round, id: turns[n - 1].target() })
    }
}

/// The node that a broadcast called last, after its first `n` calls.
pub open spec fn stands<C, H>(turns: Seq<Turn<C, H>>, n: int) -> Option<u64> {
    if n <= 0 {
        None
    } else {
        Some(turns[n - 1].target())
    }
}

/// Call `i` of a broadcast is that of the next listener in the list that was not cancelled.
pub open spec fn serves<C, H>(
    fifo: bool,
    start: Seq<Entry<C, H>>,
    round: nat,
    turns: Seq<Turn<C, H>>,
    i: int,
) -> bool {
    let log = arrived(start, round, turns, i);
    &&& turns[i].follows(log, turns[i].first.last())
    &&& of_round(turns[i].first.last(), round)
    &&& is_next(fifo, run(fifo, log), stands(turns, i), Some(turns[i].target()))
}

/// The first `n` calls of a broadcast are those of the listeners, one after another.
pub open spec fn sweeps<C, H>(
    fifo: bool,
    start: Seq<Entry<C, H>>,
    round: nat,
    turns: Seq<Turn<C, H>>,
    n: int,
) -> bool {
    forall|i: int| 0 <= i < n ==> #[trigger] serves(fifo, start, round, turns, i)
}

/// The nodes that a broadcast removed when its first `n` calls came back: their guards were
/// gone, and no other call of them was in progress.
pub open spec fn removed_by<C, H>(fifo: bool, turns: Seq<Turn<C, H>>, n: int) -> Seq<u64>
    decreases n,
{
    if n <= 0 {
        Seq::empty()
    } else {
        let rest = removed_by(fifo, turns, n - 1);
        let id = turns[n - 1].target();
        if run(fifo, turns[n - 1].last).leaves(id) {
            rest.push(id)
        } else {
            rest
        }
    }
}

/// Later calls change nothing of how far a broadcast had got.
pub proof fn lemma_course_extends<C, H>(
    fifo: bool,
    start: Seq<Entry<C, H>>,
    round: nat,
    turns: Seq<Turn<C, H>>,
    longer: Seq<Turn<C, H>>,
    n: int,
)
    requires
        turns.is_prefix_of(longer),
        0 <= n <= turns.len(),
    ensures
        arrived(start, round, longer, n) == arrived(start, round, turns, n),
        stands(longer, n) == stands(turns, n),
        removed_by(fifo, longer, n) == removed_by(fifo, turns, n),
        sweeps(fifo, start, round, turns, n) ==> sweeps(fifo, start, round, longer, n),
    decreases n,
{
    assert forall|i: int| 0 <= i < n implies longer[i] == turns[i] by {}
    if n > 0 {
        lemma_course_extends(fifo, start, round, turns, longer, n - 1);
    }
    if sweeps(fifo, start, round, turns, n) {
        assert forall|i: int| 0 <= i < n implies #[trigger] serves(
            fifo,
            start,
            round,
            longer,
            i,
        ) by {
            assert(serves(fifo, start, round, turns, i));
            assert(arrived(start, round, longer, i) == arrived(start, round, turns, i));
            assert(stands(longer, i) == stands(turns, i));
        }
    }
}

/// A broadcast calls one more listener.
pub proof fn lemma_serve<C, H>(
    fifo: bool,
    start: Seq<Entry<C, H>>,
    round: nat,
    turns: Seq<Turn<C, H>>,
    turn: Turn<C, H>,
)
    requires
        sweeps(fifo, start, round, turns, turns.len() as int),
        turn.follows(arrived(start, round, turns, turns.len() as int), turn.first.last()),
        of_round(turn.first.last(), round),
        is_next(
            fifo,
            run(fifo, arrived(start, round, turns, turns.len() as int)),
            stands(turns, turns.len() as int),
            Some(turn.target()),
        ),
    ensures
        sweeps(fifo, start, round, turns.push(turn), turns.len() + 1int),
{
    let n = turns.len() as int;
    let longer = turns.push(turn);
    lemma_course_extends(fifo, start, round, turns, longer, n);
    assert forall|i: int| 0 <= i < n + 1 implies #[trigger] serves(fifo, start, round, longer, i) by {
        if i == n {
            assert(longer[n] == turn);
        }
    }
}

/// A broadcast is over once the policy was told, if it has to be, and the listeners of the
/// nodes that it removed were destructed.
pub proof fn lemma_broadcast_course<C, H>(
    fifo: bool,
    start: Seq<Entry<C, H>>,
    turns: Seq<Turn<C, H>>,
    told: Seq<Turn<C, H>>,
    gone: Seq<Turn<C, H>>,
    end: Seq<Entry<C, H>>,
)
    requires
        ({
            let round = run(fifo, start).rounds;
            let n = turns.len() as int;
            let log = arrived(start, round, turns, n);
            let swept = log.push(Entry::Swept(round));
            let removed = removed_by(fifo, turns, n);
            &&& sweeps(fifo, start, round, turns, n)
            &&& is_next(fifo, run(fifo, log), stands(turns, n), None)
            &&& told.len() == if removed.len() > 0 && run(fifo, log).order.len() == 0 {
                1nat
            } else {
                0
            }
            &&& told.len() > 0 ==> told[0].follows(swept, Entry::Notified)
            &&& gone.len() == removed.len()
            &&& unwinds(
                if told.len() > 0 {
                    told[0].last
                } else {
                    swept
                },
                gone,
                0,
                removed,
            )
            &&& end == if gone.len() > 0 {
                gone.last().last
            } else {
                swept
            }
        }),
    ensures
        broadcast_course(fifo, start, turns + told + gone, turns.len() as int, end),
{
    let round = run(fifo, start).rounds;
    let n = turns.len() as int;
    let all = turns + told + gone;
    let removed = removed_by(fifo, turns, n);
    let from = n + told.len();
    let log = arrived(start, round, turns, n);
    let swept = log.push(Entry::Swept(round));
    let first = if told.len() > 0 { told[0].last } else { swept };
    lemma_course_extends(fifo, start, round, turns, all, n);
    if told.len() > 0 {
        assert(all[n] == told[0]);
    }
    assert forall|j: int| from <= j < all.len() implies #[trigger] unwinds_at(
        first,
        all,
        from,
        removed,
        j,
    ) by {
        let i = j - from;
        assert(unwinds_at(first, gone, 0, removed, i));
        assert(all[j] == gone[i]);
        if i > 0 {
            assert(all[j - 1] == gone[i - 1]);
        }
    }
    if all.len() > n {
        assert(all.last() == gone.last());
    }
}

/// Call `j` destructs the listener of the removed node whose turn it is.
pub open spec fn unwinds_at<C, H>(
    log: Seq<Entry<C, H>>,
    turns: Seq<Turn<C, H>>,
    from: int,
    removed: Seq<u64>,
    j: int,
) -> bool {
    turns[j].follows(
        if j == from {
            log
        } else {
            turns[j - 1].last
        },
        Entry::Destructed(removed[removed.len() - 1 - (j - from)]),
    )
}

/// The calls from `from` on destruct the listeners of the removed nodes, the last one first,
/// beginning when the log is `log`.
pub open spec fn unwinds<C, H>(
    log: Seq<Entry<C, H>>,
    turns: Seq<Turn<C, H>>,
    from: int,
    removed: Seq<u64>,
) -> bool {
    forall|j: int|
        from <= j < turns.len() ==> #[trigger] unwinds_at(log, turns, from, removed, j)
}

/// The course of a broadcast that makes `n` deliveries. Nothing but what stands here is added
/// to the log, except within the calls.
pub open spec fn broadcast_course<C, H>(
    fifo: bool,
    start: Seq<Entry<C, H>>,
    turns: Seq<Turn<C, H>>,
    n: int,
    end: Seq<Entry<C, H>>,
) -> bool {
    let round = run(fifo, start).rounds;
    let log = arrived(start, round, turns, n);
    let swept = log.push(Entry::Swept(round));
    let removed = removed_by(fifo, turns, n);
    let told = removed.len() > 0 && run(fifo, log).order.len() == 0;
    let from = if told {
        n + 1
    } else {
        n
    };
    &&& 0 <= n
    &&& turns.len() == from + removed.len()
    &&& sweeps(fifo, start, round, turns, n)
    &&& is_next(fifo, run(fifo, log), stands(turns, n), None)
    &&& told ==> turns[n].follows(swept, Entry::Notified)
    &&& unwinds(
        if told {
            turns[n].last
        } else {
            swept
        },
        turns,
        from,
        removed,
    )
    &&& end == if turns.len() == n {
        swept
    } else {
        turns.last().last
    }
}

/// The course of dropping a guard. A node in use is only marked, one whose registry is gone
/// is freed. Otherwise the node is removed, the policy is told if it was the last one, and
/// the listener is destructed.
pub open spec fn cancel_course<C, H>(
    fifo: bool,
    start: Seq<Entry<C, H>>,
    id: u64,
    turns: Seq<Turn<C, H>>,
    end: Seq<Entry<C, H>>,
) -> bool {
    let was = run(fifo, start);
    let log = start.push(Entry::Cancelled(id));
    if was.visits(id) > 0 || !was.alive(id) {
        &&& turns.len() == 0
        &&& end == log
    } else if was.order.len() == 1 {
        &&& turns.len() == 2
        &&& turns[0].follows(log, Entry::Notified)
        &&& turns[1].follows(turns[0].last, Entry::Destructed(id))
        &&& end == turns[1].last
    } else {
        &&& turns.len() == 1
        &&& turns[0].follows(log, Entry::Destructed(id))
        &&& end == turns[0].last
    }
}

/// The log when a registry that is being dropped is done with its first `n` nodes.
pub open spec fn buried_upto<C, H>(
    start: Seq<Entry<C, H>>,
    order: Seq<u64>,
    turns: Seq<Turn<C, H>>,
    n: int,
) -> Seq<Entry<C, H>> {
    if n <= 0 {
        start.push(Entry::Closed)
    } else {
        turns[n - 1].last.push(Entry::Buried(order[n - 1]))
    }
}

/// Call `i` of a registry that is being dropped destructs the listener of that node of the
/// list.
pub open spec fn winds_up_at<C, H>(
    start: Seq<Entry<C, H>>,
    order: Seq<u64>,
    turns: Seq<Turn<C, H>>,
    i: int,
) -> bool {
    turns[i].follows(
        buried_upto(start, order, turns, i).push(Entry::Detached(order[i])),
        Entry::Destructed(order[i]),
    )
}

/// The calls of a registry that is being dropped are those of the destructors of the first
/// nodes of the list, in the order of the list.
pub open spec fn winds_up<C, H>(
    start: Seq<Entry<C, H>>,
    order: Seq<u64>,
    turns: Seq<Turn<C, H>>,
) -> bool {
    forall|i: int| 0 <= i < turns.len() ==> #[trigger] winds_up_at(start, order, turns, i)
}

/// The course of dropping a registry.
pub open spec fn close_course<C, H>(
    fifo: bool,
    start: Seq<Entry<C, H>>,
    turns: Seq<Turn<C, H>>,
    end: Seq<Entry<C, H>>,
) -> bool {
    let order = run(fifo, start).order;
    &&& turns.len() == order.len()
    &&& winds_up(start, order, turns)
    &&& end == buried_upto(start, order, turns, order.len() as int)
}

} // verus!
