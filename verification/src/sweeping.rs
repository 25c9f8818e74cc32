//! A broadcast on its way through the list: what holds between its steps when everyone
//! else puts the registry back as it was found, as they do on a single thread.
use crate::history::{
    later, lemma_inv, lemma_not_called, lemma_push, run, valid, Entry, Model,
};
use crate::laws::law_destructed_or_kept;
use crate::rounds::{
    concluded, destructed_before, ended_at, ends_call_of, law_round_undisturbed, lemma_begin,
    lemma_deliver, lemma_ended, lemma_no_removals, lemma_removals_extend, lemma_removals_push,
    lemma_sweep, of_round, orderly, removals, since_round, tracks,
};
use vstd::prelude::*;

verus! {

/// How far a broadcast has got.
pub struct Progress<H> {
    /// The node that it called last.
    pub at: Option<u64>,
    /// Whether that call is in progress.
    pub calling: bool,
    /// The nodes that it removed, with their listeners.
    pub dropped: Seq<(u64, H)>,
}

/// Listeners taken out of their nodes wait, besides those in `base`, on a stack.
pub open spec fn stacked<H>(pending: Map<u64, H>, base: Map<u64, H>, stack: Seq<(u64, H)>) -> bool
    decreases stack.len(),
{
    if stack.len() == 0 {
        pending == base
    } else {
        let (id, listener) = stack.last();
        &&& pending.contains_key(id)
        &&& pending[id] == listener
        &&& stacked(pending.remove(id), base, stack.drop_last())
    }
}

pub proof fn lemma_stack_push<H>(
    pending: Map<u64, H>,
    base: Map<u64, H>,
    stack: Seq<(u64, H)>,
    id: u64,
    listener: H,
)
    requires
        stacked(pending, base, stack),
        !pending.contains_key(id),
    ensures
        stacked(pending.insert(id, listener), base, stack.push((id, listener))),
{
    assert(stack.push((id, listener)).drop_last() =~= stack);
    assert(pending.insert(id, listener).remove(id) =~= pending);
}

/// What is on the stack waits.
proof fn lemma_stack_waits<H>(
    pending: Map<u64, H>,
    base: Map<u64, H>,
    stack: Seq<(u64, H)>,
    i: int,
)
    requires
        stacked(pending, base, stack),
        0 <= i < stack.len(),
    ensures
        pending.contains_key(stack[i].0),
    decreases stack.len(),
{
    if i < stack.len() - 1 {
        lemma_stack_waits(pending.remove(stack.last().0), base, stack.drop_last(), i);
        assert(stack.drop_last()[i] == stack[i]);
    }
}

/// The nodes of a stack of removed nodes.
pub open spec fn nodes_of<H>(dropped: Seq<(u64, H)>) -> Seq<u64> {
    Seq::new(dropped.len(), |i: int| dropped[i].0)
}

/// Whether the log goes on from `start` with nothing done in the name of an earlier
/// broadcast.
pub open spec fn goes_on<C, H>(fifo: bool, start: Seq<Entry<C, H>>, log: Seq<Entry<C, H>>) -> bool {
    &&& start.is_prefix_of(log)
    &&& forall|i: int|
        start.len() <= i < log.len() ==> since_round(#[trigger] log[i], run(fifo, start).rounds)
}

/// Whether all calls of the round carry what `says` allows.
pub open spec fn carries<C, H>(
    log: Seq<Entry<C, H>>,
    round: nat,
    says: spec_fn(C) -> bool,
) -> bool {
    forall|i: int|
        0 <= i < log.len() && of_round(#[trigger] log[i], round) ==> says(
            log[i]->Delivered_content,
        )
}

/// The uses of every node, and the calls in progress, are those that there were at `start`,
/// and the call that this broadcast makes.
pub open spec fn counts<H>(was: Model<H>, now: Model<H>, progress: Progress<H>) -> bool {
    &&& forall|id: u64| #[trigger]
        now.visits(id) == was.visits(id) + (if progress.calling && progress.at == Some(id) {
            1int
        } else {
            0
        })
    &&& !was.calling.contains_key(was.rounds)
    &&& now.calling == if progress.calling {
        was.calling.insert(was.rounds, progress.at->0)
    } else {
        was.calling
    }
}

/// The broadcast that began at `start` has got this far.
pub open spec fn sweeping<C, H>(
    fifo: bool,
    start: Seq<Entry<C, H>>,
    log: Seq<Entry<C, H>>,
    progress: Progress<H>,
    says: spec_fn(C) -> bool,
) -> bool {
    let was = run(fifo, start);
    let now = run(fifo, log);
    &&& valid(fifo, log)
    &&& was.open
    &&& now.open
    &&& goes_on(fifo, start, log)
    &&& carries(log, was.rounds, says)
    &&& counts(was, now, progress)
    &&& stacked(now.pending, was.pending, progress.dropped)
    &&& progress.calling ==> progress.at is Some
    &&& tracks(fifo, log, was.rounds, was.next_id, progress.at)
    &&& removals(fifo, log, was.rounds) == nodes_of(progress.dropped)
    &&& progress.at is None ==> now.next_id == was.next_id
}

proof fn lemma_goes_on_push<C, H>(
    fifo: bool,
    start: Seq<Entry<C, H>>,
    log: Seq<Entry<C, H>>,
    entry: Entry<C, H>,
)
    requires
        goes_on(fifo, start, log),
        since_round(entry, run(fifo, start).rounds),
    ensures
        goes_on(fifo, start, log.push(entry)),
{
    let longer = log.push(entry);
    assert forall|i: int| start.len() <= i < longer.len() implies since_round(
        #[trigger] longer[i],
        run(fifo, start).rounds,
    ) by {
        if i < log.len() {
            assert(longer[i] == log[i]);
        }
    }
}

proof fn lemma_carries_push<C, H>(
    log: Seq<Entry<C, H>>,
    round: nat,
    says: spec_fn(C) -> bool,
    entry: Entry<C, H>,
)
    requires
        carries(log, round, says),
        of_round(entry, round) ==> says(entry->Delivered_content),
    ensures
        carries(log.push(entry), round, says),
{
    let longer = log.push(entry);
    assert forall|i: int|
        0 <= i < longer.len() && of_round(#[trigger] longer[i], round) implies says(
        longer[i]->Delivered_content,
    ) by {
        if i < log.len() {
            assert(longer[i] == log[i]);
        }
    }
}

/// A broadcast begins.
pub proof fn lemma_sweeping_begin<C, H>(
    fifo: bool,
    start: Seq<Entry<C, H>>,
    says: spec_fn(C) -> bool,
)
    requires
        valid(fifo, start),
        run(fifo, start).open,
    ensures
        sweeping(
            fifo,
            start,
            start.push(Entry::Begun(run(fifo, start).rounds)),
            Progress { at: None, calling: false, dropped: Seq::empty() },
            says,
        ),
{
    let was = run(fifo, start);
    let entry = Entry::<C, H>::Begun(was.rounds);
    let log = start.push(entry);
    lemma_push(fifo, start, entry);
    lemma_inv(fifo, start);
    lemma_not_called(fifo, was);
    lemma_begin(fifo, start);
    lemma_no_removals(fifo, start, was.rounds);
    lemma_removals_push(fifo, start, was.rounds, entry);
    assert(nodes_of(Seq::<(u64, H)>::empty()) =~= Seq::<u64>::empty());
    assert(log[start.len() as int] == entry);
    assert forall|i: int| 0 <= i < log.len() && of_round(#[trigger] log[i], was.rounds) implies says(
        log[i]->Delivered_content,
    ) by {
        assert(!of_round(log[i], was.rounds));
    }
}

/// The call in progress returns.
pub proof fn lemma_sweeping_return<C, H>(
    fifo: bool,
    start: Seq<Entry<C, H>>,
    log: Seq<Entry<C, H>>,
    progress: Progress<H>,
    says: spec_fn(C) -> bool,
)
    requires
        sweeping(fifo, start, log, progress, says),
        progress.calling,
    ensures
        ({
            let id = progress.at->0;
            let now = run(fifo, log);
            sweeping(
                fifo,
                start,
                log.push(Entry::Returned { round: run(fifo, start).rounds, id }),
                Progress {
                    calling: false,
                    dropped: if now.leaves(id) {
                        progress.dropped.push((id, now.listeners[id]))
                    } else {
                        progress.dropped
                    },
                    ..progress
                },
                says,
            )
        }),
{
    let was = run(fifo, start);
    let now = run(fifo, log);
    let id = progress.at->0;
    let entry = Entry::<C, H>::Returned { round: was.rounds, id };
    let longer = log.push(entry);
    let next = run(fifo, longer);
    lemma_inv(fifo, log);
    assert(now.visits(id) > 0);
    lemma_push(fifo, log, entry);
    lemma_removals_push(fifo, log, was.rounds, entry);
    assert(longer[log.len() as int] == entry);
    assert forall|i: int| 0 <= i < log.len() implies longer[i] == #[trigger] log[i] by {}
    law_round_undisturbed(fifo, log, longer, was.rounds, was.next_id, progress.at);
    if now.leaves(id) {
        assert(now.order.contains(id));
        assert(!now.pending.contains_key(id));
        lemma_stack_push(now.pending, was.pending, progress.dropped, id, now.listeners[id]);
        assert(nodes_of(progress.dropped.push((id, now.listeners[id]))) =~= nodes_of(
            progress.dropped,
        ).push(id));
    }
    lemma_goes_on_push(fifo, start, log, entry);
    lemma_carries_push(log, was.rounds, says, entry);
    assert(counts(was, next, Progress { calling: false, ..progress })) by {
        assert(next.calling =~= was.calling);
        assert forall|x: u64| #[trigger] next.visits(x) == was.visits(x) by {
            assert(now.visits(x) >= was.visits(x));
        }
    }
}

/// The broadcast reaches the end of the list.
pub proof fn lemma_sweeping_end<C, H>(
    fifo: bool,
    start: Seq<Entry<C, H>>,
    log: Seq<Entry<C, H>>,
    progress: Progress<H>,
    says: spec_fn(C) -> bool,
)
    requires
        sweeping(fifo, start, log, progress, says),
        !progress.calling,
        forall|x: u64| #[trigger]
            run(fifo, log).held(x) ==> progress.at is Some && !later(
                fifo,
                progress.at->0 as int,
                x as int,
            ),
    ensures
        ({
            let longer = log.push(Entry::Swept(run(fifo, start).rounds));
            &&& sweeping(fifo, start, longer, progress, says)
            &&& ended_at(
                fifo,
                longer,
                run(fifo, start).rounds,
                run(fifo, start).next_id,
                log.len() as int,
            )
        }),
{
    let was = run(fifo, start);
    let entry = Entry::<C, H>::Swept(was.rounds);
    let longer = log.push(entry);
    lemma_push(fifo, log, entry);
    assert(run(fifo, longer) == run(fifo, log));
    lemma_removals_push(fifo, log, was.rounds, entry);
    assert(tracks(fifo, longer, was.rounds, was.next_id, progress.at)) by {
        assert(longer[log.len() as int] == entry);
        law_round_undisturbed(fifo, log, longer, was.rounds, was.next_id, progress.at);
    }
    assert(ended_at(fifo, longer, was.rounds, was.next_id, log.len() as int)) by {
        lemma_sweep(fifo, log, was.rounds, was.next_id, progress.at);
    }
    lemma_goes_on_push(fifo, start, log, entry);
    lemma_carries_push(log, was.rounds, says, entry);
}

/// The broadcast calls the next listener.
pub proof fn lemma_sweeping_deliver<C, H>(
    fifo: bool,
    start: Seq<Entry<C, H>>,
    log: Seq<Entry<C, H>>,
    progress: Progress<H>,
    says: spec_fn(C) -> bool,
    id: u64,
    content: C,
)
    requires
        sweeping(fifo, start, log, progress, says),
        !progress.calling,
        says(content),
        run(fifo, log).held(id),
        progress.at is Some ==> later(fifo, progress.at->0 as int, id as int),
        forall|x: u64| #[trigger]
            run(fifo, log).held(x) && (progress.at is None || later(
                fifo,
                progress.at->0 as int,
                x as int,
            )) ==> !later(fifo, x as int, id as int),
    ensures
        sweeping(
            fifo,
            start,
            log.push(Entry::Delivered { round: run(fifo, start).rounds, id, content }),
            Progress { at: Some(id), calling: true, ..progress },
            says,
        ),
{
    let was = run(fifo, start);
    let now = run(fifo, log);
    let entry = Entry::<C, H>::Delivered { round: was.rounds, id, content };
    let longer = log.push(entry);
    lemma_inv(fifo, log);
    lemma_push(fifo, log, entry);
    lemma_removals_push(fifo, log, was.rounds, entry);
    assert(longer[log.len() as int] == entry);
    assert(id < now.next_id);
    if let Some(c) = progress.at {
        let k = choose|k: int|
            0 <= k < log.len() && of_round(#[trigger] log[k], was.rounds)
                && crate::rounds::target(log[k]) == c;
        assert(of_round(log[k], was.rounds));
    }
    lemma_deliver(fifo, log, was.rounds, was.next_id, progress.at, id, content);
    lemma_goes_on_push(fifo, start, log, entry);
    lemma_carries_push(log, was.rounds, says, entry);
    assert(counts(was, run(fifo, longer), Progress { at: Some(id), calling: true, ..progress }))
        by {
        assert forall|x: u64| #[trigger]
            run(fifo, longer).visits(x) == was.visits(x) + (if x == id { 1int } else { 0 }) by {
            assert(now.visits(x) == was.visits(x));
        }
    }
}

/// Others act, and leave the registry as they found it.
pub proof fn lemma_sweeping_others<C, H>(
    fifo: bool,
    start: Seq<Entry<C, H>>,
    log: Seq<Entry<C, H>>,
    longer: Seq<Entry<C, H>>,
    progress: Progress<H>,
    says: spec_fn(C) -> bool,
)
    requires
        sweeping(fifo, start, log, progress, says),
        progress.calling,
        valid(fifo, longer),
        goes_on(fifo, log, longer),
        run(fifo, longer).open,
        forall|id: u64| #[trigger] run(fifo, longer).visits(id) == run(fifo, log).visits(id),
        run(fifo, longer).calling == run(fifo, log).calling,
        run(fifo, longer).pending == run(fifo, log).pending,
    ensures
        sweeping(fifo, start, longer, progress, says),
{
    let was = run(fifo, start);
    assert forall|i: int| 0 <= i < log.len() implies longer[i] == #[trigger] log[i] by {}
    assert forall|i: int| log.len() <= i < longer.len() implies !of_round(
        #[trigger] longer[i],
        was.rounds,
    ) && !ends_call_of(longer[i], was.rounds) by {
        assert(since_round(longer[i], run(fifo, log).rounds));
    }
    law_round_undisturbed(fifo, log, longer, was.rounds, was.next_id, progress.at);
    lemma_removals_extend(fifo, log, longer, was.rounds);
    assert(goes_on(fifo, start, longer)) by {
        assert forall|i: int| start.len() <= i < longer.len() implies since_round(
            #[trigger] longer[i],
            was.rounds,
        ) by {
            if i < log.len() {
                assert(longer[i] == log[i]);
            } else {
                assert(since_round(longer[i], run(fifo, log).rounds));
            }
        }
    }
    assert(carries(longer, was.rounds, says)) by {
        assert forall|i: int|
            0 <= i < longer.len() && of_round(#[trigger] longer[i], was.rounds) implies says(
            longer[i]->Delivered_content,
        ) by {
            assert(longer[i] == log[i]);
        }
    }
    assert(counts(was, run(fifo, longer), progress)) by {
        assert forall|x: u64| #[trigger]
            run(fifo, longer).visits(x) == was.visits(x) + (if progress.calling && progress.at
                == Some(x) {
                1int
            } else {
                0
            }) by {
            assert(run(fifo, log).visits(x) == was.visits(x) + (if progress.calling && progress.at
                == Some(x) {
                1int
            } else {
                0
            }));
        }
    }
}

/// Of the removed nodes, those from index `left` on had their listeners destructed, the
/// last one first.
pub open spec fn unwound<C, H>(log: Seq<Entry<C, H>>, removed: Seq<u64>, left: int) -> bool {
    &&& forall|i: int| left <= i < removed.len() ==> log.contains(
        Entry::Destructed(#[trigger] removed[i]),
    )
    &&& forall|i: int, j: int|
        left <= i < j < removed.len() ==> destructed_before(
            log,
            #[trigger] removed[j],
            #[trigger] removed[i],
        )
}

/// One more listener is destructed; more may happen after that.
pub proof fn lemma_unwind<C, H>(
    log: Seq<Entry<C, H>>,
    longer: Seq<Entry<C, H>>,
    removed: Seq<u64>,
    left: int,
)
    requires
        0 < left <= removed.len(),
        unwound(log, removed, left),
        log.is_prefix_of(longer),
        longer.len() > log.len(),
        longer[log.len() as int] == Entry::<C, H>::Destructed(removed[left - 1]),
    ensures
        unwound(longer, removed, left - 1),
{
    let n = log.len() as int;
    assert forall|i: int| left - 1 <= i < removed.len() implies longer.contains(
        Entry::Destructed(#[trigger] removed[i]),
    ) by {
        if i >= left {
            let k = log.index_of(Entry::Destructed(removed[i]));
            assert(log.contains(Entry::Destructed(removed[i])));
            assert(longer[k] == log[k]);
        } else {
            assert(longer[n] == Entry::<C, H>::Destructed(removed[i]));
        }
    }
    assert forall|i: int, j: int| left - 1 <= i < j < removed.len() implies destructed_before(
        longer,
        #[trigger] removed[j],
        #[trigger] removed[i],
    ) by {
        if i >= left {
            assert(destructed_before(log, removed[j], removed[i]));
            let (p, q) = choose|p: int, q: int|
                0 <= p < q < log.len() && #[trigger] log[p] == Entry::<C, H>::Destructed(removed[j])
                    && #[trigger] log[q] == Entry::<C, H>::Destructed(removed[i]);
            assert(longer[p] == log[p] && longer[q] == log[q]);
        } else {
            assert(log.contains(Entry::Destructed(removed[j])));
            let p = log.index_of(Entry::Destructed(removed[j]));
            assert(longer[p] == log[p]);
            assert(longer[n] == Entry::<C, H>::Destructed(removed[i]));
        }
    }
}

/// The listeners of the first `upto` nodes of a list were destructed, in the order of the
/// list.
pub open spec fn wound_up<C, H>(log: Seq<Entry<C, H>>, order: Seq<u64>, upto: int) -> bool {
    &&& forall|i: int| 0 <= i < upto ==> log.contains(Entry::Destructed(#[trigger] order[i]))
    &&& forall|i: int, j: int|
        0 <= i < j < upto ==> destructed_before(log, #[trigger] order[i], #[trigger] order[j])
}

/// The listener of the next node of a list is destructed; more may happen around that.
pub proof fn lemma_wind_up<C, H>(
    log: Seq<Entry<C, H>>,
    longer: Seq<Entry<C, H>>,
    order: Seq<u64>,
    upto: int,
    n: int,
)
    requires
        0 <= upto < order.len(),
        wound_up(log, order, upto),
        log.is_prefix_of(longer),
        log.len() <= n < longer.len(),
        longer[n] == Entry::<C, H>::Destructed(order[upto]),
    ensures
        wound_up(longer, order, upto + 1),
{
    assert forall|i: int| 0 <= i < upto + 1 implies longer.contains(
        Entry::Destructed(#[trigger] order[i]),
    ) by {
        if i < upto {
            assert(log.contains(Entry::Destructed(order[i])));
            let k = log.index_of(Entry::Destructed(order[i]));
            assert(longer[k] == log[k]);
        } else {
            assert(longer[n] == Entry::<C, H>::Destructed(order[i]));
        }
    }
    assert forall|i: int, j: int| 0 <= i < j < upto + 1 implies destructed_before(
        longer,
        #[trigger] order[i],
        #[trigger] order[j],
    ) by {
        if j < upto {
            assert(destructed_before(log, order[i], order[j]));
            let (p, q) = choose|p: int, q: int|
                0 <= p < q < log.len() && #[trigger] log[p] == Entry::<C, H>::Destructed(order[i])
                    && #[trigger] log[q] == Entry::<C, H>::Destructed(order[j]);
            assert(longer[p] == log[p] && longer[q] == log[q]);
        } else {
            assert(log.contains(Entry::Destructed(order[i])));
            let p = log.index_of(Entry::Destructed(order[i]));
            assert(longer[p] == log[p]);
            assert(longer[n] == Entry::<C, H>::Destructed(order[j]));
        }
    }
}

/// The broadcast is over.
pub proof fn lemma_concluded<C, H>(
    fifo: bool,
    start: Seq<Entry<C, H>>,
    log: Seq<Entry<C, H>>,
    last: Seq<Entry<C, H>>,
    progress: Progress<H>,
    says: spec_fn(C) -> bool,
)
    requires
        sweeping(fifo, start, log, progress, says),
        ended_at(
            fifo,
            log,
            run(fifo, start).rounds,
            run(fifo, start).next_id,
            log.len() - 1,
        ),
        valid(fifo, last),
        goes_on(fifo, log, last),
        unwound(last, nodes_of(progress.dropped), 0),
        (last.len() > log.len() && last[log.len() as int] == Entry::<C, H>::Notified) <==> (
        progress.dropped.len() > 0 && run(fifo, log).order.len() == 0),
    ensures
        concluded(
            fifo,
            last,
            run(fifo, start).rounds,
            run(fifo, start).next_id,
            log.len() - 1,
        ),
        orderly(fifo, last, run(fifo, start).rounds, run(fifo, start).next_id),
        carries(last, run(fifo, start).rounds, says),
        removals(fifo, last, run(fifo, start).rounds) == nodes_of(progress.dropped),
{
    let was = run(fifo, start);
    let end = log.len() - 1;
    assert forall|i: int| 0 <= i < log.len() implies last[i] == #[trigger] log[i] by {}
    assert forall|i: int| log.len() <= i < last.len() implies !of_round(
        #[trigger] last[i],
        was.rounds,
    ) && !ends_call_of(last[i], was.rounds) by {
        assert(since_round(last[i], run(fifo, log).rounds));
    }
    law_round_undisturbed(fifo, log, last, was.rounds, was.next_id, progress.at);
    lemma_removals_extend(fifo, log, last, was.rounds);
    lemma_ended(fifo, log, last, was.rounds, was.next_id, end);
    let removed = nodes_of(progress.dropped);
    assert forall|i: int, k: int| 0 <= i < removed.len() && 0 <= k <= end implies #[trigger] last[k]
        != Entry::<C, H>::Destructed(#[trigger] removed[i]) by {
        lemma_stack_waits(run(fifo, log).pending, was.pending, progress.dropped, i);
        law_destructed_or_kept(fifo, log, removed[i]);
        assert(last[k] == log[k]);
    }
    assert(last.take(end) =~= log.drop_last());
    assert(log[end] == log.last());
    assert(run(fifo, log) == run(fifo, log.drop_last()).apply(fifo, log.last()));
    assert forall|i: int|
        0 <= i < last.len() && of_round(#[trigger] last[i], was.rounds) implies says(
        last[i]->Delivered_content,
    ) by {
        assert(last[i] == log[i]);
    }
}

} // verus!
