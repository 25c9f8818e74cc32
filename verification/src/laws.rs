//! What holds of every registry, whatever its listeners, its policy, its guards and other
//! threads do, in whatever order: each law speaks of all valid logs.
use crate::history::{
    before, later, lemma_called, lemma_inv, lemma_prefix, lemma_push, lemma_remove, lemma_step_inv,
    run, valid, Entry, Model,
};
use vstd::prelude::*;

verus! {

/// Whether the guard of the node was dropped within the first `upto` entries.
pub open spec fn given_up<C, H>(log: Seq<Entry<C, H>>, id: u64, upto: int) -> bool {
    exists|k: int| 0 <= k < upto && #[trigger] log[k] == Entry::<C, H>::Cancelled(id)
}

/// Whether the entry is a call of the listener of the node.
pub open spec fn delivers<C, H>(entry: Entry<C, H>, id: u64) -> bool {
    entry matches Entry::Delivered { round, id: target, content } && target == id
}

/// Whether the entry is the return of a call of the listener of the node.
pub open spec fn comes_back<C, H>(entry: Entry<C, H>, id: u64) -> bool {
    entry matches Entry::Returned { round, id: target } && target == id
}

/// How many calls of the listener of the node were made and have not come back.
pub open spec fn calls<C, H>(log: Seq<Entry<C, H>>, id: u64) -> int
    decreases log.len(),
{
    if log.len() == 0 {
        0
    } else {
        let rest = calls(log.drop_last(), id);
        if delivers(log.last(), id) {
            rest + 1
        } else if comes_back(log.last(), id) {
            rest - 1
        } else {
            rest
        }
    }
}

/// Splits a valid log at its last entry.
pub proof fn lemma_last<C, H>(fifo: bool, log: Seq<Entry<C, H>>)
    requires
        valid(fifo, log),
        log.len() > 0,
    ensures
        valid(fifo, log.drop_last()),
        run(fifo, log.drop_last()).inv(fifo),
        run(fifo, log.drop_last()).enabled(log.last()),
        run(fifo, log) == run(fifo, log.drop_last()).apply(fifo, log.last()),
        run(fifo, log).inv(fifo),
{
    let n = log.len() - 1;
    lemma_prefix(fifo, log, n);
    assert(log.take(n) =~= log.drop_last());
    assert(log[n] == log.last());
    lemma_inv(fifo, log.drop_last());
    lemma_inv(fifo, log);
}

/// What happened is the last entry or happened before it.
pub proof fn lemma_split<C, H>(log: Seq<Entry<C, H>>, entry: Entry<C, H>)
    requires
        log.len() > 0,
    ensures
        log.contains(entry) <==> log.drop_last().contains(entry) || log.last() == entry,
{
    let rest = log.drop_last();
    if rest.contains(entry) {
        let k = rest.index_of(entry);
        assert(log[k] == entry);
    }
    if log.last() == entry {
        assert(log[log.len() - 1] == entry);
    }
    if log.contains(entry) && log.last() != entry {
        let k = log.index_of(entry);
        assert(rest[k] == entry);
    }
}

/// What is in a prefix of the log is in the log, before its end.
proof fn lemma_earlier<C, H>(log: Seq<Entry<C, H>>, entry: Entry<C, H>, i: int)
    requires
        0 <= i <= log.len(),
        log.take(i).contains(entry),
    ensures
        exists|k: int| 0 <= k < i && #[trigger] log[k] == entry,
{
    let k = log.take(i).index_of(entry);
    assert(log[k] == entry);
}

pub(crate) proof fn lemma_held_step<C, H>(fifo: bool, m: Model<H>, entry: Entry<C, H>, id: u64)
    requires
        m.inv(fifo),
        m.enabled(entry),
    ensures
        entry is Registered && entry->Registered_id == id ==> m.apply(fifo, entry).held(id),
        entry == Entry::<C, H>::Cancelled(id) ==> !m.apply(fifo, entry).held(id),
        !(entry is Registered && entry->Registered_id == id) && entry != Entry::<
            C,
            H,
        >::Cancelled(id) ==> m.apply(fifo, entry).held(id) == m.held(id),
{
    match entry {
        Entry::Closed => {
            assert(m.visits(id) == 0);
        },
        Entry::Returned { round, id: x } => {
            lemma_called(fifo, m, round);
        },
        _ => {},
    }
}

/// The guard of a registered node is there exactly as long as it was not dropped.
pub proof fn law_held_until_cancelled<C, H>(fifo: bool, log: Seq<Entry<C, H>>, id: u64)
    requires
        valid(fifo, log),
    ensures
        run(fifo, log).held(id) <==> id < run(fifo, log).next_id && !log.contains(
            Entry::Cancelled(id),
        ),
        log.contains(Entry::Cancelled(id)) ==> id < run(fifo, log).next_id,
        log.contains(Entry::Cancelled(id)) <==> given_up(log, id, log.len() as int),
    decreases log.len(),
{
    if log.len() > 0 {
        lemma_last(fifo, log);
        law_held_until_cancelled(fifo, log.drop_last(), id);
        lemma_held_step(fifo, run(fifo, log.drop_last()), log.last(), id);
        lemma_split(log, Entry::Cancelled(id));
    }
}

/// A listener whose guard was dropped is not called any more, not even with the event that
/// is being broadcast at that moment.
pub proof fn law_no_call_after_cancel<C, H>(
    fifo: bool,
    log: Seq<Entry<C, H>>,
    i: int,
    j: int,
    id: u64,
)
    requires
        valid(fifo, log),
        0 <= i < j < log.len(),
        log[i] == Entry::<C, H>::Cancelled(id),
    ensures
        !delivers(log[j], id),
{
    lemma_prefix(fifo, log, j);
    law_held_until_cancelled(fifo, log.take(j), id);
    assert(log.take(j)[i] == Entry::<C, H>::Cancelled(id));
}

/// A guard is dropped at most once.
pub proof fn law_cancelled_once<C, H>(
    fifo: bool,
    log: Seq<Entry<C, H>>,
    i: int,
    j: int,
    id: u64,
)
    requires
        valid(fifo, log),
        0 <= i < log.len(),
        0 <= j < log.len(),
        log[i] == Entry::<C, H>::Cancelled(id),
        log[j] == Entry::<C, H>::Cancelled(id),
    ensures
        i == j,
{
    let (a, b) = if i < j { (i, j) } else { (j, i) };
    if a < b {
        lemma_prefix(fifo, log, b);
        law_held_until_cancelled(fifo, log.take(b), id);
        assert(log.take(b)[a] == Entry::<C, H>::Cancelled(id));
    }
}

/// The calls in progress are the uses that the nodes count.
pub proof fn law_uses_are_calls<C, H>(fifo: bool, log: Seq<Entry<C, H>>, id: u64)
    requires
        valid(fifo, log),
    ensures
        calls(log, id) == (if run(fifo, log).open { run(fifo, log).visits(id) as int } else { 0 }),
    decreases log.len(),
{
    if log.len() > 0 {
        lemma_last(fifo, log);
        law_uses_are_calls(fifo, log.drop_last(), id);
        if let Entry::Returned { round, id: x } = log.last() {
            lemma_called(fifo, run(fifo, log.drop_last()), round);
        }
    }
}

proof fn lemma_kept_step<C, H>(fifo: bool, m: Model<H>, entry: Entry<C, H>, id: u64)
    requires
        m.inv(fifo),
        m.enabled(entry),
    ensures
        ({
            let n = m.apply(fifo, entry);
            let kept = n.listeners.contains_key(id) || n.pending.contains_key(id);
            let was_kept = m.listeners.contains_key(id) || m.pending.contains_key(id);
            &&& entry == Entry::<C, H>::Destructed(id) ==> was_kept && !kept
            &&& entry is Registered && entry->Registered_id == id ==> kept
            &&& entry != Entry::<C, H>::Destructed(id) && !(entry is Registered
                && entry->Registered_id == id) ==> kept == was_kept
        }),
{
    match entry {
        Entry::Cancelled(x) => {
            if m.slots[x].visits == 0 && m.slots[x].alive {
                assert(m.order.contains(x));
            }
        },
        Entry::Returned { round, id: x } => {
            lemma_called(fifo, m, round);
        },
        Entry::Detached(x) => {
            assert(m.order.contains(x));
        },
        _ => {},
    }
}

/// A listener is destructed exactly when it is out of its node and not waiting for it.
pub proof fn law_destructed_or_kept<C, H>(fifo: bool, log: Seq<Entry<C, H>>, id: u64)
    requires
        valid(fifo, log),
    ensures
        log.contains(Entry::Destructed(id)) <==> id < run(fifo, log).next_id && !run(
            fifo,
            log,
        ).listeners.contains_key(id) && !run(fifo, log).pending.contains_key(id),
    decreases log.len(),
{
    if log.len() > 0 {
        lemma_last(fifo, log);
        law_destructed_or_kept(fifo, log.drop_last(), id);
        let m = run(fifo, log.drop_last());
        lemma_kept_step(fifo, m, log.last(), id);
        lemma_split(log, Entry::Destructed(id));
        if m.listeners.contains_key(id) {
            assert(m.order.contains(id));
        }
    }
}

/// No listener is destructed twice.
pub proof fn law_destructed_once<C, H>(
    fifo: bool,
    log: Seq<Entry<C, H>>,
    i: int,
    j: int,
    id: u64,
)
    requires
        valid(fifo, log),
        0 <= i < log.len(),
        0 <= j < log.len(),
        log[i] == Entry::<C, H>::Destructed(id),
        log[j] == Entry::<C, H>::Destructed(id),
    ensures
        i == j,
{
    let (a, b) = if i < j { (i, j) } else { (j, i) };
    if a < b {
        lemma_prefix(fifo, log, b);
        law_destructed_or_kept(fifo, log.take(b), id);
        assert(log.take(b)[a] == Entry::<C, H>::Destructed(id));
    }
}

/// A listener that cancels itself, or is cancelled, during a call runs that call to its
/// end: its destructor starts only when no call of it is in progress, and none follows.
pub proof fn law_calls_complete_before_destructor<C, H>(
    fifo: bool,
    log: Seq<Entry<C, H>>,
    i: int,
    id: u64,
)
    requires
        valid(fifo, log),
        0 <= i < log.len(),
        log[i] == Entry::<C, H>::Destructed(id),
    ensures
        calls(log.take(i), id) == 0,
        forall|j: int| i < j < log.len() ==> !delivers(#[trigger] log[j], id),
{
    lemma_prefix(fifo, log, i);
    lemma_inv(fifo, log.take(i));
    law_uses_are_calls(fifo, log.take(i), id);
    assert forall|j: int| i < j < log.len() implies !delivers(#[trigger] log[j], id) by {
        lemma_prefix(fifo, log, j);
        lemma_inv(fifo, log.take(j));
        law_destructed_or_kept(fifo, log.take(j), id);
        assert(log.take(j)[i] == Entry::<C, H>::Destructed(id));
    }
}

/// A listener is destructed only after its guard was dropped or its registry was.
pub proof fn law_destructed_only_if_given_up<C, H>(
    fifo: bool,
    log: Seq<Entry<C, H>>,
    i: int,
    id: u64,
)
    requires
        valid(fifo, log),
        0 <= i < log.len(),
        log[i] == Entry::<C, H>::Destructed(id),
    ensures
        given_up(log, id, i) || exists|k: int|
            0 <= k < i && #[trigger] log[k] == Entry::<C, H>::Closed,
{
    lemma_prefix(fifo, log, i);
    lemma_inv(fifo, log.take(i));
    law_held_until_cancelled(fifo, log.take(i), id);
    lemma_closed_entry(fifo, log.take(i));
    if run(fifo, log.take(i)).open {
        lemma_earlier(log, Entry::Cancelled(id), i);
    } else {
        lemma_earlier(log, Entry::Closed, i);
    }
}

/// A registry is being dropped, or was, exactly when its log says so.
pub proof fn lemma_closed_entry<C, H>(fifo: bool, log: Seq<Entry<C, H>>)
    requires
        valid(fifo, log),
    ensures
        !run(fifo, log).open <==> log.contains(Entry::Closed),
    decreases log.len(),
{
    if log.len() > 0 {
        lemma_last(fifo, log);
        lemma_closed_entry(fifo, log.drop_last());
        lemma_split(log, Entry::Closed);
    }
}

/// From the moment a registry is dropped, no listener is registered or called, and none
/// counts as alive any more, not even those whose destructor is yet to run.
pub proof fn law_nothing_alive_after_close<C, H>(
    fifo: bool,
    log: Seq<Entry<C, H>>,
    i: int,
    j: int,
    id: u64,
)
    requires
        valid(fifo, log),
        0 <= i < j <= log.len(),
        log[i] == Entry::<C, H>::Closed,
    ensures
        !before(fifo, log, j).alive(id),
        j < log.len() ==> !delivers(log[j], id),
        j < log.len() ==> log[j] !is Registered,
{
    lemma_prefix(fifo, log, j);
    lemma_inv(fifo, log.take(j));
    lemma_closed_entry(fifo, log.take(j));
    assert(log.take(j)[i] == Entry::<C, H>::Closed);
}

/// When a dropped registry is done, and no destructor is outstanding, every listener that
/// was ever registered has been destructed, exactly once.
pub proof fn law_dropped_registry_destructs_all<C, H>(fifo: bool, log: Seq<Entry<C, H>>, id: u64)
    requires
        valid(fifo, log),
        run(fifo, log).order.len() == 0,
        run(fifo, log).pending.dom() == Set::<u64>::empty(),
        id < run(fifo, log).next_id,
    ensures
        exists|k: int|
            0 <= k < log.len() && #[trigger] log[k] == Entry::<C, H>::Destructed(id) && forall|
                l: int,
            |
                0 <= l < log.len() && #[trigger] log[l] == Entry::<C, H>::Destructed(id) ==> l
                    == k,
{
    let m = run(fifo, log);
    lemma_inv(fifo, log);
    law_destructed_or_kept(fifo, log, id);
    assert(!m.order.contains(id));
    assert(!m.pending.dom().contains(id));
    assert(!m.listeners.contains_key(id));
    let k = choose|k: int| 0 <= k < log.len() && #[trigger] log[k] == Entry::<C, H>::Destructed(id);
    assert forall|l: int|
        0 <= l < log.len() && #[trigger] log[l] == Entry::<C, H>::Destructed(id) implies l == k by {
        law_destructed_once(fifo, log, l, k, id);
    }
}

/// A listener that was taken out of its node is never put back, and so is handed to its
/// destructor at most once.
pub proof fn law_taken_out_for_good<C, H>(
    fifo: bool,
    log: Seq<Entry<C, H>>,
    i: int,
    j: int,
    id: u64,
)
    requires
        valid(fifo, log),
        0 <= i <= j <= log.len(),
        id < before(fifo, log, i).next_id,
        !before(fifo, log, i).listeners.contains_key(id),
    ensures
        id < before(fifo, log, j).next_id,
        !before(fifo, log, j).listeners.contains_key(id),
    decreases j - i,
{
    if i < j {
        lemma_prefix(fifo, log, j - 1);
        law_taken_out_for_good(fifo, log, i, j - 1, id);
    }
}

/// The node, if any, whose listener is handed out by this entry, to be destructed: when its
/// guard is dropped while it is not in use, when the last call of it comes back after that,
/// or when the registry is dropped.
pub open spec fn handed_out<C, H>(m: Model<H>, entry: Entry<C, H>) -> Option<u64> {
    match entry {
        Entry::Cancelled(id) => if m.visits(id) == 0 && m.alive(id) {
            Some(id)
        } else {
            None
        },
        Entry::Returned { round, id } => if m.leaves(id) {
            Some(id)
        } else {
            None
        },
        Entry::Detached(id) => Some(id),
        _ => None,
    }
}

proof fn lemma_handed_out_step<C, H>(fifo: bool, m: Model<H>, entry: Entry<C, H>, id: u64)
    requires
        m.inv(fifo),
        m.enabled(entry),
    ensures
        ({
            let n = m.apply(fifo, entry);
            &&& handed_out(m, entry) == Some(id) <==> m.listeners.contains_key(id)
                && !n.listeners.contains_key(id)
            &&& n.listeners.contains_key(id) && !m.listeners.contains_key(id) ==> id == m.next_id
            &&& entry is Registered ==> n.listeners.contains_key(m.next_id as u64)
        }),
{
    match entry {
        Entry::Returned { round, id: x } => {
            lemma_called(fifo, m, round);
        },
        Entry::Detached(x) => {
            assert(m.order.contains(x));
        },
        _ => {},
    }
}

/// Whether the entry at index `k` of the log hands out the listener of the node.
pub open spec fn hands_out<C, H>(fifo: bool, log: Seq<Entry<C, H>>, k: int, id: u64) -> bool {
    0 <= k < log.len() && handed_out(before(fifo, log, k), log[k]) == Some(id)
}

proof fn lemma_hands_out<C, H>(fifo: bool, log: Seq<Entry<C, H>>, k: int, id: u64)
    requires
        valid(fifo, log),
        hands_out(fifo, log, k, id),
    ensures
        before(fifo, log, k).listeners.contains_key(id),
        !before(fifo, log, k + 1).listeners.contains_key(id),
        id < before(fifo, log, k + 1).next_id,
{
    lemma_prefix(fifo, log, k);
    lemma_prefix(fifo, log, k + 1);
    lemma_inv(fifo, log.take(k));
    let m = before(fifo, log, k);
    lemma_handed_out_step(fifo, m, log[k], id);
    assert(m.order.contains(id));
}

proof fn lemma_was_handed_out<C, H>(fifo: bool, log: Seq<Entry<C, H>>, n: int, id: u64)
    requires
        valid(fifo, log),
        0 <= n <= log.len(),
        id < before(fifo, log, n).next_id,
        !before(fifo, log, n).listeners.contains_key(id),
    ensures
        exists|k: int| #[trigger] hands_out(fifo, log, k, id),
    decreases n,
{
    if n > 0 {
        lemma_prefix(fifo, log, n - 1);
        lemma_inv(fifo, log.take(n - 1));
        let m = before(fifo, log, n - 1);
        lemma_handed_out_step(fifo, m, log[n - 1], id);
        if id < m.next_id {
            if m.listeners.contains_key(id) {
                assert(hands_out(fifo, log, n - 1, id));
            } else {
                lemma_was_handed_out(fifo, log, n - 1, id);
            }
        }
    } else {
        assert(log.take(0) =~= Seq::<Entry<C, H>>::empty());
    }
}

/// A listener that is not in its node any more was handed out to be destructed, and one that
/// is in its node was not.
pub proof fn law_handed_out_iff_gone<C, H>(fifo: bool, log: Seq<Entry<C, H>>, id: u64)
    requires
        valid(fifo, log),
        id < run(fifo, log).next_id,
    ensures
        !run(fifo, log).listeners.contains_key(id) <==> exists|k: int| #[trigger]
            hands_out(fifo, log, k, id),
{
    let n = log.len() as int;
    lemma_prefix(fifo, log, n);
    if !run(fifo, log).listeners.contains_key(id) {
        lemma_was_handed_out(fifo, log, n, id);
    }
    if exists|k: int| #[trigger] hands_out(fifo, log, k, id) {
        let k = choose|k: int| #[trigger] hands_out(fifo, log, k, id);
        lemma_hands_out(fifo, log, k, id);
        law_taken_out_for_good(fifo, log, k + 1, n, id);
    }
}

/// No listener is handed out to be destructed twice.
pub proof fn law_handed_out_once<C, H>(
    fifo: bool,
    log: Seq<Entry<C, H>>,
    i: int,
    j: int,
    id: u64,
)
    requires
        valid(fifo, log),
        hands_out(fifo, log, i, id),
        hands_out(fifo, log, j, id),
    ensures
        i == j,
{
    let (a, b) = if i < j { (i, j) } else { (j, i) };
    if a < b {
        lemma_hands_out(fifo, log, a, id);
        lemma_hands_out(fifo, log, b, id);
        law_taken_out_for_good(fifo, log, a + 1, b, id);
    }
}

/// A registry is sealed exactly if its log says so.
pub proof fn law_sealed_entry<C, H>(fifo: bool, log: Seq<Entry<C, H>>)
    requires
        valid(fifo, log),
    ensures
        run(fifo, log).sealed <==> log.contains(Entry::Sealed),
    decreases log.len(),
{
    if log.len() > 0 {
        lemma_last(fifo, log);
        law_sealed_entry(fifo, log.drop_last());
        lemma_split(log, Entry::Sealed);
    }
}

/// Once sealed, a registry takes in no listener any more, and stays empty.
pub proof fn law_sealed_stays_empty<C, H>(
    fifo: bool,
    log: Seq<Entry<C, H>>,
    i: int,
    j: int,
)
    requires
        valid(fifo, log),
        0 <= i < j <= log.len(),
        log[i] == Entry::<C, H>::Sealed,
    ensures
        before(fifo, log, j).sealed,
        before(fifo, log, j).order.len() == 0,
        j < log.len() ==> log[j] !is Registered,
    decreases j,
{
    lemma_prefix(fifo, log, j);
    lemma_inv(fifo, log.take(j));
    lemma_prefix(fifo, log, j - 1);
    if i < j - 1 {
        law_sealed_stays_empty(fifo, log, i, j - 1);
    }
}

/// The policy is told of an empty registry only when it is empty: every listener
/// registered until then was cancelled until then.
pub proof fn law_notified_only_when_empty<C, H>(
    fifo: bool,
    log: Seq<Entry<C, H>>,
    i: int,
    id: u64,
)
    requires
        valid(fifo, log),
        0 <= i < log.len(),
        log[i] == Entry::<C, H>::Notified,
        id < before(fifo, log, i).next_id,
    ensures
        before(fifo, log, i).order.len() == 0,
        given_up(log, id, i),
{
    lemma_prefix(fifo, log, i);
    let m = before(fifo, log, i);
    lemma_inv(fifo, log.take(i));
    law_held_until_cancelled(fifo, log.take(i), id);
    assert(!m.order.contains(id));
    lemma_earlier(log, Entry::Cancelled(id), i);
}

/// When the policy is told of an empty registry, no listener is being called, so that the
/// registry may be dropped right there.
pub proof fn law_policy_may_drop_registry<C, H>(fifo: bool, log: Seq<Entry<C, H>>)
    requires
        valid(fifo, log),
        run(fifo, log).enabled(Entry::<C, H>::Notified),
    ensures
        run(fifo, log.push(Entry::Notified)).enabled(Entry::<C, H>::Closed),
{
    let m = run(fifo, log);
    lemma_inv(fifo, log);
    lemma_push(fifo, log, Entry::Notified);
    assert forall|id: u64| m.visits(id) == 0 by {
        assert(!m.order.contains(id));
    }
}

/// Listeners are listed by registration: the earliest first when first in is first out,
/// the latest first otherwise.
pub proof fn law_listed_by_registration<C, H>(
    fifo: bool,
    log: Seq<Entry<C, H>>,
    i: int,
    j: int,
)
    requires
        valid(fifo, log),
        0 <= i < j < run(fifo, log).order.len(),
    ensures
        later(fifo, run(fifo, log).order[i] as int, run(fifo, log).order[j] as int),
{
    lemma_inv(fifo, log);
}

/// A node whose listener is being called stays in the list whatever happens, until a call
/// of it returns.
pub proof fn law_node_in_use_stays_listed<C, H>(
    fifo: bool,
    log: Seq<Entry<C, H>>,
    entry: Entry<C, H>,
    id: u64,
)
    requires
        valid(fifo, log),
        run(fifo, log).open,
        run(fifo, log).visits(id) > 0,
        run(fifo, log).enabled(entry),
        !comes_back(entry, id),
    ensures
        run(fifo, log.push(entry)).open,
        run(fifo, log.push(entry)).order.contains(id),
        run(fifo, log.push(entry)).visits(id) >= run(fifo, log).visits(id),
{
    let m = run(fifo, log);
    lemma_inv(fifo, log);
    lemma_push(fifo, log, entry);
    lemma_step_inv(fifo, m, entry);
    assert(m.apply(fifo, entry).slots.contains_key(id));
}

/// Whether the entry is something that the broadcast of that round does.
pub open spec fn done_by<C, H>(entry: Entry<C, H>, round: nat) -> bool {
    match entry {
        Entry::Delivered { round: r, id, content } => r == round,
        Entry::Returned { round: r, id } => r == round,
        Entry::Swept(r) => r == round,
        _ => false,
    }
}

/// A listener that is being called stays in place until the call comes back to the
/// broadcast that made it, whatever anyone else does: its guard may be dropped, other
/// calls of it may come back, but its node stays in the list and the registry is not
/// dropped.
pub proof fn law_call_keeps_listener<C, H>(
    fifo: bool,
    log: Seq<Entry<C, H>>,
    longer: Seq<Entry<C, H>>,
    round: nat,
)
    requires
        valid(fifo, longer),
        log.is_prefix_of(longer),
        run(fifo, log).calling.contains_key(round),
        forall|i: int| log.len() <= i < longer.len() ==> !done_by(#[trigger] longer[i], round),
    ensures
        ({
            let id = run(fifo, log).calling[round];
            &&& run(fifo, longer).calls(round, id)
            &&& run(fifo, longer).open
            &&& run(fifo, longer).visits(id) > 0
            &&& run(fifo, longer).order.contains(id)
            &&& run(fifo, log).listeners.contains_key(id)
            &&& run(fifo, longer).listeners.contains_key(id)
            &&& run(fifo, longer).listeners[id] == run(fifo, log).listeners[id]
        }),
    decreases longer.len(),
{
    let id = run(fifo, log).calling[round];
    lemma_inv(fifo, longer);
    if log.len() == longer.len() {
        assert(log =~= longer);
        lemma_called(fifo, run(fifo, log), round);
    } else {
        let rest = longer.drop_last();
        lemma_last(fifo, longer);
        assert(longer[longer.len() - 1] == longer.last());
        assert forall|i: int| log.len() <= i < rest.len() implies !done_by(
            #[trigger] rest[i],
            round,
        ) by {
            assert(rest[i] == longer[i]);
        }
        assert(log.is_prefix_of(rest));
        law_call_keeps_listener(fifo, log, rest, round);
        let m = run(fifo, rest);
        if longer.last() is Closed {
            assert(m.visits(id) == 0);
        }
        assert(run(fifo, longer).calls(round, id));
        lemma_called(fifo, run(fifo, longer), round);
        lemma_kept_listener(fifo, m, longer.last(), id);
    }
}

/// The node at which a dropping registry stands stays allocated until the registry is done
/// with it, whatever anyone else does: dropping its guard only marks it.
pub proof fn law_drop_keeps_node<C, H>(
    fifo: bool,
    log: Seq<Entry<C, H>>,
    longer: Seq<Entry<C, H>>,
    id: u64,
)
    requires
        valid(fifo, longer),
        log.is_prefix_of(longer),
        !run(fifo, log).open,
        run(fifo, log).visits(id) > 0,
        !run(fifo, log).order.contains(id),
        forall|i: int|
            log.len() <= i < longer.len() ==> #[trigger] longer[i] != Entry::<C, H>::Buried(id),
    ensures
        !run(fifo, longer).open,
        run(fifo, longer).visits(id) > 0,
        !run(fifo, longer).order.contains(id),
    decreases longer.len(),
{
    if log.len() == longer.len() {
        assert(log =~= longer);
    } else {
        let rest = longer.drop_last();
        lemma_last(fifo, longer);
        assert(longer[longer.len() - 1] == longer.last());
        assert forall|i: int| log.len() <= i < rest.len() implies #[trigger] rest[i] != Entry::<
            C,
            H,
        >::Buried(id) by {
            assert(rest[i] == longer[i]);
        }
        assert(log.is_prefix_of(rest));
        law_drop_keeps_node(fifo, log, rest, id);
    }
}

/// A listener that stays in place stays the same.
proof fn lemma_kept_listener<C, H>(fifo: bool, m: Model<H>, entry: Entry<C, H>, id: u64)
    requires
        m.inv(fifo),
        m.enabled(entry),
        m.listeners.contains_key(id),
        m.apply(fifo, entry).listeners.contains_key(id),
    ensures
        m.apply(fifo, entry).listeners[id] == m.listeners[id],
{
    if entry is Registered {
        assert(m.order.contains(id));
    }
}

/// What a guard points to stays allocated for as long as the guard is there, whatever else
/// happens, also once the listener is destructed. Until then the same listener lies there,
/// and nothing does after that.
pub proof fn law_pointer_stays_valid<C, H>(
    fifo: bool,
    log: Seq<Entry<C, H>>,
    longer: Seq<Entry<C, H>>,
    id: u64,
)
    requires
        valid(fifo, longer),
        log.is_prefix_of(longer),
        run(fifo, log).held(id),
        forall|i: int|
            log.len() <= i < longer.len() ==> #[trigger] longer[i] != Entry::<C, H>::Cancelled(id),
    ensures
        run(fifo, longer).held(id),
        run(fifo, longer).slots.contains_key(id),
        run(fifo, longer).listeners.contains_key(id) ==> run(fifo, log).listeners.contains_key(id)
            && run(fifo, longer).listeners[id] == run(fifo, log).listeners[id],
        run(fifo, longer).alive(id) ==> run(fifo, longer).listeners.contains_key(id),
    decreases longer.len(),
{
    lemma_inv(fifo, longer);
    if log.len() == longer.len() {
        assert(log =~= longer);
    } else {
        let rest = longer.drop_last();
        let m = run(fifo, rest);
        lemma_last(fifo, longer);
        assert(longer[longer.len() - 1] == longer.last());
        assert forall|i: int| log.len() <= i < rest.len() implies #[trigger] rest[i] != Entry::<
            C,
            H,
        >::Cancelled(id) by {
            assert(rest[i] == longer[i]);
        }
        assert(log.is_prefix_of(rest));
        law_pointer_stays_valid(fifo, log, rest, id);
        lemma_held_step(fifo, m, longer.last(), id);
        if run(fifo, longer).listeners.contains_key(id) {
            assert(m.listeners.contains_key(id));
            lemma_kept_listener(fifo, m, longer.last(), id);
        }
    }
}

/// A guard that outlives its registry does nothing when dropped but free its node.
pub proof fn law_guard_may_outlive_registry<C, H>(fifo: bool, log: Seq<Entry<C, H>>, id: u64)
    requires
        valid(fifo, log),
        !run(fifo, log).open,
        run(fifo, log).held(id),
        run(fifo, log).visits(id) == 0,
    ensures
        run(fifo, log.push(Entry::Cancelled(id))) == (Model {
            slots: run(fifo, log).slots.remove(id),
            ..run(fifo, log)
        }),
{
    lemma_inv(fifo, log);
    lemma_push(fifo, log, Entry::Cancelled(id));
}

/// Dropping the guard of a listener that was just registered restores the list; its
/// listener is handed to its destructor.
pub proof fn law_cancel_undoes_register<C, H>(fifo: bool, log: Seq<Entry<C, H>>, id: u64, listener: H)
    requires
        valid(fifo, log),
        run(fifo, log).enabled(Entry::<C, H>::Registered { id, listener }),
    ensures
        ({
            let m = run(fifo, log);
            let n = run(
                fifo,
                log.push(Entry::Registered { id, listener }).push(Entry::Cancelled(id)),
            );
            &&& n.order == m.order
            &&& n.slots == m.slots
            &&& n.listeners == m.listeners
            &&& n.pending == m.pending.insert(id, listener)
        }),
{
    let first = log.push(Entry::Registered { id, listener });
    let m = run(fifo, log);
    let mid = run(fifo, first);
    lemma_inv(fifo, log);
    lemma_push(fifo, log, Entry::Registered { id, listener });
    lemma_inv(fifo, first);
    lemma_push(fifo, first, Entry::Cancelled(id));
    let n = mid.apply(fifo, Entry::<C, H>::Cancelled(id));
    let at = if fifo { m.order.len() as int } else { 0 };
    assert(mid.order[at] == id);
    assert(mid.order.contains(id));
    lemma_remove(fifo, mid, id);
    assert(mid.order.index_of(id) == at);
    assert(n.order =~= m.order);
    assert(!m.slots.contains_key(id));
    assert(!m.listeners.contains_key(id)) by {
        if m.listeners.contains_key(id) {
            assert(m.order.contains(id));
        }
    }
    assert(n.slots =~= m.slots);
    assert(n.listeners =~= m.listeners);
}

} // verus!
