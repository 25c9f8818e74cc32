//! What one broadcast does, seen in the log: whom it calls, in what order, and whom it
//! passes over. Nothing here depends on what else happens in between.
use crate::history::{
    before, later, lemma_called, lemma_inv, lemma_prefix, lemma_push, run, valid, Entry,
};
use crate::laws::{delivers, given_up, law_held_until_cancelled, law_no_call_after_cancel};
use vstd::prelude::*;

verus! {

/// Whether the entry is a call made by the broadcast of that round.
pub open spec fn of_round<C, H>(entry: Entry<C, H>, round: nat) -> bool {
    entry matches Entry::Delivered { round: r, id, content } && r == round
}

/// The node whose listener an entry calls.
pub open spec fn target<C, H>(entry: Entry<C, H>) -> u64 {
    entry->Delivered_id
}

/// Whether, within the first `upto` entries, the broadcast of that round called the
/// listener of the node or the node was cancelled.
pub open spec fn served<C, H>(log: Seq<Entry<C, H>>, round: nat, id: u64, upto: int) -> bool {
    exists|k: int|
        0 <= k < upto && ((of_round(#[trigger] log[k], round) && target(log[k]) == id) || log[k]
            == Entry::<C, H>::Cancelled(id))
}

/// Whether a broadcast that began after `bound` registrations is meant for the node: when
/// the first in is the first out, every node is; otherwise those registered before.
pub open spec fn in_scope(fifo: bool, bound: nat, id: u64) -> bool {
    fifo || id < bound
}

/// A broadcast calls listeners in scope, in the order of the list, none of them twice,
/// and calls none before all that come earlier in the list were called or cancelled.
pub open spec fn orderly<C, H>(
    fifo: bool,
    log: Seq<Entry<C, H>>,
    round: nat,
    bound: nat,
) -> bool {
    &&& forall|i: int|
        0 <= i < log.len() && of_round(#[trigger] log[i], round) ==> in_scope(
            fifo,
            bound,
            target(log[i]),
        )
    &&& forall|i: int, j: int|
        0 <= i < j < log.len() && of_round(#[trigger] log[i], round) && of_round(
            #[trigger] log[j],
            round,
        ) ==> later(fifo, target(log[i]) as int, target(log[j]) as int)
    &&& forall|i: int, x: u64|
        #![trigger log[i], served(log, round, x, i)]
        0 <= i < log.len() && of_round(log[i], round) && in_scope(fifo, bound, x) && later(
            fifo,
            x as int,
            target(log[i]) as int,
        ) ==> served(log, round, x, i)
}

/// Where a broadcast in progress stands: at the node that it called last.
pub open spec fn stands_at<C, H>(
    fifo: bool,
    log: Seq<Entry<C, H>>,
    round: nat,
    at: Option<u64>,
) -> bool {
    match at {
        None => forall|i: int| 0 <= i < log.len() ==> !of_round(#[trigger] log[i], round),
        Some(c) => {
            &&& exists|k: int|
                0 <= k < log.len() && of_round(#[trigger] log[k], round) && target(log[k]) == c
            &&& forall|i: int|
                0 <= i < log.len() && of_round(#[trigger] log[i], round) ==> target(log[i]) == c
                    || later(fifo, target(log[i]) as int, c as int)
        },
    }
}

/// The broadcast of that round, begun after `bound` registrations, is in progress and has
/// got as far as `at`.
pub open spec fn tracks<C, H>(
    fifo: bool,
    log: Seq<Entry<C, H>>,
    round: nat,
    bound: nat,
    at: Option<u64>,
) -> bool {
    &&& round < run(fifo, log).rounds
    &&& bound <= run(fifo, log).next_id
    &&& orderly(fifo, log, round, bound)
    &&& stands_at(fifo, log, round, at)
}

/// How many nodes a broadcast that ends at index `end` of the log had to serve.
pub open spec fn due<C, H>(fifo: bool, log: Seq<Entry<C, H>>, bound: nat, end: int) -> nat {
    if fifo {
        before(fifo, log, end).next_id
    } else {
        bound
    }
}

/// The broadcast of that round ended at index `end` of the log: everyone it was meant for,
/// those registered when it began among them, was called or had been cancelled, and it calls
/// no one any more.
pub open spec fn ended_at<C, H>(
    fifo: bool,
    log: Seq<Entry<C, H>>,
    round: nat,
    bound: nat,
    end: int,
) -> bool {
    &&& 0 <= end < log.len()
    &&& log[end] == Entry::<C, H>::Swept(round)
    &&& bound <= due(fifo, log, bound, end)
    &&& forall|x: u64|
        x < due(fifo, log, bound, end) ==> #[trigger] served(log, round, x, end)
    &&& forall|i: int| end < i < log.len() ==> !of_round(#[trigger] log[i], round)
}

/// The broadcast of that round, begun after `bound` registrations, is complete.
pub open spec fn swept<C, H>(fifo: bool, log: Seq<Entry<C, H>>, round: nat, bound: nat) -> bool {
    &&& round < run(fifo, log).rounds
    &&& orderly(fifo, log, round, bound)
    &&& exists|end: int| #[trigger] ended_at(fifo, log, round, bound, end)
}

/// Rounds and node numbers only grow.
pub proof fn lemma_monotone<C, H>(fifo: bool, log: Seq<Entry<C, H>>, i: int)
    requires
        valid(fifo, log),
        0 <= i <= log.len(),
    ensures
        before(fifo, log, i).next_id <= run(fifo, log).next_id,
        before(fifo, log, i).rounds <= run(fifo, log).rounds,
        run(fifo, log).open ==> before(fifo, log, i).open,
    decreases log.len() - i,
{
    lemma_prefix(fifo, log, i);
    if i < log.len() {
        lemma_monotone(fifo, log, i + 1);
    }
}

/// No call belongs to a round that has not begun.
pub proof fn lemma_round_begun<C, H>(fifo: bool, log: Seq<Entry<C, H>>, i: int, round: nat)
    requires
        valid(fifo, log),
        0 <= i < log.len(),
        of_round(log[i], round),
    ensures
        round < run(fifo, log).rounds,
{
    lemma_prefix(fifo, log, i);
    lemma_monotone(fifo, log, i);
}

/// What was served stays served.
pub proof fn lemma_served<C, H>(
    log: Seq<Entry<C, H>>,
    longer: Seq<Entry<C, H>>,
    round: nat,
    id: u64,
    upto: int,
    further: int,
)
    requires
        log.is_prefix_of(longer),
        upto <= further,
        upto <= log.len(),
        served(log, round, id, upto),
    ensures
        served(longer, round, id, further),
{
    let k = choose|k: int|
        0 <= k < upto && ((of_round(#[trigger] log[k], round) && target(log[k]) == id) || log[k]
            == Entry::<C, H>::Cancelled(id));
    assert(longer[k] == log[k]);
}

proof fn lemma_orderly_extends<C, H>(
    fifo: bool,
    log: Seq<Entry<C, H>>,
    longer: Seq<Entry<C, H>>,
    round: nat,
    bound: nat,
)
    requires
        log.is_prefix_of(longer),
        orderly(fifo, log, round, bound),
        forall|i: int| log.len() <= i < longer.len() ==> !of_round(#[trigger] longer[i], round),
    ensures
        orderly(fifo, longer, round, bound),
{
    assert forall|i: int| 0 <= i < log.len() implies log[i] == #[trigger] longer[i] by {}
    assert forall|i: int, x: u64|
        #![trigger longer[i], served(longer, round, x, i)]
        0 <= i < longer.len() && of_round(longer[i], round) && in_scope(fifo, bound, x) && later(
            fifo,
            x as int,
            target(longer[i]) as int,
        ) implies served(longer, round, x, i) by {
        assert(i < log.len());
        assert(of_round(log[i], round));
        assert(served(log, round, x, i));
        lemma_served(log, longer, round, x, i, i);
    }
}

/// A broadcast that began stands before the first node.
pub proof fn lemma_begin<C, H>(fifo: bool, log: Seq<Entry<C, H>>)
    requires
        valid(fifo, log),
    ensures
        tracks(
            fifo,
            log.push(Entry::Begun(run(fifo, log).rounds)),
            run(fifo, log).rounds,
            run(fifo, log).next_id,
            None,
        ),
{
    let round = run(fifo, log).rounds;
    let longer = log.push(Entry::Begun(round));
    lemma_push(fifo, log, Entry::Begun(round));
    assert forall|i: int| 0 <= i < longer.len() implies !of_round(#[trigger] longer[i], round) by {
        if i < log.len() && of_round(log[i], round) {
            lemma_round_begun(fifo, log, i, round);
        }
    }
}

/// Whatever else happens, a broadcast in progress stands where it stood.
pub proof fn law_round_undisturbed<C, H>(
    fifo: bool,
    log: Seq<Entry<C, H>>,
    longer: Seq<Entry<C, H>>,
    round: nat,
    bound: nat,
    at: Option<u64>,
)
    requires
        valid(fifo, longer),
        log.is_prefix_of(longer),
        tracks(fifo, log, round, bound, at),
        forall|i: int| log.len() <= i < longer.len() ==> !of_round(#[trigger] longer[i], round),
    ensures
        tracks(fifo, longer, round, bound, at),
{
    lemma_orderly_extends(fifo, log, longer, round, bound);
    lemma_monotone(fifo, longer, log.len() as int);
    assert(longer.take(log.len() as int) =~= log);
    assert forall|i: int| 0 <= i < log.len() implies log[i] == #[trigger] longer[i] by {}
    if let Some(c) = at {
        let k = choose|k: int|
            0 <= k < log.len() && of_round(#[trigger] log[k], round) && target(log[k]) == c;
        assert(of_round(longer[k], round) && target(longer[k]) == c);
    }
}

/// Whatever else happens, a broadcast ended where it ended.
pub proof fn lemma_ended<C, H>(
    fifo: bool,
    log: Seq<Entry<C, H>>,
    longer: Seq<Entry<C, H>>,
    round: nat,
    bound: nat,
    end: int,
)
    requires
        log.is_prefix_of(longer),
        ended_at(fifo, log, round, bound, end),
        forall|i: int| log.len() <= i < longer.len() ==> !of_round(#[trigger] longer[i], round),
    ensures
        ended_at(fifo, longer, round, bound, end),
{
    assert(longer.take(end) =~= log.take(end));
    assert(longer[end] == log[end]);
    assert forall|x: u64| x < due(fifo, longer, bound, end) implies #[trigger] served(
        longer,
        round,
        x,
        end,
    ) by {
        lemma_served(log, longer, round, x, end, end);
    }
    assert forall|i: int| end < i < longer.len() implies !of_round(#[trigger] longer[i], round) by {
        if i < log.len() {
            assert(!of_round(log[i], round));
        }
    }
}

/// Whatever else happens, a complete broadcast stays as it was.
pub proof fn law_round_final<C, H>(
    fifo: bool,
    log: Seq<Entry<C, H>>,
    longer: Seq<Entry<C, H>>,
    round: nat,
    bound: nat,
)
    requires
        valid(fifo, longer),
        log.is_prefix_of(longer),
        swept(fifo, log, round, bound),
        forall|i: int| log.len() <= i < longer.len() ==> !of_round(#[trigger] longer[i], round),
    ensures
        swept(fifo, longer, round, bound),
{
    lemma_orderly_extends(fifo, log, longer, round, bound);
    lemma_monotone(fifo, longer, log.len() as int);
    assert(longer.take(log.len() as int) =~= log);
    let end = choose|end: int| #[trigger] ended_at(fifo, log, round, bound, end);
    lemma_ended(fifo, log, longer, round, bound, end);
}

/// Everyone earlier in the list than a broadcast's next step was served.
proof fn lemma_earlier_served<C, H>(
    fifo: bool,
    log: Seq<Entry<C, H>>,
    round: nat,
    bound: nat,
    at: Option<u64>,
    x: u64,
)
    requires
        valid(fifo, log),
        tracks(fifo, log, round, bound, at),
        in_scope(fifo, bound, x),
        x < run(fifo, log).next_id,
        at is None || later(fifo, at->0 as int, x as int) ==> !run(fifo, log).held(x),
    ensures
        served(log, round, x, log.len() as int),
{
    if at is None || later(fifo, at->0 as int, x as int) {
        law_held_until_cancelled(fifo, log, x);
        let k = log.index_of(Entry::Cancelled(x));
        assert(log[k] == Entry::<C, H>::Cancelled(x));
    } else {
        let c = at->0;
        let k = choose|k: int|
            0 <= k < log.len() && of_round(#[trigger] log[k], round) && target(log[k]) == c;
        if x != c {
            assert(served(log, round, x, k));
            lemma_served(log, log, round, x, k, log.len() as int);
        }
    }
}

/// A broadcast goes on to the next node that was not cancelled.
pub proof fn lemma_deliver<C, H>(
    fifo: bool,
    log: Seq<Entry<C, H>>,
    round: nat,
    bound: nat,
    at: Option<u64>,
    id: u64,
    content: C,
)
    requires
        valid(fifo, log),
        tracks(fifo, log, round, bound, at),
        in_scope(fifo, bound, id),
        id < run(fifo, log).next_id,
        at is Some ==> later(fifo, at->0 as int, id as int),
        forall|x: u64|
            (at is None || later(fifo, at->0 as int, x as int)) && later(
                fifo,
                x as int,
                id as int,
            ) ==> !#[trigger] run(fifo, log).held(x),
    ensures
        tracks(fifo, log.push(Entry::Delivered { round, id, content }), round, bound, Some(id)),
{
    let entry = Entry::<C, H>::Delivered { round, id, content };
    let longer = log.push(entry);
    lemma_push(fifo, log, entry);
    assert(longer[log.len() as int] == entry);
    assert forall|i: int| 0 <= i < log.len() implies log[i] == #[trigger] longer[i] by {}
    assert forall|i: int|
        0 <= i < log.len() && of_round(#[trigger] longer[i], round) implies later(
        fifo,
        target(longer[i]) as int,
        id as int,
    ) by {
        assert(of_round(log[i], round));
    }
    assert forall|i: int, x: u64|
        #![trigger longer[i], served(longer, round, x, i)]
        0 <= i < longer.len() && of_round(longer[i], round) && in_scope(fifo, bound, x) && later(
            fifo,
            x as int,
            target(longer[i]) as int,
        ) implies served(longer, round, x, i) by {
        if i < log.len() {
            assert(of_round(log[i], round));
            assert(served(log, round, x, i));
            lemma_served(log, longer, round, x, i, i);
        } else {
            lemma_earlier_served(fifo, log, round, bound, at, x);
            lemma_served(log, longer, round, x, i, i);
        }
    }
    assert forall|i: int, j: int|
        0 <= i < j < longer.len() && of_round(#[trigger] longer[i], round) && of_round(
            #[trigger] longer[j],
            round,
        ) implies later(fifo, target(longer[i]) as int, target(longer[j]) as int) by {
        if j < log.len() {
            assert(of_round(log[i], round) && of_round(log[j], round));
        }
    }
    assert forall|i: int| 0 <= i < longer.len() && of_round(#[trigger] longer[i], round) implies in_scope(
        fifo, bound, target(longer[i])) by {
        if i < log.len() {
            assert(of_round(log[i], round));
        }
    }
}

/// A broadcast that finds no one left is complete.
pub proof fn lemma_sweep<C, H>(
    fifo: bool,
    log: Seq<Entry<C, H>>,
    round: nat,
    bound: nat,
    at: Option<u64>,
)
    requires
        valid(fifo, log),
        tracks(fifo, log, round, bound, at),
        forall|x: u64|
            at is None || later(fifo, at->0 as int, x as int) ==> !#[trigger] run(
                fifo,
                log,
            ).held(x),
    ensures
        swept(fifo, log.push(Entry::Swept(round)), round, bound),
        ended_at(
            fifo,
            log.push(Entry::Swept(round)),
            round,
            bound,
            log.len() as int,
        ),
{
    let entry = Entry::<C, H>::Swept(round);
    let longer = log.push(entry);
    let end = log.len() as int;
    lemma_push(fifo, log, entry);
    assert(longer[end] == entry);
    lemma_orderly_extends(fifo, log, longer, round, bound);
    assert(longer.take(end) =~= log);
    assert forall|x: u64| x < due(fifo, longer, bound, end) implies #[trigger] served(
        longer,
        round,
        x,
        end,
    ) by {
        lemma_earlier_served(fifo, log, round, bound, at, x);
        lemma_served(log, longer, round, x, end, end);
    }
    assert(ended_at(fifo, longer, round, bound, end));
}

/// Whether the entry belongs to a broadcast of that number or a later one, or to none.
pub open spec fn since_round<C, H>(entry: Entry<C, H>, round: nat) -> bool {
    match entry {
        Entry::Delivered { round: r, id, content } => r >= round,
        Entry::Returned { round: r, id } => r >= round,
        Entry::Swept(r) => r >= round,
        _ => true,
    }
}

/// Whether the entry is the return of a call made by the broadcast of that round.
pub open spec fn ends_call_of<C, H>(entry: Entry<C, H>, round: nat) -> bool {
    entry matches Entry::Returned { round: r, id } && r == round
}

/// The nodes that the broadcast of that round removed when their calls returned.
pub open spec fn removals<C, H>(fifo: bool, log: Seq<Entry<C, H>>, round: nat) -> Seq<u64>
    decreases log.len(),
{
    if log.len() == 0 {
        Seq::empty()
    } else {
        let rest = log.drop_last();
        let so_far = removals(fifo, rest, round);
        if ends_call_of(log.last(), round) && run(fifo, rest).leaves(log.last()->Returned_id) {
            so_far.push(log.last()->Returned_id)
        } else {
            so_far
        }
    }
}

pub proof fn lemma_removals_push<C, H>(
    fifo: bool,
    log: Seq<Entry<C, H>>,
    round: nat,
    entry: Entry<C, H>,
)
    ensures
        removals(fifo, log.push(entry), round) == (if ends_call_of(entry, round) && run(
            fifo,
            log,
        ).leaves(entry->Returned_id) {
            removals(fifo, log, round).push(entry->Returned_id)
        } else {
            removals(fifo, log, round)
        }),
{
    assert(log.push(entry).drop_last() =~= log);
}

/// What others do adds nothing to what a broadcast removed.
pub proof fn lemma_removals_extend<C, H>(
    fifo: bool,
    log: Seq<Entry<C, H>>,
    longer: Seq<Entry<C, H>>,
    round: nat,
)
    requires
        log.is_prefix_of(longer),
        forall|i: int|
            log.len() <= i < longer.len() ==> !ends_call_of(#[trigger] longer[i], round),
    ensures
        removals(fifo, longer, round) == removals(fifo, log, round),
    decreases longer.len(),
{
    if longer.len() == log.len() {
        assert(longer =~= log);
    } else {
        let rest = longer.drop_last();
        assert(longer[longer.len() - 1] == longer.last());
        assert forall|i: int| log.len() <= i < rest.len() implies !ends_call_of(
            #[trigger] rest[i],
            round,
        ) by {
            assert(rest[i] == longer[i]);
        }
        assert(log.is_prefix_of(rest));
        lemma_removals_extend(fifo, log, rest, round);
    }
}

/// No call returns for a round that has not begun.
pub proof fn lemma_no_removals<C, H>(fifo: bool, log: Seq<Entry<C, H>>, round: nat)
    requires
        valid(fifo, log),
        round >= run(fifo, log).rounds,
    ensures
        removals(fifo, log, round) == Seq::<u64>::empty(),
{
    let none = Seq::<Entry<C, H>>::empty();
    assert forall|i: int| 0 <= i < log.len() implies !ends_call_of(#[trigger] log[i], round) by {
        lemma_prefix(fifo, log, i);
        lemma_monotone(fifo, log, i);
        if ends_call_of(log[i], round) {
            lemma_inv(fifo, log.take(i));
            lemma_called(fifo, before(fifo, log, i), round);
        }
    }
    lemma_removals_extend(fifo, none, log, round);
}

/// Whether the destructor of the listener of `a` was started before that of `b`.
pub open spec fn destructed_before<C, H>(log: Seq<Entry<C, H>>, a: u64, b: u64) -> bool {
    exists|p: int, q: int|
        0 <= p < q < log.len() && #[trigger] log[p] == Entry::<C, H>::Destructed(a)
            && #[trigger] log[q] == Entry::<C, H>::Destructed(b)
}

/// How a broadcast ends: at index `end` of the log it has served everyone. If it removed
/// nodes and left the list empty, the policy is told so, at once. Only then are the
/// listeners that it removed destructed, the last one first.
pub open spec fn concluded<C, H>(
    fifo: bool,
    log: Seq<Entry<C, H>>,
    round: nat,
    bound: nat,
    end: int,
) -> bool {
    let removed = removals(fifo, log, round);
    &&& ended_at(fifo, log, round, bound, end)
    &&& (end + 1 < log.len() && log[end + 1] == Entry::<C, H>::Notified) <==> (removed.len() > 0
        && before(fifo, log, end).order.len() == 0)
    &&& forall|i: int| 0 <= i < removed.len() ==> log.contains(
        Entry::Destructed(#[trigger] removed[i]),
    )
    &&& forall|i: int, k: int|
        0 <= i < removed.len() && 0 <= k <= end ==> #[trigger] log[k] != Entry::<
            C,
            H,
        >::Destructed(#[trigger] removed[i])
    &&& forall|i: int, j: int|
        0 <= i < j < removed.len() ==> destructed_before(
            log,
            #[trigger] removed[j],
            #[trigger] removed[i],
        )
}

/// A broadcast calls no listener twice.
pub proof fn law_called_once_per_broadcast<C, H>(
    fifo: bool,
    log: Seq<Entry<C, H>>,
    round: nat,
    bound: nat,
    i: int,
    j: int,
)
    requires
        orderly(fifo, log, round, bound),
        0 <= i < log.len(),
        0 <= j < log.len(),
        of_round(log[i], round),
        of_round(log[j], round),
        target(log[i]) == target(log[j]),
    ensures
        i == j,
{
}

/// When the last in is the first out, listeners registered during a broadcast do not
/// receive its event.
pub proof fn law_newcomers_wait<C, H>(log: Seq<Entry<C, H>>, round: nat, bound: nat, i: int)
    requires
        orderly(false, log, round, bound),
        0 <= i < log.len(),
        of_round(log[i], round),
    ensures
        target(log[i]) < bound,
{
}

/// Every listener that a broadcast is meant for and that was not cancelled by its end
/// received its event. When the first in is the first out, those registered during the
/// broadcast are among them.
pub proof fn law_everyone_is_called<C, H>(
    fifo: bool,
    log: Seq<Entry<C, H>>,
    round: nat,
    bound: nat,
    end: int,
    id: u64,
)
    requires
        ended_at(fifo, log, round, bound, end),
        id < due(fifo, log, bound, end),
        !given_up(log, id, end),
    ensures
        exists|k: int|
            0 <= k < end && of_round(#[trigger] log[k], round) && target(log[k]) == id,
{
    assert(served(log, round, id, end));
}

/// Whether the broadcast of that round calls the listener of the node.
pub open spec fn received<C, H>(log: Seq<Entry<C, H>>, round: nat, id: u64) -> bool {
    exists|k: int| 0 <= k < log.len() && of_round(#[trigger] log[k], round) && target(log[k]) == id
}

/// Whether at index `i` of the log the broadcast of that round, which ends at index `end`, is
/// at the node or past it: it calls its listener, or one that comes later in the list, or
/// ends.
pub open spec fn comes_to<C, H>(
    fifo: bool,
    log: Seq<Entry<C, H>>,
    round: nat,
    end: int,
    id: u64,
    i: int,
) -> bool {
    i == end || (of_round(log[i], round) && (target(log[i]) == id || later(
        fifo,
        id as int,
        target(log[i]) as int,
    )))
}

/// Whether it is at index `turn` of the log that it is the turn of the node: there the
/// broadcast first comes to it.
pub open spec fn turn_of<C, H>(
    fifo: bool,
    log: Seq<Entry<C, H>>,
    round: nat,
    end: int,
    id: u64,
    turn: int,
) -> bool {
    &&& 0 <= turn <= end
    &&& comes_to(fifo, log, round, end, id, turn)
    &&& forall|k: int| 0 <= k < turn ==> !#[trigger] comes_to(fifo, log, round, end, id, k)
}

proof fn lemma_turn<C, H>(
    fifo: bool,
    log: Seq<Entry<C, H>>,
    round: nat,
    end: int,
    id: u64,
    from: int,
) -> (turn: int)
    requires
        0 <= from <= end,
        forall|k: int| 0 <= k < from ==> !#[trigger] comes_to(fifo, log, round, end, id, k),
    ensures
        turn_of(fifo, log, round, end, id, turn),
    decreases end - from,
{
    if comes_to(fifo, log, round, end, id, from) {
        from
    } else {
        lemma_turn(fifo, log, round, end, id, from + 1)
    }
}

/// Who receives the event of a broadcast. Each node that it is meant for, every node
/// registered when it began among them, has one turn, in the order of the list. Its listener
/// is called in its turn, and at no other time, if its guard was not dropped before; if it
/// was, the listener is not called at all.
pub proof fn law_received_iff_held_at_its_turn<C, H>(
    fifo: bool,
    log: Seq<Entry<C, H>>,
    round: nat,
    bound: nat,
    end: int,
    id: u64,
) -> (turn: int)
    requires
        valid(fifo, log),
        orderly(fifo, log, round, bound),
        ended_at(fifo, log, round, bound, end),
        id < due(fifo, log, bound, end),
    ensures
        turn_of(fifo, log, round, end, id, turn),
        received(log, round, id) <==> !given_up(log, id, turn),
        forall|i: int|
            0 <= i < log.len() && of_round(#[trigger] log[i], round) && target(log[i]) == id ==> i
                == turn,
{
    let turn = lemma_turn(fifo, log, round, end, id, 0);
    assert forall|i: int|
        0 <= i < log.len() && of_round(#[trigger] log[i], round) && target(log[i]) == id implies i
        == turn by {
        assert(comes_to(fifo, log, round, end, id, i));
    }
    if turn < end && target(log[turn]) == id {
        if given_up(log, id, turn) {
            let k = choose|k: int|
                0 <= k < turn && #[trigger] log[k] == Entry::<C, H>::Cancelled(id);
            law_no_call_after_cancel(fifo, log, k, turn, id);
            assert(delivers(log[turn], id));
        }
    } else {
        assert(served(log, round, id, turn));
        let k = choose|k: int|
            0 <= k < turn && ((of_round(#[trigger] log[k], round) && target(log[k]) == id)
                || log[k] == Entry::<C, H>::Cancelled(id));
        assert(!comes_to(fifo, log, round, end, id, k));
        assert(given_up(log, id, turn));
    }
    turn
}

/// Whether the node had one turn in the broadcast of that round, which has ended: its
/// listener was called then, if its guard was not dropped before, and at no other time.
pub open spec fn received_in_turn<C, H>(
    fifo: bool,
    log: Seq<Entry<C, H>>,
    round: nat,
    id: u64,
) -> bool {
    exists|end: int, turn: int|
        {
            &&& 0 <= end < log.len()
            &&& log[end] == Entry::<C, H>::Swept(round)
            &&& #[trigger] turn_of(fifo, log, round, end, id, turn)
            &&& received(log, round, id) <==> !given_up(log, id, turn)
            &&& forall|i: int|
                0 <= i < log.len() && of_round(#[trigger] log[i], round) && target(log[i]) == id
                    ==> i == turn
        }
}

/// Everyone registered when a broadcast began has one turn in it.
pub proof fn lemma_received_in_turn<C, H>(
    fifo: bool,
    log: Seq<Entry<C, H>>,
    round: nat,
    bound: nat,
    end: int,
)
    requires
        valid(fifo, log),
        orderly(fifo, log, round, bound),
        ended_at(fifo, log, round, bound, end),
    ensures
        forall|id: u64| id < bound ==> #[trigger] received_in_turn(fifo, log, round, id),
{
    assert forall|id: u64| id < bound implies #[trigger] received_in_turn(fifo, log, round, id) by {
        let turn = law_received_iff_held_at_its_turn(fifo, log, round, bound, end, id);
        assert(turn_of(fifo, log, round, end, id, turn));
    }
}

} // verus!
