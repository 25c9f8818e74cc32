//! What a registry is, read off its log entry by entry: who was registered, whose guard was
//! dropped, which calls came back. Nothing here goes by the steps that lead from one registry
//! to the next.
use crate::history::{
    lemma_called, lemma_inv, lemma_prefix, run, valid, Entry,
};
use crate::laws::{
    calls, law_destructed_or_kept, law_held_until_cancelled, law_sealed_entry, law_uses_are_calls,
    lemma_closed_entry, lemma_held_step, lemma_last, lemma_split,
};
use crate::load::{lemma_load_add, lemma_load_frame, lemma_load_remove, lemma_load_update, load};
use crate::rounds::{ends_call_of, lemma_monotone, removals};
use crate::state::Slot;
use vstd::prelude::*;

verus! {

/// Whether the entry registers a listener as that node.
pub open spec fn registers<C, H>(entry: Entry<C, H>, id: u64) -> bool {
    entry matches Entry::Registered { id: x, listener } && x == id
}

/// Whether a listener was registered as that node.
pub open spec fn enrolled<C, H>(log: Seq<Entry<C, H>>, id: u64) -> bool {
    exists|k: int| 0 <= k < log.len() && registers(#[trigger] log[k], id)
}

/// Whether a listener was registered as that node, and its guard was not dropped or a call of
/// it has not come back.
pub open spec fn present<C, H>(log: Seq<Entry<C, H>>, id: u64) -> bool {
    enrolled(log, id) && (!log.contains(Entry::Cancelled(id)) || calls(log, id) > 0)
}

/// Whether there is no one whom a broadcast could call, nor anyone being called.
pub open spec fn vacant<C, H>(log: Seq<Entry<C, H>>) -> bool {
    forall|id: u64| !#[trigger] present(log, id)
}

/// How many entries are of that kind.
pub open spec fn count<C, H>(log: Seq<Entry<C, H>>, kind: spec_fn(Entry<C, H>) -> bool) -> int
    decreases log.len(),
{
    if log.len() == 0 {
        0
    } else {
        count(log.drop_last(), kind) + if kind(log.last()) {
            1int
        } else {
            0
        }
    }
}

/// The nodes that left the list when a call that the broadcast of that round made came back:
/// their guards were gone, and it was the last call of them.
pub open spec fn taken_by<C, H>(log: Seq<Entry<C, H>>, round: nat) -> Seq<u64>
    decreases log.len(),
{
    if log.len() == 0 {
        Seq::empty()
    } else {
        let rest = taken_by(log.drop_last(), round);
        match log.last() {
            Entry::Returned { round: r, id } => if r == round && log.contains(Entry::Cancelled(id))
                && calls(log, id) == 0 {
                rest.push(id)
            } else {
                rest
            },
            _ => rest,
        }
    }
}

pub proof fn lemma_count_push<C, H>(
    log: Seq<Entry<C, H>>,
    kind: spec_fn(Entry<C, H>) -> bool,
    entry: Entry<C, H>,
)
    ensures
        count(log.push(entry), kind) == count(log, kind) + if kind(entry) {
            1int
        } else {
            0
        },
{
    assert(log.push(entry).drop_last() =~= log);
}

/// Entries of other kinds do not count.
pub proof fn lemma_count_extend<C, H>(
    log: Seq<Entry<C, H>>,
    longer: Seq<Entry<C, H>>,
    kind: spec_fn(Entry<C, H>) -> bool,
)
    requires
        log.is_prefix_of(longer),
        forall|i: int| log.len() <= i < longer.len() ==> !kind(#[trigger] longer[i]),
    ensures
        count(longer, kind) == count(log, kind),
    decreases longer.len(),
{
    if longer.len() == log.len() {
        assert(longer =~= log);
    } else {
        let rest = longer.drop_last();
        assert(longer[longer.len() - 1] == longer.last());
        assert forall|i: int| log.len() <= i < rest.len() implies !kind(#[trigger] rest[i]) by {
            assert(rest[i] == longer[i]);
        }
        assert(log.is_prefix_of(rest));
        lemma_count_extend(log, rest, kind);
    }
}

/// Kinds that are the same count the same.
pub proof fn lemma_count_same<C, H>(
    log: Seq<Entry<C, H>>,
    kind: spec_fn(Entry<C, H>) -> bool,
    other: spec_fn(Entry<C, H>) -> bool,
)
    requires
        forall|e: Entry<C, H>| #[trigger] kind(e) <==> other(e),
    ensures
        count(log, kind) == count(log, other),
    decreases log.len(),
{
    if log.len() > 0 {
        lemma_count_same(log.drop_last(), kind, other);
        assert(kind(log.last()) <==> other(log.last()));
    }
}

/// Nodes are numbered by registration: the first listener ever registered is node 0, and each
/// one after it has the next number. Broadcasts are numbered likewise.
pub proof fn law_numbered_by_registration<C, H>(fifo: bool, log: Seq<Entry<C, H>>)
    requires
        valid(fifo, log),
    ensures
        run(fifo, log).next_id == count(log, |e: Entry<C, H>| e is Registered),
        run(fifo, log).rounds == count(log, |e: Entry<C, H>| e is Begun),
        forall|i: int|
            0 <= i < log.len() && (#[trigger] log[i]) is Registered ==> log[i]->Registered_id
                == count(log.take(i), |e: Entry<C, H>| e is Registered),
        forall|i: int|
            0 <= i < log.len() && (#[trigger] log[i]) is Begun ==> log[i]->Begun_0 == count(
                log.take(i),
                |e: Entry<C, H>| e is Begun,
            ),
    decreases log.len(),
{
    if log.len() > 0 {
        let rest = log.drop_last();
        let n = log.len() - 1;
        lemma_last(fifo, log);
        law_numbered_by_registration(fifo, rest);
        assert(log.take(n) =~= rest);
        assert forall|i: int| 0 <= i < n implies #[trigger] log[i] == rest[i] && log.take(i)
            == rest.take(i) by {
            assert(log.take(i) =~= rest.take(i));
        }
        assert forall|i: int|
            0 <= i < log.len() && (#[trigger] log[i]) is Registered implies log[i]->Registered_id
            == count(log.take(i), |e: Entry<C, H>| e is Registered) by {
            if i < n {
                assert(rest[i] is Registered);
            }
        }
        assert forall|i: int|
            0 <= i < log.len() && (#[trigger] log[i]) is Begun implies log[i]->Begun_0 == count(
            log.take(i),
            |e: Entry<C, H>| e is Begun,
        ) by {
            if i < n {
                assert(rest[i] is Begun);
            }
        }
    }
}

/// A node has a number that was given out exactly if it was registered, and no number is given
/// out twice.
pub proof fn law_registered_once<C, H>(fifo: bool, log: Seq<Entry<C, H>>, id: u64)
    requires
        valid(fifo, log),
    ensures
        enrolled(log, id) <==> id < run(fifo, log).next_id,
        forall|i: int, j: int|
            0 <= i < log.len() && 0 <= j < log.len() && registers(#[trigger] log[i], id)
                && registers(#[trigger] log[j], id) ==> i == j,
    decreases log.len(),
{
    if log.len() > 0 {
        let rest = log.drop_last();
        let n = log.len() - 1;
        lemma_last(fifo, log);
        law_registered_once(fifo, rest, id);
        assert(log[n] == log.last());
        assert forall|i: int| 0 <= i < n implies #[trigger] log[i] == rest[i] by {}
        if enrolled(rest, id) {
            let k = choose|k: int| 0 <= k < rest.len() && registers(#[trigger] rest[k], id);
            assert(registers(log[k], id));
        }
        if enrolled(log, id) && !registers(log.last(), id) {
            let k = choose|k: int| 0 <= k < log.len() && registers(#[trigger] log[k], id);
            assert(registers(rest[k], id));
        }
        assert forall|i: int, j: int|
            0 <= i < log.len() && 0 <= j < log.len() && registers(#[trigger] log[i], id)
                && registers(#[trigger] log[j], id) implies i == j by {
            if i < n && j < n {
                assert(registers(rest[i], id) && registers(rest[j], id));
            } else if i < n {
                assert(registers(rest[i], id));
            } else if j < n {
                assert(registers(rest[j], id));
            }
        }
    }
}

/// A registry is there until it is dropped. Until then a node is in the list, and its listener
/// alive, exactly if it was registered and its guard was not dropped or a call of it has not
/// come back. Once the registry is dropped no listener is alive. A guard is there exactly if
/// it was not dropped.
pub proof fn law_alive_iff_present<C, H>(fifo: bool, log: Seq<Entry<C, H>>, id: u64)
    requires
        valid(fifo, log),
    ensures
        run(fifo, log).open <==> !log.contains(Entry::Closed),
        run(fifo, log).sealed <==> log.contains(Entry::Sealed),
        run(fifo, log).held(id) <==> enrolled(log, id) && !log.contains(Entry::Cancelled(id)),
        run(fifo, log).alive(id) <==> present(log, id) && !log.contains(Entry::Closed),
        !log.contains(Entry::Closed) ==> (run(fifo, log).order.contains(id) <==> present(log, id)),
        !log.contains(Entry::Closed) ==> run(fifo, log).visits(id) == calls(log, id),
        !log.contains(Entry::Closed) ==> (run(fifo, log).pending.contains_key(id) <==> enrolled(
            log,
            id,
        ) && !present(log, id) && !log.contains(Entry::Destructed(id))),
{
    let m = run(fifo, log);
    lemma_inv(fifo, log);
    lemma_closed_entry(fifo, log);
    law_sealed_entry(fifo, log);
    law_registered_once(fifo, log, id);
    law_held_until_cancelled(fifo, log, id);
    law_uses_are_calls(fifo, log, id);
    law_destructed_or_kept(fifo, log, id);
    if m.open {
        assert(m.slots.contains_key(id) ==> m.order.contains(id));
        if m.visits(id) > 0 {
            assert(m.slots.contains_key(id));
        }
        assert(m.listeners.contains_key(id) <==> m.order.contains(id));
    }
}

/// A listener that is in its node, or waits for its destructor, is the one that was registered
/// as that node.
pub proof fn law_listener_is_the_registered_one<C, H>(
    fifo: bool,
    log: Seq<Entry<C, H>>,
    id: u64,
    k: int,
)
    requires
        valid(fifo, log),
        0 <= k < log.len(),
        registers(log[k], id),
    ensures
        run(fifo, log).listeners.contains_key(id) ==> run(fifo, log).listeners[id]
            == log[k]->Registered_listener,
        run(fifo, log).pending.contains_key(id) ==> run(fifo, log).pending[id]
            == log[k]->Registered_listener,
    decreases log.len(),
{
    let rest = log.drop_last();
    let n = log.len() - 1;
    let m = run(fifo, rest);
    lemma_last(fifo, log);
    assert(log[n] == log.last());
    if k < n {
        assert(rest[k] == log[k]);
        law_listener_is_the_registered_one(fifo, rest, id, k);
        law_registered_once(fifo, rest, id);
        assert(enrolled(rest, id));
        match log.last() {
            Entry::Cancelled(x) => {
                if m.slots[x].visits == 0 && m.slots[x].alive {
                    assert(m.order.contains(x));
                }
            },
            Entry::Returned { round, id: x } => {
                lemma_called(fifo, m, round);
            },
            Entry::Detached(x) => {
                assert(m.order.contains(x));
            },
            _ => {},
        }
    } else if m.pending.contains_key(id) {
        assert(id < m.next_id);
    }
}

/// The list is empty exactly if no one is in it.
pub proof fn law_empty_iff_vacant<C, H>(fifo: bool, log: Seq<Entry<C, H>>)
    requires
        valid(fifo, log),
        !log.contains(Entry::Closed),
    ensures
        run(fifo, log).order.len() == 0 <==> vacant(log),
{
    let m = run(fifo, log);
    if vacant(log) && m.order.len() > 0 {
        let id = m.order[0];
        assert(m.order.contains(id));
        law_alive_iff_present(fifo, log, id);
    }
    if m.order.len() == 0 {
        assert forall|id: u64| !#[trigger] present(log, id) by {
            law_alive_iff_present(fifo, log, id);
        }
    }
}

/// The list holds each node once: the earliest first when the first in is the first out, the
/// latest first otherwise.
pub proof fn law_list_in_order<C, H>(fifo: bool, log: Seq<Entry<C, H>>, i: int, j: int)
    requires
        valid(fifo, log),
        0 <= i < j < run(fifo, log).order.len(),
    ensures
        fifo ==> run(fifo, log).order[i] < run(fifo, log).order[j],
        !fifo ==> run(fifo, log).order[i] > run(fifo, log).order[j],
{
    lemma_inv(fifo, log);
}

/// What a broadcast removes are the nodes whose last call it made, with their guards gone.
pub proof fn law_removals_are_taken<C, H>(fifo: bool, log: Seq<Entry<C, H>>, round: nat)
    requires
        valid(fifo, log),
    ensures
        removals(fifo, log, round) == taken_by(log, round),
    decreases log.len(),
{
    if log.len() > 0 {
        let rest = log.drop_last();
        lemma_last(fifo, log);
        law_removals_are_taken(fifo, rest, round);
        if ends_call_of(log.last(), round) {
            let id = log.last()->Returned_id;
            let m = run(fifo, rest);
            lemma_called(fifo, m, round);
            law_uses_are_calls(fifo, rest, id);
            law_held_until_cancelled(fifo, rest, id);
            lemma_split(log, Entry::Cancelled(id));
            assert(m.slots.contains_key(id));
            assert(id < m.next_id);
        }
    }
}

/// There are as many guards as listeners were registered, less those that were dropped.
pub proof fn law_guards_counted<C, H>(fifo: bool, log: Seq<Entry<C, H>>)
    requires
        valid(fifo, log),
    ensures
        Set::new(|id: u64| run(fifo, log).held(id)).finite(),
        Set::new(|id: u64| run(fifo, log).held(id)).len() == count(
            log,
            |e: Entry<C, H>| e is Registered,
        ) - count(log, |e: Entry<C, H>| e is Cancelled),
    decreases log.len(),
{
    let now = Set::new(|id: u64| run(fifo, log).held(id));
    if log.len() == 0 {
        assert(now =~= Set::empty());
    } else {
        let rest = log.drop_last();
        let m = run(fifo, rest);
        let was = Set::new(|id: u64| m.held(id));
        lemma_last(fifo, log);
        law_guards_counted(fifo, rest);
        assert forall|id: u64| #[trigger]
            now.contains(id) == (match log.last() {
                Entry::Registered { id: x, listener } => was.insert(x),
                Entry::Cancelled(x) => was.remove(x),
                _ => was,
            }).contains(id) by {
            lemma_held_step(fifo, m, log.last(), id);
        }
        match log.last() {
            Entry::Registered { id, listener } => {
                assert(now =~= was.insert(id));
                assert(!was.contains(id));
            },
            Entry::Cancelled(id) => {
                assert(now =~= was.remove(id));
                assert(was.contains(id));
            },
            _ => {
                assert(now =~= was);
            },
        }
    }
}

/// The uses of all nodes together are the calls that were made and have not come back.
pub proof fn law_calls_counted<C, H>(fifo: bool, log: Seq<Entry<C, H>>)
    requires
        valid(fifo, log),
        !log.contains(Entry::Closed),
    ensures
        load(run(fifo, log).order, run(fifo, log).slots) == count(
            log,
            |e: Entry<C, H>| e is Delivered,
        ) - count(log, |e: Entry<C, H>| e is Returned),
    decreases log.len(),
{
    if log.len() > 0 {
        let rest = log.drop_last();
        let m = run(fifo, rest);
        let n = run(fifo, log);
        lemma_last(fifo, log);
        lemma_split(log, Entry::Closed);
        law_calls_counted(fifo, rest);
        lemma_closed_entry(fifo, rest);
        assert(m.order.no_duplicates());
        assert forall|i: int| 0 <= i < m.order.len() implies m.order.contains(
            #[trigger] m.order[i],
        ) && m.slots.contains_key(m.order[i]) && m.order[i] < m.next_id by {
            assert(m.order.contains(m.order[i]));
        }
        match log.last() {
            Entry::Registered { id, listener } => {
                lemma_load_frame(m.order, m.slots, n.slots);
                lemma_load_add(m.order, n.slots, id);
            },
            Entry::Cancelled(id) => {
                assert(m.order.contains(id));
                if m.slots[id].visits > 0 {
                    lemma_load_update(m.order, m.slots, id, n.slots[id]);
                } else {
                    lemma_taken_load(m.order, m.slots, id);
                }
            },
            Entry::Delivered { round, id, content } => {
                assert(m.order.contains(id));
                lemma_load_update(m.order, m.slots, id, n.slots[id]);
            },
            Entry::Returned { round, id } => {
                lemma_called(fifo, m, round);
                if m.leaves(id) {
                    lemma_taken_load(m.order, m.slots, id);
                } else {
                    lemma_load_update(m.order, m.slots, id, n.slots[id]);
                }
            },
            _ => {},
        }
    }
}

/// A node that leaves the list takes its uses with it.
proof fn lemma_taken_load(order: Seq<u64>, slots: Map<u64, Slot>, id: u64)
    requires
        order.no_duplicates(),
        order.contains(id),
    ensures
        load(order.remove(order.index_of(id)), slots.remove(id)) == load(order, slots)
            - slots[id].visits,
{
    let k = order.index_of(id);
    let rest = order.remove(k);
    lemma_load_remove(order, slots, k);
    assert forall|i: int| 0 <= i < rest.len() implies slots[#[trigger] rest[i]].visits
        == slots.remove(id)[rest[i]].visits by {
        let o = if i < k { i } else { i + 1 };
        assert(rest[i] == order[o]);
        assert(order[o] != order[k]);
    }
    lemma_load_frame(rest, slots, slots.remove(id));
}

/// Once the registry is dropped, those are left in the list who were in it then and were not
/// taken out since. Dropping a guard takes no one out any more.
pub proof fn law_left_by_the_drop<C, H>(fifo: bool, log: Seq<Entry<C, H>>, c: int, id: u64)
    requires
        valid(fifo, log),
        0 <= c < log.len(),
        log[c] == Entry::<C, H>::Closed,
    ensures
        run(fifo, log).order.contains(id) <==> present(log.take(c), id) && !log.contains(
            Entry::Detached(id),
        ),
        run(fifo, log).listeners.contains_key(id) <==> present(log.take(c), id) && !log.contains(
            Entry::Detached(id),
        ),
    decreases log.len(),
{
    let rest = log.drop_last();
    let n = log.len() - 1;
    let m = run(fifo, rest);
    lemma_last(fifo, log);
    assert(log[n] == log.last());
    lemma_split(log, Entry::Detached(id));
    if c == n {
        assert(log.take(c) =~= rest);
        law_alive_iff_present(fifo, rest, id);
        if rest.contains(Entry::Detached(id)) {
            let i = rest.index_of(Entry::Detached(id));
            lemma_prefix(fifo, rest, i);
            lemma_monotone(fifo, rest, i);
        }
    } else {
        assert(rest[c] == log[c]);
        assert(rest.take(c) =~= log.take(c));
        law_left_by_the_drop(fifo, rest, c, id);
        lemma_closed_entry(fifo, rest);
        assert(rest.contains(Entry::Closed));
        if let Entry::Detached(x) = log.last() {
            let now = run(fifo, log).order;
            assert(m.order.contains(x));
            if m.order.contains(id) && id != x {
                assert(now[m.order.index_of(id) - 1] == id);
            }
            if now.contains(id) {
                assert(m.order[now.index_of(id) + 1] == id);
            }
        }
    }
}

/// While no call is in progress, those in the list are those whose guards are there.
pub proof fn law_listed_when_idle<C, H>(fifo: bool, log: Seq<Entry<C, H>>)
    requires
        valid(fifo, log),
        !log.contains(Entry::Closed),
        forall|id: u64| calls(log, id) == 0,
    ensures
        run(fifo, log).order.len() == count(log, |e: Entry<C, H>| e is Registered) - count(
            log,
            |e: Entry<C, H>| e is Cancelled,
        ),
{
    let m = run(fifo, log);
    let held = Set::new(|id: u64| m.held(id));
    lemma_inv(fifo, log);
    law_guards_counted(fifo, log);
    assert(m.order.no_duplicates());
    m.order.unique_seq_to_set();
    assert forall|id: u64| #[trigger] m.order.to_set().contains(id) == held.contains(id) by {
        assert(calls(log, id) == 0);
        law_alive_iff_present(fifo, log, id);
    }
    assert(m.order.to_set() =~= held);
}

/// The drop of a registry has a node in use from its beginning until it is done with it,
/// whether or not the guard goes meanwhile.
pub proof fn law_used_by_the_drop<C, H>(fifo: bool, log: Seq<Entry<C, H>>, c: int, id: u64)
    requires
        valid(fifo, log),
        0 <= c < log.len(),
        log[c] == Entry::<C, H>::Closed,
    ensures
        run(fifo, log).visits(id) > 0 <==> present(log.take(c), id) && !log.contains(
            Entry::Buried(id),
        ),
    decreases log.len(),
{
    let rest = log.drop_last();
    let n = log.len() - 1;
    lemma_last(fifo, log);
    assert(log[n] == log.last());
    lemma_split(log, Entry::Buried(id));
    if c == n {
        assert(log.take(c) =~= rest);
        law_alive_iff_present(fifo, rest, id);
        if rest.contains(Entry::Buried(id)) {
            let i = rest.index_of(Entry::Buried(id));
            lemma_prefix(fifo, rest, i);
            lemma_monotone(fifo, rest, i);
        }
    } else {
        assert(rest[c] == log[c]);
        assert(rest.take(c) =~= log.take(c));
        law_used_by_the_drop(fifo, rest, c, id);
        lemma_closed_entry(fifo, rest);
        assert(rest.contains(Entry::Closed));
    }
}

} // verus!
