//! How many calls of listeners are in progress, over a whole list.
use crate::state::Slot;
use vstd::prelude::*;

verus! {

/// The uses in progress of all nodes of a list.
pub open spec fn load(order: Seq<u64>, slots: Map<u64, Slot>) -> nat
    decreases order.len(),
{
    if order.len() == 0 {
        0
    } else {
        load(order.drop_last(), slots) + slots[order.last()].visits
    }
}

/// Only the uses of listed nodes matter.
pub proof fn lemma_load_frame(order: Seq<u64>, a: Map<u64, Slot>, b: Map<u64, Slot>)
    requires
        forall|i: int|
            0 <= i < order.len() ==> a[#[trigger] order[i]].visits == b[order[i]].visits,
    ensures
        load(order, a) == load(order, b),
    decreases order.len(),
{
    if order.len() > 0 {
        let rest = order.drop_last();
        assert(order[order.len() - 1] == order.last());
        assert forall|i: int| 0 <= i < rest.len() implies a[#[trigger] rest[i]].visits
            == b[rest[i]].visits by {
            assert(rest[i] == order[i]);
        }
        lemma_load_frame(rest, a, b);
    }
}

/// One node out of the list takes its uses with it.
pub proof fn lemma_load_remove(order: Seq<u64>, slots: Map<u64, Slot>, k: int)
    requires
        0 <= k < order.len(),
    ensures
        load(order, slots) == load(order.remove(k), slots) + slots[order[k]].visits,
    decreases order.len(),
{
    let rest = order.drop_last();
    if k == order.len() - 1 {
        assert(order.remove(k) =~= rest);
    } else {
        lemma_load_remove(rest, slots, k);
        assert(order.remove(k).drop_last() =~= rest.remove(k));
        assert(order.remove(k).last() == order.last());
    }
}

/// A node in the front, or at the end, adds its uses.
pub proof fn lemma_load_add(order: Seq<u64>, slots: Map<u64, Slot>, id: u64)
    ensures
        load(order.push(id), slots) == load(order, slots) + slots[id].visits,
        load(seq![id] + order, slots) == load(order, slots) + slots[id].visits,
{
    assert(order.push(id).drop_last() =~= order);
    let front = seq![id] + order;
    lemma_load_remove(front, slots, 0);
    assert(front.remove(0) =~= order);
}

/// No node has more uses than all together.
pub proof fn lemma_load_member(order: Seq<u64>, slots: Map<u64, Slot>, id: u64)
    requires
        order.contains(id),
    ensures
        slots[id].visits <= load(order, slots),
{
    lemma_load_remove(order, slots, order.index_of(id));
}

/// Changing the uses of one listed node changes the whole by as much.
pub proof fn lemma_load_update(order: Seq<u64>, slots: Map<u64, Slot>, id: u64, slot: Slot)
    requires
        order.no_duplicates(),
        order.contains(id),
    ensures
        load(order, slots.insert(id, slot)) == load(order, slots) - slots[id].visits
            + slot.visits,
{
    let k = order.index_of(id);
    let rest = order.remove(k);
    let changed = slots.insert(id, slot);
    lemma_load_remove(order, slots, k);
    lemma_load_remove(order, changed, k);
    assert forall|i: int| 0 <= i < rest.len() implies slots[#[trigger] rest[i]].visits
        == changed[rest[i]].visits by {
        let o = if i < k { i } else { i + 1 };
        assert(rest[i] == order[o]);
        assert(order[o] != order[k]);
    }
    lemma_load_frame(rest, slots, changed);
}

} // verus!
