//! The state word of a node: three facts packed into one machine word.
use vstd::prelude::*;

verus! {

/// Set from registration until the listener is about to be destructed.
pub const ALIVE: usize = 1;

/// Set when the guard goes while the node is in use.
pub const RECURSIVE_CANCEL: usize = 2;

/// Added once for every use of the node that is in progress.
pub const RECURSIVE_VISIT: usize = 4;

/// What a state word says.
pub struct Slot {
    /// The listener is neither destructed nor about to be.
    pub alive: bool,
    /// The guard is gone and the node waits for its uses to end.
    pub cancelled: bool,
    /// How many uses of the node are in progress.
    pub visits: nat,
}

/// The largest number of uses that a state word can count.
pub open spec fn max_visits() -> nat {
    (usize::MAX / 4) as nat
}

/// The state word of a node.
#[derive(Clone, Copy)]
pub struct State {
    bits: usize,
}

impl View for State {
    type V = Slot;

    closed spec fn view(&self) -> Slot {
        Slot {
            alive: self.bits % 2 == 1,
            cancelled: (self.bits / 2) % 2 == 1,
            visits: (self.bits / 4) as nat,
        }
    }
}

impl State {
    /// A freshly registered node.
    pub fn live() -> (state: Self)
        ensures
            state@ == (Slot { alive: true, cancelled: false, visits: 0 }),
    {
        State { bits: ALIVE }
    }

    /// A node whose registry is being dropped: in use, and no longer alive.
    pub fn doomed() -> (state: Self)
        ensures
            state@ == (Slot { alive: false, cancelled: false, visits: 1 }),
    {
        State { bits: RECURSIVE_VISIT }
    }

    /// A node whose listener is destructed and whose guard is still there.
    pub fn dead() -> (state: Self)
        ensures
            state@ == (Slot { alive: false, cancelled: false, visits: 0 }),
    {
        State { bits: 0 }
    }

    /// Whether the listener is neither destructed nor about to be.
    pub fn is_alive(&self) -> (alive: bool)
        ensures
            alive == self@.alive,
    {
        let s: usize = self.bits;
        assert((s & 1 != 0) == (s % 2 == 1)) by (bit_vector);
        s & ALIVE != 0
    }

    /// Whether the guard went while the node was in use.
    pub fn is_cancelled(&self) -> (cancelled: bool)
        ensures
            cancelled == self@.cancelled,
    {
        let s: usize = self.bits;
        assert((s & 2 != 0) == ((s / 2) % 2 == 1)) by (bit_vector);
        s & RECURSIVE_CANCEL != 0
    }

    /// Whether some use of the node is in progress.
    pub fn is_visited(&self) -> (visited: bool)
        ensures
            visited == (self@.visits > 0),
    {
        let s: usize = self.bits;
        assert((s & !3usize != 0) == (s / 4 > 0)) by (bit_vector);
        s & !(RECURSIVE_VISIT - 1) != 0
    }

    /// Whether the guard is gone and no use is left: the node has to leave the list.
    pub fn is_due(&self) -> (due: bool)
        ensures
            due == (self@.cancelled && self@.visits == 0),
    {
        let s: usize = self.bits;
        assert((s & !1usize == 2) == ((s / 2) % 2 == 1 && s / 4 == 0)) by (bit_vector);
        s & !(RECURSIVE_CANCEL - 1) == RECURSIVE_CANCEL
    }

    /// One more use begins.
    pub fn begin_visit(&self) -> (state: Self)
        requires
            self@.visits < max_visits(),
        ensures
            state@ == (Slot { visits: self@.visits + 1, ..self@ }),
    {
        State { bits: self.bits + RECURSIVE_VISIT }
    }

    /// One use ends.
    pub fn end_visit(&self) -> (state: Self)
        requires
            self@.visits > 0,
        ensures
            state@ == (Slot { visits: (self@.visits - 1) as nat, ..self@ }),
    {
        State { bits: self.bits - RECURSIVE_VISIT }
    }

    /// The guard goes while the node is in use.
    pub fn cancel(&self) -> (state: Self)
        ensures
            state@ == (Slot { cancelled: true, ..self@ }),
    {
        let s: usize = self.bits;
        assert((s | 2) % 2 == s % 2 && ((s | 2) / 2) % 2 == 1 && (s | 2) / 4 == s / 4)
            by (bit_vector);
        State { bits: s | RECURSIVE_CANCEL }
    }
}

/// What a new node, one whose registry is being dropped and one that is done with answer.
pub proof fn law_first_states(
    live: State,
    doomed: State,
    done: State,
    dead: State,
    state: State,
    alive: bool,
    cancelled: bool,
    visited: bool,
)
    requires
        call_ensures(State::live, (), live),
        call_ensures(State::doomed, (), doomed),
        call_ensures(State::end_visit, (&doomed,), done),
        call_ensures(State::dead, (), dead),
        state == live || state == doomed || state == done || state == dead,
        call_ensures(State::is_alive, (&state,), alive),
        call_ensures(State::is_cancelled, (&state,), cancelled),
        call_ensures(State::is_visited, (&state,), visited),
    ensures
        state == live ==> alive && !visited,
        state == doomed ==> !alive && visited,
        state == done || state == dead ==> !alive && !visited,
        !cancelled,
{
}

/// A use that begins and ends leaves a node as it was; in between the node is in use. It
/// changes neither whether the listener is alive nor whether the guard went.
pub proof fn law_visit_comes_and_goes(
    state: State,
    begun: State,
    ended: State,
    visited: bool,
    alive: (bool, bool),
    cancelled: (bool, bool),
)
    requires
        call_ensures(State::begin_visit, (&state,), begun),
        call_ensures(State::end_visit, (&begun,), ended),
        call_ensures(State::is_visited, (&begun,), visited),
        call_ensures(State::is_alive, (&state,), alive.0),
        call_ensures(State::is_alive, (&begun,), alive.1),
        call_ensures(State::is_cancelled, (&state,), cancelled.0),
        call_ensures(State::is_cancelled, (&begun,), cancelled.1),
    ensures
        visited,
        ended@ == state@,
        alive.0 == alive.1,
        cancelled.0 == cancelled.1,
{
}

/// A guard that goes marks the node and changes nothing else. The node has to leave the list
/// exactly if its guard went and no use of it is left.
pub proof fn law_mark_stays(
    state: State,
    marked: State,
    cancelled: (bool, bool),
    alive: (bool, bool),
    visited: (bool, bool),
    due: bool,
)
    requires
        call_ensures(State::cancel, (&state,), marked),
        call_ensures(State::is_cancelled, (&state,), cancelled.0),
        call_ensures(State::is_cancelled, (&marked,), cancelled.1),
        call_ensures(State::is_alive, (&state,), alive.0),
        call_ensures(State::is_alive, (&marked,), alive.1),
        call_ensures(State::is_visited, (&state,), visited.0),
        call_ensures(State::is_visited, (&marked,), visited.1),
        call_ensures(State::is_due, (&state,), due),
    ensures
        cancelled.1,
        alive.0 == alive.1,
        visited.0 == visited.1,
        marked@.visits == state@.visits,
        due <==> cancelled.0 && !visited.0,
{
}

} // verus!
