//! Registries of event listeners that tolerate any use while they are at work.
//!
//! A registry holds a list of listeners. Registering one returns a guard, which unregisters
//! its listener when it is dropped, without searching the list. A guard may outlive its
//! registry, in which case dropping it does nothing. [`local`] is for a single thread,
//! [`locked`] for threads that share a registry under a lock; [`rc`] only keeps handlers.
//!
//! # What happens when
//!
//! - A listener that is cancelled during a call of it runs that call to its end, and is
//!   destructed afterwards.
//! - A cancelled listener further down the list does not receive the event in flight.
//! - A broadcast made during a call of a listener is complete when it returns.
//! - Listeners registered during a broadcast do not receive its event when the last in is
//!   the first out ([`LIFO`](order::LIFO)), and do otherwise ([`FIFO`](order::FIFO)).
//! - A destructor may register, broadcast to and cancel any listener.
//! - A policy is told when cancelling the last listener leaves the registry empty. A shared
//!   registry that was found empty can be sealed, and then stays empty.
//!
//! # How it is stated
//!
//! A registry keeps, for proofs only, a log of all that happened to it. [`history`] says
//! what a registry is after a log, and which logs can come about. The functions of the
//! registries say exactly what they add to the log; where one of [`local`] calls others in
//! between, [`course`] says when, and [`frames`] what follows from that. [`laws`] and
//! [`rounds`] hold what follows for all logs, whatever listeners, policies, guards and other
//! threads do in between; [`facts`] reads off the log alone what a registry is. [`effects`]
//! and [`sharing`] say in these terms what each operation comes to for those who use it, the
//! one for a single thread, the other for threads that share a registry.
//!
//! [`chain`] is the linked list of nodes, [`state`] the word that each node keeps, and
//! [`roster`] the steps that all registries are made of. [`pointer`] is how a guard points to
//! its listener, and [`next`] the wait of a task for the next event.
pub mod chain;
pub mod course;
pub mod effects;
pub mod event;
pub mod facts;
pub mod frames;
pub mod history;
pub mod laws;
pub mod load;
pub mod local;
pub mod locked;
pub mod next;
pub mod order;
pub mod places;
pub mod pointer;
mod private;
pub mod rc;
pub mod roster;
pub mod rounds;
pub mod sharing;
pub mod state;
pub mod sweeping;
