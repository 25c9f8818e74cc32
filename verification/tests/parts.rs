use intrusive_listeners::chain::Chain;
use intrusive_listeners::event::{ByRef, ByVal, EventFamily};
use intrusive_listeners::local::{Listener, Registry};
use intrusive_listeners::locked::{No, Sealable, Yes};
use intrusive_listeners::order::{Order, FIFO, LIFO};
use intrusive_listeners::rc;
use intrusive_listeners::roster::{Cancel, Roster};
use intrusive_listeners::state::State;
use std::cell::Cell;
use std::rc::Rc;

fn walk<O: Order>(chain: &Chain<O>) -> Vec<u64> {
    let mut nodes = Vec::new();
    let mut cursor = chain.first();
    while let Some(id) = cursor {
        nodes.push(id);
        cursor = chain.next(id);
    }
    nodes
}

#[test]
fn chain_keeps_its_links() {
    let mut fifo = Chain::<FIFO>::new();
    let mut lifo = Chain::<LIFO>::new();
    assert!(fifo.is_empty() && lifo.is_empty());
    for id in 0..4 {
        fifo.enqueue(id);
        lifo.enqueue(id);
    }
    assert_eq!(walk(&fifo), [0, 1, 2, 3]);
    assert_eq!(walk(&lifo), [3, 2, 1, 0]);
    assert!(!fifo.unlink(3));
    assert!(!fifo.unlink(1));
    fifo.enqueue(4);
    assert_eq!(walk(&fifo), [0, 2, 4]);
    assert!(!lifo.unlink(3));
    assert!(!lifo.unlink(0));
    assert!(!lifo.unlink(2));
    assert_eq!(walk(&lifo), [1]);
    assert!(lifo.unlink(1));
    assert!(lifo.is_empty());
    assert!(lifo.state(1).is_some());
    lifo.free(1);
    assert!(lifo.state(1).is_none());
}

#[test]
fn state_words_count_and_mark() {
    let state = State::live();
    assert!(state.is_alive() && !state.is_cancelled() && !state.is_visited() && !state.is_due());
    let twice = state.begin_visit().begin_visit();
    let marked = twice.cancel();
    assert!(marked.is_alive() && marked.is_cancelled() && marked.is_visited() && !marked.is_due());
    let once = marked.end_visit();
    assert!(once.is_visited() && !once.is_due());
    assert!(once.end_visit().is_due());
    assert!(!State::doomed().is_alive() && State::doomed().is_visited());
    assert!(!State::dead().is_alive() && !State::dead().is_visited() && !State::dead().is_due());
}

#[test]
fn tails_are_kept_only_where_needed() {
    assert!(FIFO::fifo() && !LIFO::fifo());
    assert_eq!(FIFO::from_tail(FIFO::into_tail(Some(5))), Some(5));
    assert_eq!(FIFO::from_tail(FIFO::into_tail(None)), None);
    LIFO::into_tail(Some(5));
}

#[test]
fn gates_open_unless_sealed() {
    assert!(!No::value() && Yes::value());
    assert_eq!(No::gate_register(No::unsealed(), || 3), Some(3));
    assert_eq!(Yes::gate_register(Yes::unsealed(), || 3), Some(3));
    let ran = Cell::new(false);
    assert_eq!(Yes::gate_register(true, || ran.set(true)), None);
    assert!(!ran.get());
}

#[test]
fn roster_sweeps_past_the_cancelled() {
    let mut roster = Roster::<(), char, FIFO>::new();
    for listener in ['a', 'b', 'c'] {
        roster.register(listener);
    }
    assert_eq!(roster.registered(), 3);
    assert!(matches!(roster.cancel(1), Cancel::Removed { listener: 'b', emptied: false }));
    assert!(!roster.holds(1) && !roster.is_alive(1));
    let mut sweep = roster.begin();
    assert_eq!(roster.advance(&mut sweep), Some(0));
    assert_eq!(roster.listener(0), Some(&'a'));
    assert!(!roster.in_use(0));
    roster.close();
    assert_eq!(roster.detach(), Some((0, 'a')));
    assert!(roster.in_use(0) && roster.listener(0).is_none());
    assert!(matches!(roster.cancel(2), Cancel::Deferred));
    roster.bury(0);
    assert_eq!(roster.detach(), Some((2, 'c')));
    roster.bury(2);
    assert_eq!(roster.detach(), None);
    assert!(matches!(roster.cancel(0), Cancel::Freed));
    assert!(!roster.is_open());
}

struct Borrower {
    longest: Rc<Cell<usize>>,
}

impl Listener<ByRef<String>, ()> for Borrower {
    fn accept(&self, event: &String, _: &mut Registry<ByRef<String>, Borrower, (), LIFO>) {
        self.longest.set(self.longest.get().max(event.len()));
    }

    fn destruct(_: Rc<Self>, _: &mut Registry<ByRef<String>, Borrower, (), LIFO>) {}
}

#[test]
fn events_by_reference() {
    let longest = Rc::new(Cell::new(0));
    let mut reg = Registry::<ByRef<String>, Borrower, (), LIFO>::default();
    let _guard = reg.register(Borrower { longest: longest.clone() });
    let text = String::from("seven!!");
    reg.broadcast(&text);
    reg.broadcast(&String::from("four"));
    assert_eq!(longest.get(), 7);
}

struct Span;

impl EventFamily for Span {
    type Event<'a> = (&'a str, usize);
    type Content = (String, usize);
}

struct Reader {
    seen: Rc<Cell<usize>>,
}

impl Listener<Span, ()> for Reader {
    fn accept<'a>(&self, event: (&'a str, usize), _: &mut Registry<Span, Reader, (), LIFO>) {
        self.seen.set(self.seen.get() + event.0.len() * event.1);
    }

    fn destruct(_: Rc<Self>, _: &mut Registry<Span, Reader, (), LIFO>) {}
}

#[test]
fn events_that_borrow_from_the_sender() {
    let seen = Rc::new(Cell::new(0));
    let mut reg = Registry::<Span, Reader, (), LIFO>::default();
    let _a = reg.register(Reader { seen: seen.clone() });
    let _b = reg.register(Reader { seen: seen.clone() });
    let text = String::from("abc");
    reg.broadcast((&text[1..], 10));
    assert_eq!(seen.get(), 40);
}

#[test]
fn families_are_made_by_default() {
    let _by_val: ByVal<u32> = ByVal::default();
    let _by_ref: ByRef<u32> = ByRef::default();
}

struct Named(&'static str);

impl rc::Handler<u32> for Named {
    fn handle(&self, _: &u32) {}
}

#[test]
fn rc_guard_takes_its_handler_out() {
    let mut reg = rc::Registry::<u32, Named>::new();
    let a = reg.register(Named("a"));
    let b = reg.register(Named("b"));
    let c = reg.register(Named("c"));
    assert_eq!(reg.registered(), 3);
    assert_eq!(reg.cancel(b).map(|h| h.0), Some("b"));
    assert_eq!(reg.cancel(c).map(|h| h.0), Some("c"));
    assert_eq!(reg.resume_drop().map(|h| h.0), Some("a"));
    assert!(reg.resume_drop().is_none());
    assert!(reg.cancel(a).is_none());
}

#[test]
fn rc_registry_goes_with_its_handlers_latest_first() {
    let mut reg = rc::Registry::<u32, Named>::new();
    let guards = ["a", "b", "c"].map(|name| reg.register(Named(name)));
    let order: Vec<_> = std::iter::from_fn(|| reg.resume_drop()).map(|h| h.0).collect();
    assert_eq!(order, ["c", "b", "a"]);
    for guard in guards {
        assert!(reg.cancel(guard).is_none());
    }
}

#[test]
fn rc_guard_dropped_by_a_destructor_takes_its_handler_out() {
    let mut reg = rc::Registry::<u32, Named>::new();
    let [a, b, c, d] = ["a", "b", "c", "d"].map(|name| reg.register(Named(name)));
    assert_eq!(reg.resume_drop().map(|h| h.0), Some("d"));
    // What the destructor of the first one does: its own guard is of no use any more, and one
    // further down the list takes its handler out ahead of the one between.
    assert!(reg.cancel(d).is_none());
    assert_eq!(reg.cancel(b).map(|h| h.0), Some("b"));
    assert_eq!(reg.resume_drop().map(|h| h.0), Some("c"));
    assert!(reg.cancel(c).is_none());
    assert_eq!(reg.resume_drop().map(|h| h.0), Some("a"));
    assert!(reg.resume_drop().is_none());
    assert!(reg.cancel(a).is_none());
}
