use intrusive_listeners::event::ByVal;
use intrusive_listeners::local::{Guard, Listener, Policy, Registry};
use intrusive_listeners::order::{Order, FIFO, LIFO};
use std::array;
use std::cell::{Cell, OnceCell, RefCell};
use std::rc::Rc;

type Reg<P, O> = Registry<ByVal<u32>, Probe<P, O>, P, O>;
type Slot = Rc<Cell<Option<Guard>>>;

/// A listener made of what it does when it is called and when it is destructed.
struct Probe<P, O: Order> {
    accept: Box<dyn Fn(u32, &mut Reg<P, O>)>,
    destruct: Box<dyn Fn(&mut Reg<P, O>)>,
}

impl<P: Policy<ByVal<u32>, Probe<P, O>, Order = O>, O: Order> Listener<ByVal<u32>, P> for Probe<P, O> {
    fn accept(&self, event: u32, registry: &mut Reg<P, O>) {
        (self.accept)(event, registry)
    }

    fn destruct(listener: Rc<Self>, registry: &mut Reg<P, O>) {
        (listener.destruct)(registry)
    }
}

fn calling<P, O: Order>(accept: impl Fn(u32, &mut Reg<P, O>) + 'static) -> Probe<P, O> {
    Probe { accept: Box::new(accept), destruct: Box::new(|_| ()) }
}

fn destructing<P, O: Order>(destruct: impl Fn(&mut Reg<P, O>) + 'static) -> Probe<P, O> {
    Probe { accept: Box::new(|_, _| ()), destruct: Box::new(destruct) }
}

fn idle<P, O: Order>() -> Probe<P, O> {
    calling(|_, _| ())
}

fn bump(cell: &Cell<u32>) {
    cell.set(cell.get() + 1);
}

fn drop_in<P: Policy<ByVal<u32>, Probe<P, O>, Order = O>, O: Order>(slot: &Cell<Option<Guard>>, registry: &mut Reg<P, O>) {
    if let Some(guard) = slot.take() {
        guard.cancel(registry);
    }
}

#[derive(Default)]
struct State {
    accept_count: Cell<u32>,
    drop_count: Cell<u32>,
    sum: Cell<u32>,
}

fn capturer<P, O: Order>(state: &Rc<State>) -> Probe<P, O> {
    let (called, destructed) = (state.clone(), state.clone());
    Probe {
        accept: Box::new(move |event, _| {
            bump(&called.accept_count);
            called.sum.set(called.sum.get() + event);
        }),
        destruct: Box::new(move |_| bump(&destructed.drop_count)),
    }
}

struct CounterPolicy(Rc<Cell<u32>>);

impl<L> Policy<ByVal<u32>, L> for CounterPolicy {
    type Order = LIFO;

    fn last_listener_cancelled(registry: &mut Registry<ByVal<u32>, L, Self, LIFO>) {
        bump(&registry.policy.0);
    }
}

struct FifoPolicy;

impl<L> Policy<ByVal<u32>, L> for FifoPolicy {
    type Order = FIFO;

    fn last_listener_cancelled(_: &mut Registry<ByVal<u32>, L, Self, FIFO>) {}
}

type Plain = Reg<(), LIFO>;
type Fifo = Reg<FifoPolicy, FIFO>;

#[test]
fn guard_drop_notifies_policy() {
    let ctr = Rc::new(Cell::new(0u32));
    let mut reg = Reg::<CounterPolicy, LIFO>::new(CounterPolicy(ctr.clone()));
    let a = reg.register(idle());
    let b = reg.register(idle());
    a.cancel(&mut reg);
    assert_eq!(ctr.get(), 0);
    b.cancel(&mut reg);
    assert_eq!(ctr.get(), 1);
    let c = reg.register(idle());
    c.cancel(&mut reg);
    assert_eq!(ctr.get(), 2);
}

#[test]
fn self_cancel_notifies_policy() {
    let ctr = Rc::new(Cell::new(0u32));
    let mut reg = Reg::<CounterPolicy, LIFO>::new(CounterPolicy(ctr.clone()));
    let guard = Slot::default();
    let me = guard.clone();
    guard.set(Some(reg.register(calling(move |_, reg| drop_in(&me, reg)))));
    reg.broadcast(0);
    assert_eq!(ctr.get(), 1);
}

struct Observer {
    empty_observed: Rc<Cell<bool>>,
}

impl<L> Policy<ByVal<u32>, L> for Observer {
    type Order = LIFO;

    fn last_listener_cancelled(registry: &mut Registry<ByVal<u32>, L, Self, LIFO>) {
        registry.policy.empty_observed.set(registry.is_empty());
    }
}

#[test]
fn policy_observes_empty_before_destructor_reregisters() {
    let empty_observed = Rc::new(Cell::new(false));
    let mut reg = Reg::<Observer, LIFO>::new(Observer { empty_observed: empty_observed.clone() });
    let child = Slot::default();
    let guard = {
        let child = child.clone();
        reg.register(destructing(move |reg: &mut Reg<Observer, LIFO>| {
            child.set(Some(reg.register(idle())));
        }))
    };
    guard.cancel(&mut reg);
    assert_eq!(empty_observed.get(), true);
    assert!(!reg.is_empty());
    empty_observed.set(false);
    drop_in(&child, &mut reg);
    assert_eq!(empty_observed.get(), true);
    assert!(reg.is_empty());
}

#[test]
fn is_empty() {
    let mut reg = Plain::default();
    assert!(reg.is_empty());
    let a = reg.register(capturer(&Rc::default()));
    assert!(!reg.is_empty());
    let b = reg.register(capturer(&Rc::default()));
    a.cancel(&mut reg);
    assert!(!reg.is_empty());
    b.cancel(&mut reg);
    assert!(reg.is_empty());
}

#[test]
fn local_normal_path() {
    let mut reg = Plain::default();
    let states = <[Rc<State>; 3]>::default();
    let _guards = states.each_ref().map(|x| reg.register(capturer(x)));
    reg.broadcast(3);
    reg.broadcast(4);
    assert_eq!(states.each_ref().map(|x| x.accept_count.get()), [2, 2, 2]);
    assert_eq!(states.each_ref().map(|x| x.sum.get()), [7, 7, 7]);
}

#[test]
fn local_registry_dropped_early() {
    let state = Rc::<State>::default();
    let mut reg = Plain::default();
    let guards: [_; 2] = array::from_fn(|_| reg.register(capturer(&state)));
    reg.close();
    assert_eq!(state.drop_count.get(), 2);
    for guard in guards {
        guard.cancel(&mut reg);
    }
    assert_eq!(state.drop_count.get(), 2);
}

#[test]
fn local_registry_dropped_late() {
    let state = Rc::<State>::default();
    let mut reg = Plain::default();
    let guards: [_; 3] = array::from_fn(|_| reg.register(capturer(&state)));
    for guard in guards {
        guard.cancel(&mut reg);
    }
    assert_eq!(state.drop_count.get(), 3);
}

#[test]
fn local_cancel_internal() {
    let state = Rc::<State>::default();
    let mut reg = Plain::default();
    let [_a, b, _c] = array::from_fn(|_| reg.register(capturer(&state)));
    b.cancel(&mut reg);
    assert_eq!(state.drop_count.get(), 1);
    reg.broadcast(5);
    assert_eq!(state.sum.get(), 10);
}

#[test]
fn local_register_inside_callback() {
    let mut reg = Plain::default();
    let state = Rc::<State>::default();
    let _g = reg.register({
        let (state, child) = (state.clone(), OnceCell::new());
        calling(move |_, reg: &mut Plain| {
            child.get_or_init(|| reg.register(capturer(&state)));
        })
    });
    reg.broadcast(0);
    assert_eq!(state.accept_count.get(), 0);
    reg.broadcast(0);
    assert_eq!(state.accept_count.get(), 1);
}

#[test]
fn local_self_cancel() {
    let mut reg = Plain::default();
    let state = Rc::<State>::default();
    let guard = Slot::default();
    guard.set(Some(reg.register({
        let (state, me) = (state.clone(), guard.clone());
        calling(move |_, reg: &mut Plain| {
            drop_in(&me, reg);
            // Access listener state after self-cancel.
            bump(&state.accept_count);
        })
    })));
    reg.broadcast(0);
    assert_eq!(state.accept_count.get(), 1);
    reg.broadcast(0);
    assert_eq!(state.accept_count.get(), 1);
}

#[test]
fn local_cancel_in_flight() {
    let mut reg = Plain::default();
    let state = Rc::<State>::default();
    let victim = Cell::new(Some(reg.register(capturer(&state))));
    let _g = reg.register(calling(move |_, reg| drop_in(&victim, reg)));
    reg.broadcast(0);
    assert_eq!(state.accept_count.get(), 0);
    assert_eq!(state.drop_count.get(), 1);
    reg.broadcast(0);
    assert_eq!(state.accept_count.get(), 0);
}

#[test]
fn local_destructor_cancel_in_flight() {
    let mut reg = Plain::default();
    let state = Rc::<State>::default();
    let a: Slot = Rc::new(Cell::new(Some(reg.register(capturer(&state)))));
    let b = Slot::default();
    let (me, victim) = (b.clone(), a.clone());
    b.set(Some(reg.register(Probe {
        accept: Box::new(move |_, reg| drop_in(&me, reg)),
        destruct: Box::new(move |reg| drop_in(&victim, reg)),
    })));
    reg.broadcast(7);
    assert_eq!(state.accept_count.get(), 1);
    assert_eq!(state.sum.get(), 7);
    assert_eq!(state.drop_count.get(), 1);
}

#[test]
fn local_cancel_other_in_registry_destructor() {
    let state = Rc::<State>::default();
    let a = Slot::default();
    let mut reg = Plain::default();
    a.set(Some(reg.register(capturer(&state))));
    let victim = a.clone();
    let b = reg.register(destructing(move |reg| drop_in(&victim, reg)));
    reg.close();
    assert_eq!(state.drop_count.get(), 1);
    assert!(a.take().is_none());
    b.cancel(&mut reg);
    assert_eq!(state.drop_count.get(), 1);
}

#[test]
fn local_cancel_self_in_registry_destructor() {
    let state = Rc::<State>::default();
    let me = Slot::default();
    let mut reg = Plain::default();
    me.set(Some(reg.register({
        let (me, state) = (me.clone(), state.clone());
        destructing(move |reg: &mut Plain| {
            drop_in(&me, reg);
            // Access listener state after self-cancel.
            bump(&state.drop_count);
        })
    })));
    reg.close();
    assert_eq!(state.drop_count.get(), 1);
    assert!(me.take().is_none());
}

#[test]
fn self_cancel_then_nested_broadcast_lifo() {
    self_cancel_then_nested_broadcast::<(), LIFO>(());
}

#[test]
fn self_cancel_then_nested_broadcast_fifo() {
    self_cancel_then_nested_broadcast::<FifoPolicy, FIFO>(FifoPolicy);
}

fn self_cancel_then_nested_broadcast<P: Policy<ByVal<u32>, Probe<P, O>, Order = O> + 'static, O: Order + 'static>(policy: P) {
    let mut reg = Reg::<P, O>::new(policy);
    let state = Rc::<State>::default();
    let guard = Slot::default();
    guard.set(Some(reg.register({
        let (state, me) = (state.clone(), guard.clone());
        calling(move |depth, reg: &mut Reg<P, O>| {
            bump(&state.accept_count);
            if depth == 0 {
                drop_in(&me, reg);
                reg.broadcast(1);
            }
        })
    })));
    reg.broadcast(0);
    assert_eq!(state.accept_count.get(), 1);
    reg.broadcast(0);
    assert_eq!(state.accept_count.get(), 1);
}

#[test]
fn local_nested_broadcast_is_safe() {
    let mut reg = Plain::default();
    let state = Rc::<State>::default();
    let _g = reg.register({
        let (state, depth) = (state.clone(), Cell::new(0u32));
        calling(move |event, reg: &mut Plain| {
            bump(&state.accept_count);
            if depth.replace(depth.get() + 1) < 2 {
                reg.broadcast(event);
            }
        })
    });
    reg.broadcast(0);
    assert_eq!(state.accept_count.get(), 3);
}

#[test]
fn local_lifo_broadcast() {
    let mut reg = Plain::default();
    let order = Rc::new(RefCell::new(Vec::new()));
    let _g: [_; 3] = array::from_fn(|i| {
        let order = order.clone();
        reg.register(calling(move |_, _| order.borrow_mut().push(i)))
    });
    reg.broadcast(0);
    assert_eq!(*order.borrow(), [2, 1, 0]);
}

#[test]
fn local_fifo_broadcast() {
    let mut reg = Fifo::new(FifoPolicy);
    let order = Rc::new(RefCell::new(Vec::new()));
    let guards: [_; 5] = array::from_fn(|i| {
        let order = order.clone();
        Cell::new(Some(reg.register(calling(move |_, _| order.borrow_mut().push(i)))))
    });
    drop_in(&guards[2], &mut reg);
    reg.broadcast(0);
    assert_eq!(*order.borrow(), [0, 1, 3, 4]);
    drop_in(&guards[4], &mut reg);
    drop_in(&guards[0], &mut reg);
    let _g = reg.register({
        let order = order.clone();
        calling(move |_, _| order.borrow_mut().push(9))
    });
    order.borrow_mut().clear();
    reg.broadcast(0);
    assert_eq!(*order.borrow(), [1, 3, 9]);
}

#[test]
fn fifo_reentrant_register_receives_inflight() {
    let mut reg = Fifo::new(FifoPolicy);
    let state = Rc::<State>::default();
    let _g = reg.register({
        let (state, child) = (state.clone(), OnceCell::new());
        calling(move |_, reg: &mut Fifo| {
            child.get_or_init(|| reg.register(capturer(&state)));
        })
    });
    reg.broadcast(0);
    assert_eq!(state.accept_count.get(), 1);
    reg.broadcast(0);
    assert_eq!(state.accept_count.get(), 2);
}

struct Capturer(Rc<State>);

type Captured = Registry<ByVal<u32>, Capturer, (), LIFO>;

impl Listener<ByVal<u32>, ()> for Capturer {
    fn accept(&self, event: u32, _: &mut Captured) {
        bump(&self.0.accept_count);
        self.0.sum.set(self.0.sum.get() + event);
    }

    fn destruct(listener: Rc<Self>, _: &mut Captured) {
        bump(&listener.0.drop_count);
    }
}

#[test]
fn raw_ptr_access() {
    let state = Rc::<State>::default();
    let mut reg = Captured::default();
    let guard = reg.register(Capturer(state.clone()));
    assert!(guard.is_alive(&reg));
    reg.listener_at(guard.as_ptr()).unwrap().accept(11, &mut reg);
    assert_eq!(state.sum.get(), 11);
    let listener = reg.listener_at(guard.as_ptr()).unwrap();
    assert_eq!(listener.0.accept_count.get(), 1);
    drop(listener);
    reg.broadcast(22);
    assert_eq!(state.sum.get(), 33);
    let state = Rc::<State>::default();
    let mut reg = Captured::default();
    let guard = reg.register(Capturer(state.clone()));
    reg.close();
    assert_eq!(state.drop_count.get(), 1);
    assert!(!guard.is_alive(&reg));
}

#[test]
fn a_pointer_outlives_its_listener() {
    let states = <[Rc<State>; 2]>::default();
    let mut reg = Captured::default();
    let guards = states.each_ref().map(|state| reg.register(Capturer(state.clone())));
    let ptrs = guards.each_ref().map(|guard| guard.as_ptr());
    for (state, ptr) in states.iter().zip(ptrs) {
        assert!(Rc::ptr_eq(&reg.listener_at(ptr).unwrap().0, state));
    }
    reg.close();
    for (guard, ptr) in guards.iter().zip(ptrs) {
        assert!(reg.holds(guard));
        assert!(reg.listener_at(ptr).is_none());
    }
}

#[test]
fn a_policy_can_be_read_and_replaced() {
    struct Named(&'static str);

    impl Policy<ByVal<u32>, Nothing> for Named {
        type Order = LIFO;

        fn last_listener_cancelled(registry: &mut Registry<ByVal<u32>, Nothing, Self, LIFO>) {
            let was = registry.replace_policy(Named("told"));
            assert_eq!(was.0, "second");
        }
    }

    struct Nothing;

    impl Listener<ByVal<u32>, Named> for Nothing {
        fn accept(&self, _: u32, _: &mut Registry<ByVal<u32>, Self, Named, LIFO>) {}

        fn destruct(_: Rc<Self>, _: &mut Registry<ByVal<u32>, Self, Named, LIFO>) {}
    }

    let mut reg = Registry::<ByVal<u32>, Nothing, Named, LIFO>::new(Named("first"));
    assert_eq!(reg.policy_ref().0, "first");
    assert_eq!(reg.replace_policy(Named("second")).0, "first");
    let guard = reg.register(Nothing);
    assert_eq!(reg.policy_ref().0, "second");
    guard.cancel(&mut reg);
    assert_eq!(reg.policy_ref().0, "told");
}

#[test]
fn is_alive_cleared_eagerly() {
    let others: [Slot; 2] = array::from_fn(|_| Slot::default());
    let wrong: [Rc<Cell<bool>>; 2] = array::from_fn(|_| Rc::new(Cell::new(true)));
    let mut reg = Plain::default();
    for i in 0..2 {
        let (other, wrong) = (others[1 - i].clone(), wrong[1 - i].clone());
        others[i].set(Some(reg.register(destructing(move |reg: &mut Plain| {
            let guard = other.take().unwrap();
            wrong.set(guard.is_alive(reg));
            other.set(Some(guard));
        }))));
    }
    reg.close();
    assert!(!wrong[0].get() && !wrong[1].get());
}

#[test]
fn listener_in_use_stays_until_the_outermost_call_returns() {
    let mut reg = Plain::default();
    let state = Rc::<State>::default();
    let guard = Slot::default();
    let alive_inside = Rc::new(Cell::new(false));
    let (me, seen, alive) = (guard.clone(), state.clone(), alive_inside.clone());
    let dropped = state.clone();
    guard.set(Some(reg.register(Probe {
        accept: Box::new(move |depth, reg: &mut Plain| {
            if depth < 2 {
                reg.broadcast(depth + 1);
            } else {
                drop_in(&me, reg);
                alive.set(!reg.is_empty());
            }
            // No call of it has been cut short by its destructor.
            assert_eq!(seen.drop_count.get(), 0);
            bump(&seen.accept_count);
        }),
        destruct: Box::new(move |_| bump(&dropped.drop_count)),
    })));
    reg.broadcast(0);
    assert!(alive_inside.get());
    assert_eq!(state.accept_count.get(), 3);
    assert_eq!(state.drop_count.get(), 1);
    assert!(reg.is_empty());
}

#[test]
fn removed_listeners_are_destructed_last_first_after_the_policy_was_told() {
    let ctr = Rc::new(Cell::new(0u32));
    let mut reg = Reg::<CounterPolicy, LIFO>::new(CounterPolicy(ctr.clone()));
    let order = Rc::new(RefCell::new(Vec::new()));
    for i in 0..3 {
        let slot = Slot::default();
        let (me, order, ctr) = (slot.clone(), order.clone(), ctr.clone());
        slot.set(Some(reg.register(Probe {
            accept: Box::new(move |_, reg| drop_in(&me, reg)),
            destruct: Box::new(move |_| order.borrow_mut().push((i, ctr.get()))),
        })));
    }
    reg.broadcast(0);
    assert_eq!(*order.borrow(), [(0, 1), (1, 1), (2, 1)]);
    assert_eq!(ctr.get(), 1);
}

#[test]
fn closing_destructs_in_list_order_and_tells_no_policy() {
    let ctr = Rc::new(Cell::new(0u32));
    let mut reg = Reg::<CounterPolicy, LIFO>::new(CounterPolicy(ctr.clone()));
    let order = Rc::new(RefCell::new(Vec::new()));
    let guards: [_; 3] = array::from_fn(|i| {
        let order = order.clone();
        reg.register(destructing(move |_| order.borrow_mut().push(i)))
    });
    assert!(reg.is_open());
    reg.close();
    assert!(!reg.is_open() && reg.is_empty());
    assert_eq!(*order.borrow(), [2, 1, 0]);
    for guard in guards {
        assert!(reg.holds(&guard));
        guard.cancel(&mut reg);
    }
    assert_eq!(*order.borrow(), [2, 1, 0]);
    assert_eq!(ctr.get(), 0);
}

struct Closer;

impl<L: Listener<ByVal<u32>, Closer>> Policy<ByVal<u32>, L> for Closer {
    type Order = LIFO;

    fn last_listener_cancelled(registry: &mut Registry<ByVal<u32>, L, Self, LIFO>) {
        registry.close();
    }
}

struct Count(Rc<State>);

impl Listener<ByVal<u32>, Closer> for Count {
    fn accept(&self, _: u32, _: &mut Registry<ByVal<u32>, Count, Closer, LIFO>) {
        bump(&self.0.accept_count);
    }

    fn destruct(listener: Rc<Self>, _: &mut Registry<ByVal<u32>, Count, Closer, LIFO>) {
        bump(&listener.0.drop_count);
    }
}

#[test]
fn policy_may_drop_the_registry() {
    let state = Rc::<State>::default();
    let mut reg = Registry::<ByVal<u32>, Count, Closer, LIFO>::new(Closer);
    let a = reg.register(Count(state.clone()));
    let b = reg.register(Count(state.clone()));
    reg.broadcast(1);
    a.cancel(&mut reg);
    assert!(reg.is_open());
    b.cancel(&mut reg);
    assert!(!reg.is_open());
    assert_eq!(state.accept_count.get(), 2);
    assert_eq!(state.drop_count.get(), 2);
}

#[test]
fn destructor_may_broadcast_and_register() {
    let mut reg = Plain::default();
    let state = Rc::<State>::default();
    let _kept = reg.register(capturer(&state));
    let added = Slot::default();
    let (slot, counted) = (added.clone(), state.clone());
    let guard = reg.register(destructing(move |reg: &mut Plain| {
        reg.broadcast(5);
        slot.set(Some(reg.register(capturer(&counted))));
        reg.broadcast(6);
    }));
    guard.cancel(&mut reg);
    assert_eq!(state.sum.get(), 5 + 6 + 6);
    assert_eq!(reg.registered(), 3);
    drop_in(&added, &mut reg);
    assert_eq!(state.drop_count.get(), 1);
}

#[test]
fn a_guard_is_held_until_it_is_dropped() {
    let mut reg = Plain::default();
    let a = reg.register(idle());
    let b = reg.register(idle());
    a.cancel(&mut reg);
    assert!(reg.holds(&b));
    assert!(!Plain::default().holds(&b));
    b.cancel(&mut reg);
    assert!(reg.is_empty());
}

#[test]
fn dropping_one_guard_leaves_the_others() {
    let mut reg = Fifo::new(FifoPolicy);
    let order = Rc::new(RefCell::new(Vec::new()));
    let [a, b, c] = array::from_fn(|i| {
        let order = order.clone();
        reg.register(calling(move |_, _| order.borrow_mut().push(i)))
    });
    b.cancel(&mut reg);
    reg.broadcast(0);
    assert_eq!(*order.borrow(), [0, 2]);
    assert!(reg.holds(&a) && reg.holds(&c));
    a.cancel(&mut reg);
    reg.broadcast(0);
    assert_eq!(*order.borrow(), [0, 2, 2]);
    c.cancel(&mut reg);
    assert!(reg.is_empty());
}

#[test]
fn the_policy_is_told_once() {
    let ctr = Rc::new(Cell::new(0u32));
    let mut reg = Reg::<CounterPolicy, LIFO>::new(CounterPolicy(ctr.clone()));
    let slots: [Slot; 3] = array::from_fn(|_| Slot::default());
    for slot in &slots {
        let me = slot.clone();
        slot.set(Some(reg.register(calling(move |_, reg| drop_in(&me, reg)))));
    }
    reg.broadcast(0);
    assert_eq!(ctr.get(), 1);
    reg.broadcast(0);
    assert_eq!(ctr.get(), 1);
}

#[test]
fn calls_in_progress_are_counted() {
    let mut reg = Plain::default();
    let seen = Rc::new(RefCell::new(Vec::new()));
    let record = seen.clone();
    let _g = reg.register(calling(move |event, reg: &mut Plain| {
        record.borrow_mut().push(reg.calls_in_progress());
        if event > 0 {
            reg.broadcast(event - 1);
        }
    }));
    reg.broadcast(2);
    assert_eq!(*seen.borrow(), [1, 2, 3]);
    assert_eq!(reg.calls_in_progress(), 0);
}
