use intrusive_listeners::locked::{self, Action, No, Policy, Yes};
use intrusive_listeners::order::{FIFO, LIFO};
use std::array;
use std::cell::{Cell, OnceCell, RefCell, RefMut};
use std::rc::{Rc, Weak};

/// A listener made of what it does when it is called and when it is destructed.
struct Probe {
    accept: Box<dyn Fn(u32)>,
    destruct: Box<dyn Fn()>,
}

impl Drop for Probe {
    fn drop(&mut self) {
        (self.destruct)()
    }
}

fn calling(accept: impl Fn(u32) + 'static) -> Probe {
    Probe { accept: Box::new(accept), destruct: Box::new(|| ()) }
}

fn destructing(destruct: impl Fn() + 'static) -> Probe {
    Probe { accept: Box::new(|_| ()), destruct: Box::new(destruct) }
}

/// The shared data under a lock that is never taken twice.
struct Lock<P: Policy>(RefCell<locked::Registry<Probe, P>>);

impl<P: Policy> Lock<P> {
    fn lock(&self) -> RefMut<'_, locked::Registry<Probe, P>> {
        self.0.try_borrow_mut().expect("the lock is not reentrant")
    }

    /// Does what is to be done without the lock. Returns whether there was anything.
    fn perform(&self, action: Action<Probe>) -> bool {
        match action {
            Action::Tell => {
                let hook = self.lock().hook();
                hook.last_listener_cancelled();
                true
            }
            Action::Release => {
                assert!(self.lock().has_departing());
                let last = self.lock().release();
                assert_eq!(last, self.lock().references() == 0);
                true
            }
            Action::Destruct(listener) => {
                drop(listener);
                true
            }
            Action::Done => false,
        }
    }
}

/// A registry, dropped step by step as threads do.
struct Reg<P: Policy>(Rc<Lock<P>>);

/// A guard, dropped step by step as threads do.
struct Guard<P: Policy = ()>(Rc<Lock<P>>, Option<locked::Guard>);

type Slot<P = ()> = Rc<Cell<Option<Guard<P>>>>;

impl<P: Policy> Reg<P> {
    fn new(policy: P) -> Self {
        Reg(Rc::new(Lock(RefCell::new(locked::Registry::new(policy)))))
    }

    fn try_register(&self, listener: Probe) -> Option<Guard<P>> {
        let result = self.0.lock().register(listener);
        match result {
            Ok(guard) => Some(Guard(self.0.clone(), Some(guard))),
            Err(refused) => {
                drop(refused);
                None
            }
        }
    }

    fn register(&self, listener: Probe) -> Guard<P> {
        self.try_register(listener).unwrap()
    }

    fn broadcast(&self, event: u32) {
        let (mut broadcast, mut next) = self.0.lock().broadcast();
        while let Some(listener) = next {
            (listener.accept)(event);
            drop(listener);
            assert!(self.0.lock().can_resume(&broadcast));
            let following = self.0.lock().resume_broadcast(&mut broadcast);
            next = following;
        }
        while self.0.perform(broadcast.next_action()) {}
    }
}

impl<P: Policy> Drop for Reg<P> {
    fn drop(&mut self) {
        self.0.lock().begin_drop();
        loop {
            let listener = self.0.lock().resume_drop();
            if listener.is_none() {
                break;
            }
            drop(listener);
        }
        let mut inner = self.0.lock();
        assert!(inner.is_attached() && inner.is_empty() && !inner.is_standing());
        let last = inner.finish_drop();
        assert_eq!(last, inner.references() == 0);
    }
}

impl<P: Policy> Drop for Guard<P> {
    fn drop(&mut self) {
        let mut departure = self.0.lock().cancel(self.1.take().unwrap());
        while self.0.perform(departure.next_action()) {}
    }
}

impl Default for Reg<()> {
    fn default() -> Self {
        Reg::new(())
    }
}

fn bump(cell: &Cell<u32>) {
    cell.set(cell.get() + 1);
}

struct FifoPolicy;

impl Policy for FifoPolicy {
    type Sealable = No;
    type Order = FIFO;

    fn last_listener_cancelled(&self) {}
}

struct SealingPolicy(Rc<Cell<u32>>);

impl Policy for SealingPolicy {
    type Sealable = Yes;
    type Order = LIFO;

    fn last_listener_cancelled(&self) {
        bump(&self.0);
    }
}

#[derive(Default)]
struct State {
    accept_count: Cell<u32>,
    drop_count: Cell<u32>,
    sum: Cell<u32>,
}

fn capturer(state: &Rc<State>) -> Probe {
    let (called, destructed) = (state.clone(), state.clone());
    Probe {
        accept: Box::new(move |event| {
            bump(&called.accept_count);
            called.sum.set(called.sum.get() + event);
        }),
        destruct: Box::new(move || bump(&destructed.drop_count)),
    }
}

#[test]
fn locked_normal_path() {
    let reg = Reg::default();
    let states = <[Rc<State>; 3]>::default();
    let _guards = states.each_ref().map(|x| reg.register(capturer(x)));
    reg.broadcast(3);
    reg.broadcast(4);
    assert_eq!(states.each_ref().map(|x| x.accept_count.get()), [2, 2, 2]);
    assert_eq!(states.each_ref().map(|x| x.sum.get()), [7, 7, 7]);
}

#[test]
fn locked_registry_dropped_early() {
    let state = Rc::<State>::default();
    let _guards: [_; 2];
    {
        let reg = Reg::default();
        _guards = array::from_fn(|_| reg.register(capturer(&state)));
    }
    assert_eq!(state.drop_count.get(), 2);
}

#[test]
fn locked_registry_dropped_late() {
    let state = Rc::<State>::default();
    let reg = Reg::default();
    let guards: [_; 3] = array::from_fn(|_| reg.register(capturer(&state)));
    drop(guards);
    assert_eq!(state.drop_count.get(), 3);
}

#[test]
fn locked_cancel_internal() {
    let state = Rc::<State>::default();
    let reg = Reg::default();
    let [_a, b, _c] = array::from_fn(|_| reg.register(capturer(&state)));
    drop(b);
    assert_eq!(state.drop_count.get(), 1);
    reg.broadcast(5);
    assert_eq!(state.sum.get(), 10);
}

#[test]
fn locked_register_inside_callback() {
    let reg = Rc::<Reg<()>>::default();
    let state = Rc::<State>::default();
    let _g = reg.register({
        let (reg, state, child) = (Rc::downgrade(&reg), state.clone(), OnceCell::new());
        calling(move |_| {
            child.get_or_init(|| {
                let reg = reg.upgrade().unwrap();
                reg.register(capturer(&state))
            });
        })
    });
    reg.broadcast(0);
    assert_eq!(state.accept_count.get(), 0);
    reg.broadcast(0);
    assert_eq!(state.accept_count.get(), 1);
}

#[test]
fn locked_self_cancel() {
    let reg = Reg::default();
    let state = Rc::<State>::default();
    let guard = Slot::default();
    guard.set(Some(reg.register({
        let (state, me) = (state.clone(), guard.clone());
        calling(move |_| {
            me.set(None);
            // Access listener state after self-cancel.
            bump(&state.accept_count);
        })
    })));
    reg.broadcast(0);
    assert_eq!(state.accept_count.get(), 1);
    reg.broadcast(0);
    assert_eq!(state.accept_count.get(), 1);
}

#[test]
fn locked_cancel_in_flight() {
    let reg = Reg::default();
    let state = Rc::<State>::default();
    let victim = Cell::new(Some(reg.register(capturer(&state))));
    let _g = reg.register(calling(move |_| victim.set(None)));
    reg.broadcast(0);
    assert_eq!(state.accept_count.get(), 0);
    assert_eq!(state.drop_count.get(), 1);
    reg.broadcast(0);
    assert_eq!(state.accept_count.get(), 0);
}

#[test]
fn locked_destructor_cancel_in_flight() {
    let reg = Reg::default();
    let state = Rc::<State>::default();
    let a: Slot = Rc::new(Cell::new(Some(reg.register(capturer(&state)))));
    let b = Slot::default();
    let (me, victim) = (b.clone(), a.clone());
    b.set(Some(reg.register(Probe {
        accept: Box::new(move |_| me.set(None)),
        destruct: Box::new(move || victim.set(None)),
    })));
    reg.broadcast(7);
    assert_eq!(state.accept_count.get(), 1);
    assert_eq!(state.sum.get(), 7);
    assert_eq!(state.drop_count.get(), 1);
}

#[test]
fn locked_cancel_other_in_registry_destructor() {
    let state = Rc::<State>::default();
    let a = Slot::default();
    let b = {
        let reg = Reg::default();
        a.set(Some(reg.register(capturer(&state))));
        let victim = a.clone();
        reg.register(destructing(move || victim.set(None)))
    };
    assert_eq!(state.drop_count.get(), 1);
    assert!(a.take().is_none());
    drop(b);
    assert_eq!(state.drop_count.get(), 1);
}

#[test]
fn locked_cancel_self_in_registry_destructor() {
    let state = Rc::<State>::default();
    let me = Slot::default();
    {
        let reg = Reg::default();
        me.set(Some(reg.register({
            let (me, state) = (me.clone(), state.clone());
            destructing(move || {
                me.set(None);
                // Access listener state after self-cancel.
                bump(&state.drop_count);
            })
        })));
    }
    assert_eq!(state.drop_count.get(), 1);
    assert!(me.take().is_none());
}

#[test]
fn locked_nested_broadcast_is_safe() {
    let reg = Rc::<Reg<()>>::default();
    let state = Rc::<State>::default();
    let _g = reg.register({
        let (reg, state, depth) = (Rc::downgrade(&reg), state.clone(), Cell::new(0u32));
        calling(move |event| {
            bump(&state.accept_count);
            if depth.replace(depth.get() + 1) < 2 {
                reg.upgrade().unwrap().broadcast(event);
            }
        })
    });
    reg.broadcast(0);
    assert_eq!(state.accept_count.get(), 3);
}

#[test]
fn locked_lifo_broadcast() {
    let reg = Reg::default();
    let order = Rc::new(RefCell::new(Vec::new()));
    let _g: [_; 3] = array::from_fn(|i| {
        let order = order.clone();
        reg.register(calling(move |_| order.borrow_mut().push(i)))
    });
    reg.broadcast(0);
    assert_eq!(*order.borrow(), [2, 1, 0]);
}

#[test]
fn locked_fifo_broadcast() {
    let reg = Reg::new(FifoPolicy);
    let order = Rc::new(RefCell::new(Vec::new()));
    let mut guards: [_; 5] = array::from_fn(|i| {
        let order = order.clone();
        Some(reg.register(calling(move |_| order.borrow_mut().push(i))))
    });
    guards[2] = None;
    reg.broadcast(0);
    assert_eq!(*order.borrow(), [0, 1, 3, 4]);
    guards[4] = None;
    guards[0] = None;
    let _g = reg.register({
        let order = order.clone();
        calling(move |_| order.borrow_mut().push(9))
    });
    order.borrow_mut().clear();
    reg.broadcast(0);
    assert_eq!(*order.borrow(), [1, 3, 9]);
}

#[test]
fn two_broadcasts_take_turns() {
    // What two threads do, interleaved by hand: the listener is cancelled while both are
    // calling it, and goes with the later of the two.
    let reg = Reg::default();
    let state = Rc::<State>::default();
    let guard = reg.register(capturer(&state));
    let (mut one, first) = reg.0.lock().broadcast();
    let (mut two, second) = reg.0.lock().broadcast();
    assert_eq!(reg.0.lock().calls_in_progress(), 2);
    (first.as_ref().unwrap().accept)(1);
    (second.as_ref().unwrap().accept)(2);
    drop((first, second));
    drop(guard);
    assert!(matches!(one.next_action(), Action::Done));
    assert!(!reg.0.lock().is_empty());
    let nothing = reg.0.lock().resume_broadcast(&mut one);
    assert!(nothing.is_none());
    assert!(!reg.0.lock().can_resume(&one));
    assert!(matches!(one.next_action(), Action::Done));
    assert!(!reg.0.lock().is_empty());
    let nothing = reg.0.lock().resume_broadcast(&mut two);
    assert!(nothing.is_none());
    assert!(reg.0.lock().is_empty());
    assert_eq!(state.drop_count.get(), 0);
    assert!(matches!(two.next_action(), Action::Destruct(_)));
    assert!(matches!(two.next_action(), Action::Done));
    assert_eq!(state.drop_count.get(), 1);
    assert_eq!(state.sum.get(), 3);
}

#[test]
fn references_run_out_with_the_last_one() {
    let reg = Reg::default();
    assert_eq!(reg.0.lock().references(), 1);
    let a = reg.register(calling(|_| ()));
    let b = reg.register(calling(|_| ()));
    assert_eq!(reg.0.lock().references(), 3);
    drop(a);
    assert_eq!(reg.0.lock().references(), 2);
    let inner: Weak<Lock<()>> = Rc::downgrade(&reg.0);
    drop(reg);
    let inner = inner.upgrade().unwrap();
    assert!(!inner.lock().is_attached());
    assert!(!inner.lock().is_open());
    assert_eq!(inner.lock().references(), 1);
    drop(b);
    assert_eq!(inner.lock().references(), 0);
}

#[test]
fn sealing_takes_an_empty_registry() {
    let ctr = Rc::new(Cell::new(0u32));
    let reg = Reg::new(SealingPolicy(ctr.clone()));
    let guard = reg.try_register(calling(|_| ())).unwrap();
    assert!(!reg.0.lock().try_seal());
    let other = reg.try_register(calling(|_| ())).unwrap();
    drop(guard);
    assert_eq!(ctr.get(), 0);
    drop(other);
    assert_eq!(ctr.get(), 1);
    assert!(reg.0.lock().try_seal());
    assert!(reg.try_register(calling(|_| ())).is_none());
    assert!(reg.0.lock().try_seal());
    assert!(reg.0.lock().is_empty());
    assert_eq!(reg.0.lock().references(), 1);
    assert_eq!(reg.0.lock().registered(), 2);
}

#[test]
fn a_refused_listener_is_handed_back() {
    let reg = Rc::new(Reg::new(SealingPolicy(Rc::default())));
    assert!(reg.0.lock().try_seal());
    let seen = Rc::new(Cell::new(None));
    let (inner, record) = (Rc::downgrade(&reg), seen.clone());
    // Its destructor uses the registry, and so has to run without the lock.
    let refused = reg.try_register(destructing(move || {
        record.set(Some(inner.upgrade().unwrap().0.lock().is_empty()));
    }));
    assert!(refused.is_none());
    assert_eq!(seen.get(), Some(true));
    assert_eq!(reg.0.lock().registered(), 0);
}

#[test]
fn self_cancel_notifies_a_sealable_policy() {
    let ctr = Rc::new(Cell::new(0u32));
    let reg = Reg::new(SealingPolicy(ctr.clone()));
    let slot = Slot::<SealingPolicy>::default();
    let (me, seen) = (slot.clone(), ctr.clone());
    let told_first = Rc::new(Cell::new(false));
    let told = told_first.clone();
    slot.set(Some(reg.register(Probe {
        accept: Box::new(move |_| me.set(None)),
        destruct: Box::new(move || told.set(seen.get() == 1)),
    })));
    reg.broadcast(0);
    assert_eq!(ctr.get(), 1);
    assert!(told_first.get());
}

#[test]
fn a_policy_that_cannot_be_sealed_is_not_told() {
    struct Silent;
    impl Policy for Silent {
        type Sealable = No;
        type Order = LIFO;

        fn last_listener_cancelled(&self) {
            panic!("not sealable");
        }
    }
    let reg = Reg::new(Silent);
    let slot = Slot::<Silent>::default();
    let me = slot.clone();
    slot.set(Some(reg.register(calling(move |_| me.set(None)))));
    reg.broadcast(0);
    drop(reg.register(calling(|_| ())));
    assert!(reg.0.lock().is_empty());
}

#[test]
fn enter_reaches_only_a_live_listener() {
    let reg = Reg::default();
    let state = Rc::<State>::default();
    let mut guard = reg.register(capturer(&state));
    let inner = guard.1.take().unwrap();
    assert!(reg.0.lock().holds(&inner));
    let entered = inner.enter(&reg.0.lock(), |listener: &Probe| {
        (listener.accept)(4);
        9
    });
    assert_eq!(entered, Some(9));
    assert_eq!(state.sum.get(), 4);
    assert!(reg.0.lock().listener_at(inner.as_ptr()).is_some());
    let lock = reg.0.clone();
    drop(reg);
    assert_eq!(inner.enter(&lock.lock(), |_: &Probe| 9), None);
    assert!(lock.lock().listener_at(inner.as_ptr()).is_none());
    guard.1 = Some(inner);
}

#[test]
fn a_pointer_reaches_its_own_listener() {
    let reg = Reg::default();
    let states = <[Rc<State>; 2]>::default();
    let mut guards = states.each_ref().map(|state| reg.register(capturer(state)));
    for i in 0..2 {
        let ptr = guards[i].1.as_ref().unwrap().as_ptr();
        (reg.0.lock().listener_at(ptr).unwrap().accept)(7 + i as u32);
    }
    assert_eq!(states.each_ref().map(|state| state.sum.get()), [7, 8]);
    let lock = reg.0.clone();
    drop(reg);
    for guard in &mut guards {
        assert!(lock.lock().listener_at(guard.1.as_ref().unwrap().as_ptr()).is_none());
    }
}

#[test]
fn a_dropped_guard_tells_releases_and_destructs() {
    let reg = Reg::new(SealingPolicy(Rc::default()));
    let mut first = reg.register(calling(|_| ()));
    let mut last = reg.register(calling(|_| ()));
    let mut left = reg.0.lock().cancel(first.1.take().unwrap());
    assert!(matches!(left.next_action(), Action::Release));
    assert!(matches!(left.next_action(), Action::Destruct(_)));
    assert!(matches!(left.next_action(), Action::Done));
    let mut left = reg.0.lock().cancel(last.1.take().unwrap());
    assert!(matches!(left.next_action(), Action::Tell));
    assert!(matches!(left.next_action(), Action::Release));
    assert!(matches!(left.next_action(), Action::Destruct(_)));
    assert!(matches!(left.next_action(), Action::Done));
    assert!(matches!(left.next_action(), Action::Done));
    std::mem::forget((first, last));
}

#[test]
fn a_guard_dropped_during_its_call_only_releases() {
    let reg = Reg::new(SealingPolicy(Rc::default()));
    let mut guard = reg.register(calling(|_| ()));
    let (mut broadcast, next) = reg.0.lock().broadcast();
    let mut left = reg.0.lock().cancel(guard.1.take().unwrap());
    assert!(matches!(left.next_action(), Action::Release));
    assert!(matches!(left.next_action(), Action::Done));
    drop(next);
    assert!(reg.0.lock().resume_broadcast(&mut broadcast).is_none());
    assert!(matches!(broadcast.next_action(), Action::Tell));
    assert!(matches!(broadcast.next_action(), Action::Destruct(_)));
    assert!(matches!(broadcast.next_action(), Action::Done));
    std::mem::forget(guard);
}

#[test]
fn a_broadcast_destructs_the_last_removed_first() {
    let reg = Reg::new(SealingPolicy(Rc::default()));
    let log = Rc::new(RefCell::new(Vec::new()));
    let slots: [Slot<SealingPolicy>; 3] = array::from_fn(|_| Slot::default());
    for (i, slot) in slots.iter().enumerate() {
        let (me, log) = (slot.clone(), log.clone());
        slot.set(Some(reg.register(Probe {
            accept: Box::new(move |_| me.set(None)),
            destruct: Box::new(move || log.borrow_mut().push(i)),
        })));
    }
    // Served, and so removed, as 2, 1, 0.
    reg.broadcast(0);
    assert_eq!(*log.borrow(), [0, 1, 2]);
}

#[test]
fn a_listener_receives_unless_cancelled_before_its_turn() {
    let reg = Reg::new(FifoPolicy);
    let log = Rc::new(RefCell::new(Vec::new()));
    let slots: [Slot<FifoPolicy>; 3] = array::from_fn(|_| Slot::default());
    for (i, slot) in slots.iter().enumerate() {
        // The second one cancels the first, whose turn is over, and the third, whose is not.
        let (first, third, log) = (slots[0].clone(), slots[2].clone(), log.clone());
        slot.set(Some(reg.register(calling(move |_| {
            log.borrow_mut().push(i);
            if i == 1 {
                first.set(None);
                third.set(None);
            }
        }))));
    }
    reg.broadcast(0);
    assert_eq!(*log.borrow(), [0, 1]);
}

#[test]
fn a_default_policy_makes_a_default_registry() {
    let reg = locked::Registry::<Probe, ()>::default();
    assert!(reg.is_empty() && reg.is_open());
    assert_eq!(reg.references(), 1);
}

#[test]
fn a_drop_stands_at_the_listener_it_handed_out() {
    let reg = Reg::default();
    let mut guard = reg.register(calling(|_| ()));
    reg.0.lock().begin_drop();
    assert!(!reg.0.lock().is_standing());
    let listener = reg.0.lock().resume_drop();
    assert!(listener.is_some() && reg.0.lock().is_standing());
    drop(listener);
    assert!(reg.0.lock().resume_drop().is_none());
    assert!(!reg.0.lock().is_standing());
    reg.0.lock().finish_drop();
    let mut left = reg.0.lock().cancel(guard.1.take().unwrap());
    while reg.0.perform(left.next_action()) {}
    assert_eq!(reg.0.lock().references(), 0);
    std::mem::forget((reg, guard));
}
