use intrusive_listeners::next::{Next, NextState, Polled};

#[test]
fn event_wakes_the_waiting_task_and_is_taken_once() {
    let mut next = Next::<u32, &str>::new();
    assert!(next.wants_waker());
    assert!(matches!(next.poll(Some("first")), Polled::Pending(None)));
    assert!(matches!(next.poll(Some("second")), Polled::Pending(Some("first"))));
    assert_eq!(next.accept(7), Some("second"));
    assert!(!next.wants_waker());
    assert!(matches!(next.poll(None), Polled::Ready(Some(7))));
    assert!(matches!(next.poll(None), Polled::Ready(None)));
}

#[test]
fn only_the_immediate_next_event_counts() {
    let mut next = Next::<u32, &str>::new();
    assert_eq!(next.accept(1), None);
    assert_eq!(next.accept(2), None);
    assert_eq!(next.destruct(), None);
    assert!(matches!(next.poll(None), Polled::Ready(Some(1))));
}

#[test]
fn no_event_once_the_listener_is_gone() {
    let mut next = Next::<u32, &str>::new();
    assert!(matches!(next.poll(Some("task")), Polled::Pending(None)));
    assert_eq!(next.destruct(), Some("task"));
    assert_eq!(next.accept(3), None);
    assert!(matches!(next.poll(None), Polled::Ready(None)));
}

#[test]
fn abandoned_wait_takes_no_event() {
    let mut next = Next::<u32, &str>::new();
    assert!(matches!(next.poll(Some("task")), Polled::Pending(None)));
    assert!(matches!(next.abandon(), NextState::Wait("task")));
    assert_eq!(next.accept(3), None);
    assert!(matches!(next.abandon(), NextState::Dead));
    let mut next = Next::<u32, &str>::new();
    assert_eq!(next.accept(4), None);
    assert!(matches!(next.abandon(), NextState::Ready(4)));
}
