use bt_rust_dht::worker::timer::Timer;

#[test]
fn timer_fires_in_the_order_of_the_deadlines() {
    let mut timer: Timer<&str> = Timer::new();
    assert!(timer.is_empty());
    assert_eq!(timer.next_deadline(), None);
    timer.schedule_in(300, "c", 1000);
    timer.schedule_at(1100, "a");
    timer.schedule_in(200, "b", 1000);
    timer.schedule_in(200, "b2", 1000);
    assert!(!timer.is_empty());
    assert_eq!(timer.next_deadline(), Some(1100));
    assert_eq!(timer.pop_expired(1099), None);
    assert_eq!(timer.pop_expired(1100), Some("a"));
    assert_eq!(timer.pop_expired(1100), None);
    // Equal deadlines fire in the order of scheduling.
    assert_eq!(timer.pop_expired(5000), Some("b"));
    assert_eq!(timer.pop_expired(5000), Some("b2"));
    assert_eq!(timer.pop_expired(5000), Some("c"));
    assert_eq!(timer.pop_expired(5000), None);
    assert!(timer.is_empty());
}

#[test]
fn timer_cancel() {
    let mut timer: Timer<u32> = Timer::new();
    let first = timer.schedule_in(100, 1, 0);
    let second = timer.schedule_in(50, 2, 0);
    let third = timer.schedule_in(100, 3, 0);
    assert_eq!(first.deadline(), 100);
    assert_ne!(first, third);
    assert!(timer.cancel(first));
    // A second cancel does nothing.
    assert!(!timer.cancel(first));
    assert_eq!(timer.pop_expired(1000), Some(2));
    assert!(!timer.cancel(second));
    assert_eq!(timer.pop_expired(1000), Some(3));
    assert!(timer.is_empty());
}

#[test]
fn timer_deadline_stops_at_the_end_of_time() {
    let mut timer: Timer<u32> = Timer::new();
    let handle = timer.schedule_in(u64::MAX, 1, 5);
    assert_eq!(handle.deadline(), u64::MAX);
    assert_eq!(timer.next_deadline(), Some(u64::MAX));
}
