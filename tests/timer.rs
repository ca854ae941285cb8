use nara::time::{sleep, sleep_until, Timer};

#[test]
fn new_timer_has_no_deadline() {
    let t: Timer<u32> = Timer::new();
    assert_eq!(t.len(), 0);
    assert_eq!(t.next_deadline_at(5), None);
    assert_eq!(t.next_deadline(), None);
}

#[test]
fn sleep_until_gets_increasing_ids_and_keeps_deadline() {
    let mut t: Timer<u32> = Timer::new();
    let a = sleep_until(&mut t, 500);
    let b = sleep_until(&mut t, 500);
    assert_eq!(a.deadline(), 500);
    assert_eq!(b.deadline(), 500);
    assert_ne!(a, b);
    assert_eq!(t.len(), 2);
}

#[test]
fn pending_sleep_is_not_ready_until_tick() {
    let mut t: Timer<u32> = Timer::new();
    let s = sleep_until(&mut t, 100);
    assert!(!t.poll_sleep(&s, 7));
    // a tick before the deadline lets nothing go
    assert!(t.tick_at(99).is_empty());
    assert!(!t.poll_sleep(&s, 8));
    // the latest waker is the one woken
    assert_eq!(t.tick_at(100), vec![8]);
    assert!(t.poll_sleep(&s, 9));
    assert_eq!(t.len(), 0);
}

#[test]
fn tick_wakes_in_deadline_order_and_stops_at_future() {
    let mut t: Timer<u32> = Timer::new();
    let c = sleep_until(&mut t, 300);
    let a = sleep_until(&mut t, 100);
    let b = sleep_until(&mut t, 200);
    let d = sleep_until(&mut t, 100);
    assert!(!t.poll_sleep(&a, 1));
    assert!(!t.poll_sleep(&b, 2));
    assert!(!t.poll_sleep(&c, 3));
    assert!(!t.poll_sleep(&d, 4));
    // equal deadlines in creation order
    assert_eq!(t.tick_at(250), vec![1, 4, 2]);
    assert_eq!(t.len(), 1);
    assert_eq!(t.next_deadline_at(250), Some(50));
    assert!(!t.poll_sleep(&c, 3));
    assert_eq!(t.tick_at(1000), vec![3]);
}

#[test]
fn entries_never_polled_leave_without_waker() {
    let mut t: Timer<u32> = Timer::new();
    let s = sleep_until(&mut t, 10);
    assert!(t.tick_at(10).is_empty());
    assert!(t.poll_sleep(&s, 1));
}

#[test]
fn earlier_deadline_resolves_no_later() {
    let mut t: Timer<u32> = Timer::new();
    let late = sleep_until(&mut t, 2000);
    let early = sleep_until(&mut t, 1000);
    t.poll_sleep(&late, 2);
    t.poll_sleep(&early, 1);
    assert_eq!(t.tick_at(1500), vec![1]);
    assert!(t.poll_sleep(&early, 1));
    assert!(!t.poll_sleep(&late, 2));
}

#[test]
fn zero_sleep_gives_zero_timeout_and_resolves_on_next_tick() {
    let mut t: Timer<u32> = Timer::new();
    let s = sleep(&mut t, 0);
    let now = s.deadline();
    assert_eq!(t.next_deadline_at(now), Some(0));
    assert!(!t.poll_sleep(&s, 5));
    assert_eq!(t.tick_at(now), vec![5]);
    assert!(t.poll_sleep(&s, 5));
}

#[test]
fn next_deadline_saturates_at_zero() {
    let mut t: Timer<u32> = Timer::new();
    sleep_until(&mut t, 10);
    assert_eq!(t.next_deadline_at(3), Some(7));
    assert_eq!(t.next_deadline_at(10), Some(0));
    assert_eq!(t.next_deadline_at(99), Some(0));
}

#[test]
fn cancel_removes_pending_entry() {
    let mut t: Timer<u32> = Timer::new();
    let a = sleep_until(&mut t, 10);
    let b = sleep_until(&mut t, 20);
    t.poll_sleep(&a, 1);
    t.poll_sleep(&b, 2);
    t.cancel(a);
    assert_eq!(t.len(), 1);
    assert_eq!(t.tick_at(100), vec![2]);
    // cancelling a resolved sleep changes nothing
    t.cancel(b);
    assert_eq!(t.len(), 0);
}

#[test]
fn sleep_is_elapsed_by_deadline() {
    let mut t: Timer<u32> = Timer::new();
    let s = sleep_until(&mut t, 50);
    assert!(!s.is_elapsed_at(49));
    assert!(s.is_elapsed_at(50));
    let z = sleep_until(&mut t, 0);
    assert!(z.is_elapsed(&t));
}

#[test]
fn sleep_saturates_far_deadline() {
    let mut t: Timer<u32> = Timer::new();
    let s = sleep(&mut t, u64::MAX);
    assert_eq!(s.deadline(), u64::MAX);
}

#[test]
fn idle_timer_sets_no_poll_timeout() {
    let t: Timer<u32> = Timer::new();
    let timeout = t.next_deadline_at(0);
    assert_eq!(timeout, None);
    assert_eq!(nara::syscall::poll_timeout_ms(timeout), -1);
}
