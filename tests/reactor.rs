use nara::reactor::{interest_bits, FdReady, Interest, Reactor};

#[test]
fn interest_bits_are_poll_bits() {
    assert_eq!(interest_bits(Interest::Read), 0x1);
    assert_eq!(interest_bits(Interest::Write), 0x4);
}

#[test]
fn new_registration_adds_idle_slot() {
    let mut r: Reactor<u32> = Reactor::new();
    let reg = r.registration(5);
    assert_eq!(reg.raw_fd(), 5);
    assert_eq!(reg.reg_id(), 1);
    assert_eq!(r.len(), 1);
    assert_eq!(r.poll_list(), vec![(-5, 0)]);
}

#[test]
fn same_fd_shares_one_slot() {
    let mut r: Reactor<u32> = Reactor::new();
    let a = r.registration(3);
    let b = r.registration(3);
    assert_ne!(a.reg_id(), b.reg_id());
    assert_eq!(r.len(), 1);
    r.deregister(a);
    assert_eq!(r.len(), 1);
    r.deregister(b);
    assert_eq!(r.len(), 0);
}

#[test]
fn wake_when_activates_slot_with_union_mask() {
    let mut r: Reactor<u32> = Reactor::new();
    let mut a = r.registration(4);
    let mut b = r.registration(4);
    a.wake_when(&mut r, Interest::Read, 10);
    assert_eq!(r.poll_list(), vec![(4, 0x1)]);
    b.wake_when(&mut r, Interest::Write, 20);
    assert_eq!(r.poll_list(), vec![(4, 0x5)]);
    assert!(!a.was_woken(&r));
    assert!(!b.was_woken(&r));
}

#[test]
fn react_wakes_matching_interest_only() {
    let mut r: Reactor<u32> = Reactor::new();
    let mut a = r.registration(4);
    let mut b = r.registration(4);
    a.wake_when(&mut r, Interest::Read, 10);
    b.wake_when(&mut r, Interest::Write, 20);
    // readable
    assert_eq!(r.react_to(&[0x1]), vec![10]);
    assert!(a.was_woken(&r));
    assert!(!b.was_woken(&r));
    assert_eq!(r.poll_list(), vec![(4, 0x4)]);
    // writable: the slot goes idle
    assert_eq!(r.react_to(&[0x4]), vec![20]);
    assert_eq!(r.poll_list(), vec![(-4, 0)]);
}

#[test]
fn react_error_wakes_everyone() {
    let mut r: Reactor<u32> = Reactor::new();
    let mut a = r.registration(7);
    let mut b = r.registration(7);
    a.wake_when(&mut r, Interest::Read, 1);
    b.wake_when(&mut r, Interest::Write, 2);
    assert_eq!(r.react_to(&[0x10]), vec![1, 2]);
    assert_eq!(r.poll_list(), vec![(-7, 0)]);
}

#[test]
fn react_leaves_quiet_slots_alone() {
    let mut r: Reactor<u32> = Reactor::new();
    let mut a = r.registration(3);
    let mut b = r.registration(9);
    a.wake_when(&mut r, Interest::Read, 1);
    b.wake_when(&mut r, Interest::Read, 2);
    assert_eq!(r.react_to(&[0, 0x1]), vec![2]);
    assert_eq!(r.poll_list(), vec![(3, 0x1), (-9, 0)]);
    assert!(r.react_to(&[0, 0]).is_empty());
}

#[test]
fn remove_wake_when_is_per_registration_and_interest() {
    let mut r: Reactor<u32> = Reactor::new();
    let mut a = r.registration(6);
    let mut b = r.registration(6);
    a.wake_when(&mut r, Interest::Read, 1);
    a.wake_when(&mut r, Interest::Write, 2);
    b.wake_when(&mut r, Interest::Read, 3);
    a.remove_wake_when(&mut r, Interest::Read);
    assert_eq!(r.poll_list(), vec![(6, 0x5)]);
    a.remove_wake_when(&mut r, Interest::Write);
    assert_eq!(r.poll_list(), vec![(6, 0x1)]);
    b.remove_wake_when(&mut r, Interest::Read);
    assert_eq!(r.poll_list(), vec![(-6, 0)]);
}

#[test]
fn removing_middle_slot_keeps_registrations_valid() {
    let mut r: Reactor<u32> = Reactor::new();
    let first = r.registration(1);
    let mut second = r.registration(2);
    let mut third = r.registration(3);
    r.deregister(first);
    // hints are stale now; lookups still find the slots
    third.wake_when(&mut r, Interest::Write, 30);
    second.wake_when(&mut r, Interest::Read, 20);
    assert_eq!(r.poll_list(), vec![(2, 0x1), (3, 0x4)]);
    assert_eq!(r.react_to(&[0, 0x4]), vec![30]);
}

#[test]
fn fd_zero_is_handled() {
    let mut r: Reactor<u32> = Reactor::new();
    let mut z = r.registration(0);
    z.wake_when(&mut r, Interest::Read, 5);
    assert_eq!(r.poll_list(), vec![(0, 0x1)]);
    assert_eq!(r.react_to(&[0x1]), vec![5]);
}

#[test]
fn fd_ready_arms_then_reports_ready() {
    let mut r: Reactor<u32> = Reactor::new();
    let mut reg = r.registration(8);
    let mut ready = FdReady::new(Interest::Write);
    // first poll arms a waiter
    assert!(!ready.poll(&mut reg, &mut r, 1));
    assert_eq!(r.poll_list(), vec![(8, 0x4)]);
    // spurious poll: still waiting
    assert!(!ready.poll(&mut reg, &mut r, 1));
    assert_eq!(r.react_to(&[0x4]), vec![1]);
    assert!(ready.poll(&mut reg, &mut r, 1));
    // cancelling a disarmed awaitable touches nothing
    ready.cancel(&mut reg, &mut r);
    assert_eq!(r.poll_list(), vec![(-8, 0)]);
}

#[test]
fn fd_ready_cancel_withdraws_waiter() {
    let mut r: Reactor<u32> = Reactor::new();
    let mut reg = r.registration(8);
    let mut ready = FdReady::new(Interest::Read);
    assert!(!ready.poll(&mut reg, &mut r, 1));
    ready.cancel(&mut reg, &mut r);
    assert_eq!(r.poll_list(), vec![(-8, 0)]);
    assert!(reg.was_woken(&r));
}

#[test]
fn react_error_and_invalid_wake_regardless_of_interest() {
    let mut r: Reactor<u32> = Reactor::new();
    let mut a = r.registration(2);
    a.wake_when(&mut r, Interest::Write, 1);
    assert_eq!(r.react_to(&[0x8]), vec![1]);
    a.wake_when(&mut r, Interest::Read, 2);
    assert_eq!(r.react_to(&[0x20]), vec![2]);
    a.wake_when(&mut r, Interest::Read, 3);
    // an event for the other interest only leaves the waiter in place
    assert!(r.react_to(&[0x4]).is_empty());
    assert_eq!(r.poll_list(), vec![(2, 0x1)]);
}
