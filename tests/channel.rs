use nara::mpsc_unsync::{channel, unbounded, unbounded_channel, Channel, RecvPoll, SendPoll};

fn sent<T, W>(p: SendPoll<T, W>) -> Option<W> {
    match p {
        SendPoll::Sent(w) => w,
        _ => panic!("expected the value to be queued"),
    }
}

fn value<T, W>(p: RecvPoll<T, W>) -> (T, Option<W>) {
    match p {
        RecvPoll::Value(v, w) => (v, w),
        _ => panic!("expected a value"),
    }
}

#[test]
fn send_then_recv_round_trip() {
    let (mut ch, tx, rx) = channel::<u32, u64>(4);
    assert!(sent(tx.poll_send(&mut ch, 7, 100)).is_none());
    let (v, w) = value(rx.poll_recv(&mut ch, 200));
    assert_eq!(v, 7);
    assert!(w.is_none());
    assert_eq!(ch.len(), 0);
}

#[test]
fn values_come_out_in_send_order() {
    let (mut ch, tx, rx) = channel::<u32, u64>(8);
    for v in [3u32, 1, 4, 1, 5] {
        sent(tx.poll_send(&mut ch, v, 1));
    }
    let mut got = Vec::new();
    for _ in 0..5 {
        got.push(value(rx.poll_recv(&mut ch, 2)).0);
    }
    assert_eq!(got, vec![3, 1, 4, 1, 5]);
    assert!(matches!(rx.poll_recv(&mut ch, 2), RecvPoll::Pending));
}

#[test]
fn recv_on_empty_stores_waker_and_send_hands_it_back() {
    let (mut ch, tx, rx) = channel::<u32, u64>(2);
    assert!(matches!(rx.poll_recv(&mut ch, 42), RecvPoll::Pending));
    assert_eq!(sent(tx.poll_send(&mut ch, 9, 1)), Some(42));
    // the receiver's waker is taken: a second send wakes nobody
    assert_eq!(sent(tx.poll_send(&mut ch, 10, 1)), None);
}

#[test]
fn capacity_one_send_waits_iff_slot_filled() {
    let (mut ch, tx, rx) = channel::<u32, u64>(1);
    let tx2 = ch.clone_sender(&tx);
    assert_eq!(tx2.sender_id(), 2);
    sent(tx.poll_send(&mut ch, 1, 11));
    // slot filled: both senders wait
    match tx.poll_send(&mut ch, 2, 11) {
        SendPoll::Full(v) => assert_eq!(v, 2),
        _ => panic!("expected full"),
    }
    match tx2.poll_send(&mut ch, 3, 22) {
        SendPoll::Full(v) => assert_eq!(v, 3),
        _ => panic!("expected full"),
    }
    // one receive releases exactly one sender: the oldest
    let (v, w) = value(rx.poll_recv(&mut ch, 0));
    assert_eq!(v, 1);
    assert_eq!(w, Some(11));
    // the slot is free again
    sent(tx2.poll_send(&mut ch, 3, 22));
    let (v, w) = value(rx.poll_recv(&mut ch, 0));
    assert_eq!(v, 3);
    assert_eq!(w, Some(22));
}

#[test]
fn repeated_full_send_updates_waker_in_place() {
    let (mut ch, tx, rx) = channel::<u32, u64>(1);
    sent(tx.poll_send(&mut ch, 1, 5));
    assert!(matches!(tx.poll_send(&mut ch, 2, 6), SendPoll::Full(2)));
    assert!(matches!(tx.poll_send(&mut ch, 2, 7), SendPoll::Full(2)));
    let (_, w) = value(rx.poll_recv(&mut ch, 0));
    assert_eq!(w, Some(7));
    // no second entry for the same sender
    sent(tx.poll_send(&mut ch, 2, 8));
    let (_, w) = value(rx.poll_recv(&mut ch, 0));
    assert_eq!(w, None);
}

#[test]
fn dropping_last_sender_closes_parked_receiver() {
    let (mut ch, tx, rx) = channel::<u32, u64>(4);
    let tx2 = ch.clone_sender(&tx);
    assert!(matches!(rx.poll_recv(&mut ch, 77), RecvPoll::Pending));
    assert_eq!(ch.drop_sender(tx), None);
    assert_eq!(ch.drop_sender(tx2), Some(77));
    assert!(matches!(rx.poll_recv(&mut ch, 78), RecvPoll::Closed));
}

#[test]
fn queued_values_outlive_the_senders() {
    let (mut ch, tx, rx) = channel::<u32, u64>(4);
    sent(tx.poll_send(&mut ch, 5, 0));
    ch.drop_sender(tx);
    assert_eq!(value(rx.poll_recv(&mut ch, 0)).0, 5);
    assert!(matches!(rx.poll_recv(&mut ch, 0), RecvPoll::Closed));
}

#[test]
fn dropping_receiver_fails_sends_and_wakes_senders() {
    let (mut ch, tx, rx) = channel::<u32, u64>(1);
    let tx2 = ch.clone_sender(&tx);
    sent(tx.poll_send(&mut ch, 1, 0));
    assert!(matches!(tx.poll_send(&mut ch, 2, 31), SendPoll::Full(_)));
    assert!(matches!(tx2.poll_send(&mut ch, 3, 32), SendPoll::Full(_)));
    assert_eq!(ch.drop_receiver(rx), vec![31, 32]);
    match tx.poll_send(&mut ch, 4, 0) {
        SendPoll::Closed(e) => assert_eq!(e.0, 4),
        _ => panic!("expected closed"),
    }
}

#[test]
fn unbounded_send_never_waits() {
    let (mut ch, tx, rx) = unbounded_channel::<u32, u64>();
    for v in 0..1000u32 {
        assert!(tx.send(&mut ch, v).is_ok());
    }
    assert_eq!(ch.len(), 1000);
    for v in 0..1000u32 {
        let (got, w) = value(rx.poll_recv(&mut ch, 0));
        assert_eq!(got, v);
        assert!(w.is_none());
    }
}

#[test]
fn unbounded_send_after_receiver_gone_returns_value() {
    let (mut ch, tx, rx) = unbounded::<String, u64>();
    assert!(ch.drop_receiver(rx).is_empty());
    match tx.send(&mut ch, "x".to_string()) {
        Err(e) => assert_eq!(e.0, "x"),
        Ok(_) => panic!("expected an error"),
    }
}

#[test]
fn unbounded_last_sender_drop_wakes_receiver() {
    let (mut ch, tx, rx) = unbounded_channel::<u32, u64>();
    let tx2 = ch.clone_unbounded_sender(&tx);
    assert!(matches!(rx.poll_recv(&mut ch, 9), RecvPoll::Pending));
    assert_eq!(tx2.send(&mut ch, 1).ok(), Some(Some(9)));
    assert_eq!(ch.drop_unbounded_sender(tx), None);
    assert_eq!(ch.drop_unbounded_sender(tx2), None);
    assert_eq!(value(rx.poll_recv(&mut ch, 0)).0, 1);
    assert!(matches!(rx.poll_recv(&mut ch, 0), RecvPoll::Closed));
}

#[test]
fn channel_new_is_empty() {
    let ch: Channel<u8, u8> = Channel::new(3);
    assert_eq!(ch.len(), 0);
}

// Two senders of ten values each into a channel of capacity four, drained by
// one receiver that starts late: every value arrives exactly once.
#[test]
fn ping_pong_two_senders_capacity_four() {
    let (mut ch, a, rx) = channel::<u32, u64>(4);
    let b = ch.clone_sender(&a);
    let mut next_a = 1u32;
    let mut next_b = 11u32;
    let mut got: Vec<u32> = Vec::new();
    let mut a_done = false;
    let mut b_done = false;
    let mut a_handle = Some(a);
    let mut b_handle = Some(b);
    let mut round = 0;
    while !(a_done && b_done) || ch.len() > 0 {
        if let Some(a) = &a_handle {
            if next_a <= 10 {
                if let SendPoll::Sent(_) = a.poll_send(&mut ch, next_a, 1) {
                    next_a += 1;
                }
            }
            if next_a > 10 {
                ch.drop_sender(a_handle.take().unwrap());
                a_done = true;
            }
        }
        if let Some(b) = &b_handle {
            if next_b <= 20 {
                if let SendPoll::Sent(_) = b.poll_send(&mut ch, next_b, 2) {
                    next_b += 1;
                }
            }
            if next_b > 20 {
                ch.drop_sender(b_handle.take().unwrap());
                b_done = true;
            }
        }
        // the receiver starts after a while
        if round >= 5 {
            loop {
                match rx.poll_recv(&mut ch, 3) {
                    RecvPoll::Value(v, _) => got.push(v),
                    _ => break,
                }
            }
        }
        round += 1;
    }
    assert!(matches!(rx.poll_recv(&mut ch, 3), RecvPoll::Closed));
    got.sort();
    assert_eq!(got, (1..=20).collect::<Vec<u32>>());
}
