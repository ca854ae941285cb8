use nara::executor::Executor;

#[test]
fn spawn_gives_increasing_ids_in_fifo_order() {
    let mut e: Executor<&str> = Executor::new();
    assert_eq!(e.next_id(), 1);
    assert_eq!(e.spawn("a"), 1);
    assert_eq!(e.spawn("b"), 2);
    assert_eq!(e.next_task(), Some((1, "a")));
    assert_eq!(e.current_id(), 1);
    e.complete();
    assert_eq!(e.current_id(), 0);
    assert_eq!(e.next_task(), Some((2, "b")));
    e.complete();
    assert_eq!(e.next_task(), None);
    assert!(!e.has_ready());
}

#[test]
fn pending_task_is_parked_until_queued() {
    let mut e: Executor<&str> = Executor::new();
    let id = e.spawn("t");
    let (_, task) = e.next_task().unwrap();
    assert_eq!(e.suspend(task), None);
    assert_eq!(e.current_id(), 0);
    assert!(!e.has_ready());
    e.queue(id);
    assert_eq!(e.next_task(), Some((id, "t")));
}

#[test]
fn self_wake_repolls_before_others() {
    let mut e: Executor<&str> = Executor::new();
    let a = e.spawn("a");
    e.spawn("b");
    let (_, task) = e.next_task().unwrap();
    // the task wakes itself while being polled
    e.queue(a);
    assert_eq!(e.suspend(task), Some("a"));
    assert_eq!(e.current_id(), a);
    // second poll without a wakeup parks it
    assert_eq!(e.suspend("a"), None);
    assert_eq!(e.next_task(), Some((2, "b")));
}

#[test]
fn queue_of_unknown_or_queued_id_is_ignored() {
    let mut e: Executor<&str> = Executor::new();
    let a = e.spawn("a");
    e.queue(a);
    e.queue(99);
    assert_eq!(e.next_task(), Some((a, "a")));
    e.complete();
    assert_eq!(e.next_task(), None);
}

#[test]
fn wakeups_enqueue_in_arrival_order() {
    let mut e: Executor<u32> = Executor::new();
    let a = e.spawn(10);
    let b = e.spawn(20);
    let c = e.spawn(30);
    for _ in 0..3 {
        let (_, t) = e.next_task().unwrap();
        assert_eq!(e.suspend(t), None);
    }
    e.queue(c);
    e.queue(a);
    e.queue(b);
    e.queue(a);
    assert_eq!(e.next_task(), Some((c, 30)));
    e.complete();
    assert_eq!(e.next_task(), Some((a, 10)));
    e.complete();
    assert_eq!(e.next_task(), Some((b, 20)));
    e.complete();
    assert_eq!(e.next_task(), None);
}
