use nara::task::{JoinCell, JoinError};

#[test]
fn join_cell_pending_then_ready() {
    let mut c: JoinCell<u32, &str> = JoinCell::new(3);
    assert_eq!(c.id(), 3);
    assert!(!c.is_filled());
    assert_eq!(c.poll("w1"), None);
    assert_eq!(c.poll("w2"), None);
    // storing the value hands back the latest awaiting waker
    assert_eq!(c.set_result(42), Some("w2"));
    assert!(c.is_filled());
    assert_eq!(c.poll("w3"), Some(42));
    assert_eq!(c.poll("w4"), None);
    assert!(c.is_filled());
}

#[test]
fn join_cell_value_before_any_poll() {
    let mut c: JoinCell<&str, u8> = JoinCell::new(1);
    assert_eq!(c.set_result("foo"), None);
    assert_eq!(c.get_result(), Some("foo"));
    assert_eq!(c.get_result(), None);
}

#[test]
fn join_error_text() {
    assert_eq!(JoinError {}.message(), "JoinError");
}
