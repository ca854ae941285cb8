use nara::syscall::{poll_timeout_ms, result};

#[test]
fn result_maps_failure() {
    assert_eq!(result(-1), None);
    assert_eq!(result(0), Some(0));
    assert_eq!(result(17), Some(17));
}

#[test]
fn timeout_none_waits_forever() {
    assert_eq!(poll_timeout_ms(None), -1);
}

#[test]
fn timeout_in_whole_milliseconds() {
    assert_eq!(poll_timeout_ms(Some(0)), 0);
    assert_eq!(poll_timeout_ms(Some(999_999)), 0);
    assert_eq!(poll_timeout_ms(Some(1_500_000)), 1);
    assert_eq!(poll_timeout_ms(Some(1_000_000_000)), 1000);
}

#[test]
fn timeout_clamped_to_int_max() {
    assert_eq!(poll_timeout_ms(Some(u64::MAX)), i32::MAX);
}
