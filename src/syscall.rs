//! The arithmetic around the system calls the runtime makes.
use vstd::prelude::*;

verus! {

/// The count a system call returned, or `None` where it signalled failure:
/// poll(2), pipe(2) and write(2) return -1 on failure and a count otherwise.
pub fn result(val: isize) -> (r: Option<usize>)
    ensures
        val < 0 ==> r is None,
        val >= 0 ==> r == Some(val as usize),
{
    if val < 0 {
        None
    } else {
        Some(val as usize)
    }
}

/// The timeout to hand poll(2), in milliseconds, for a wait of at most
/// `timeout` nanoseconds: whole milliseconds, cut to the largest `int`; -1
/// (wait for ever) for no timeout.
pub fn poll_timeout_ms(timeout: Option<u64>) -> (r: i32)
    ensures
        timeout is None ==> r == -1,
        timeout matches Some(ns) ==> r as int == if ns / 1_000_000 > i32::MAX as u64 {
            i32::MAX as int
        } else {
            (ns / 1_000_000) as int
        },
{
    match timeout {
        None => -1,
        Some(ns) => {
            let ms = ns / 1_000_000;
            if ms > i32::MAX as u64 {
                i32::MAX
            } else {
                ms as i32
            }
        },
    }
}

} // verus!
