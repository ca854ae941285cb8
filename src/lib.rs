//! A single-threaded cooperative async runtime, reduced to the state machines
//! that drive it: the scheduler, the poll(2) reactor's bookkeeping, the timer,
//! the completion cell behind a join handle, the executor-local channel and the
//! byte framing of the cross-thread wake pipe.
//!
//! Every structure here is plain data owned by its caller. Wakers are a type
//! parameter: whatever must be woken is handed back to the caller, which
//! invokes it.
use vstd::prelude::*;

pub mod executor;
pub mod mpsc_unsync;
pub mod reactor;
pub mod syscall;
pub mod task;
pub mod time;
pub mod wake_pipe;
