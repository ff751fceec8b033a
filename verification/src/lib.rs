//! Synchronisation core of a teaching kernel: per-task resource bookkeeping,
//! spin and blocking mutexes, counting semaphores, condition variables, the
//! deadlock detector and the system calls built on them.

pub mod balance;
pub mod deadlock;
pub mod process;
pub mod properties;
pub mod sched;
pub mod sync;
pub mod syscall;
pub mod task;
