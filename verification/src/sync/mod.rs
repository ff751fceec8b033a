//! Synchronisation primitives: mutexes, semaphores and condition variables.

pub mod condvar;
pub mod mutex;
pub mod semaphore;
