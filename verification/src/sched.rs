//! What a call asks of the scheduler once it has done its part.

use vstd::prelude::*;

verus! {

/// What becomes of the calling task.
#[derive(Clone, Copy, Debug, PartialEq, Eq)]
pub enum Resume {
    /// Return to user space at once.
    Return,
    /// Give up the processor; the same attempt is made again when the task runs next.
    Retry,
    /// Block until another task wakes it up.
    Block,
    /// Block until the timer reaches the given time, in milliseconds.
    SleepUntil(usize),
}

/// The result of a system call: the value handed back to user space, the task
/// to wake up if any, and what becomes of the caller.
#[derive(Clone, Copy, Debug, PartialEq, Eq)]
pub struct Outcome {
    /// Value returned to user space.
    pub ret: isize,
    /// Task (index in its process) to put back on the ready queue.
    pub wake: Option<usize>,
    /// What becomes of the calling task.
    pub resume: Resume,
}

} // verus!
