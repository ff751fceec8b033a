//! Condition variables.

use std::collections::VecDeque;
use vstd::prelude::*;

verus! {

/// A condition variable: a queue of tasks waiting to be signalled.
pub struct Condvar {
    /// Waiting tasks, by index in their process, first come first.
    pub wait_queue: VecDeque<usize>,
}

impl View for Condvar {
    type V = Seq<usize>;

    open spec fn view(&self) -> Seq<usize> {
        self.wait_queue@
    }
}

impl Condvar {
    /// A condition variable nobody waits on.
    pub fn new() -> (r: Self)
        ensures
            r@ == Seq::<usize>::empty(),
    {
        Condvar { wait_queue: VecDeque::new() }
    }

    /// Wakes the first waiter, if any: it leaves the queue and is returned.
    pub fn signal(&mut self) -> (r: Option<usize>)
        ensures
            old(self)@.len() == 0 ==> r is None && final(self)@ == old(self)@,
            old(self)@.len() > 0 ==> r == Some(old(self)@[0]) && final(self)@ == old(self)@.drop_first(),
    {
        self.wait_queue.pop_front()
    }

    /// Task `current` starts waiting: it joins the end of the queue.
    pub fn wait(&mut self, current: usize)
        ensures
            final(self)@ == old(self)@.push(current),
    {
        self.wait_queue.push_back(current);
    }
}

} // verus!
