//! Counting semaphores.
//!
//! Besides the count and the wait queue, `up` and `down` keep the per-task
//! bookkeeping (`SemaphoreStatus`) and the process-wide availability of the
//! semaphore up to date, for the deadlock detector.

use crate::sched::Resume;
use crate::task::{set_semaphore_entry, 
    sem_borrowed, sem_hold_more, sem_need_more, set_semaphore_status, tasks_view, SemaphoreStatus,
    TaskControlBlock, TaskView,
};
use std::collections::VecDeque;
use vstd::prelude::*;

verus! {

/// The state of a semaphore.
pub struct SemaphoreInner {
    /// Units left; when negative, minus the number of waiting tasks.
    pub count: isize,
    /// Tasks waiting for a unit, by index in their process, first come first.
    pub wait_queue: VecDeque<usize>,
}

/// A counting semaphore.
pub struct Semaphore {
    /// The semaphore's id in its process.
    pub index: usize,
    /// The state of the semaphore.
    pub inner: SemaphoreInner,
}

/// A semaphore taken as plain values.
#[verifier::ext_equal]
pub struct SemaphoreView {
    pub index: usize,
    pub count: isize,
    pub wait_queue: Seq<usize>,
}

impl View for Semaphore {
    type V = SemaphoreView;

    open spec fn view(&self) -> SemaphoreView {
        SemaphoreView { index: self.index, count: self.inner.count, wait_queue: self.inner.wait_queue@ }
    }
}

/// Entry `id` of task `t`'s semaphore bookkeeping exists.
pub open spec fn sem_entry_ready(tasks: Seq<TaskView>, t: int, id: int) -> bool {
    &&& 0 <= t < tasks.len()
    &&& 0 <= id < tasks[t].semaphore_status.len()
}

/// `up` can run on this state without overflow or fault.
pub open spec fn up_ready(v: SemaphoreView, tasks: Seq<TaskView>, avail: Seq<usize>) -> bool {
    let id = v.index as int;
    &&& v.count < isize::MAX
    &&& (v.count + 1 <= 0 && v.wait_queue.len() > 0) ==> {
        let t = v.wait_queue[0] as int;
        &&& sem_entry_ready(tasks, t, id)
        &&& tasks[t].semaphore_status[id].allocated < usize::MAX
        &&& tasks[t].semaphore_status[id].needed >= 1
    }
    &&& v.count + 1 > 0 ==> 0 <= id < avail.len() && avail[id] < usize::MAX
}

/// New semaphore, tasks and availability after `up`, and the task woken up.
///
/// The count goes up by one. If it is still not positive, the first waiter,
/// if any, leaves the queue, gets the unit and is woken up; otherwise the
/// unit becomes available.
pub open spec fn up_step(v: SemaphoreView, tasks: Seq<TaskView>, avail: Seq<usize>) -> (
    SemaphoreView,
    Seq<TaskView>,
    Seq<usize>,
    Option<usize>,
) {
    let id = v.index as int;
    let count = (v.count + 1) as isize;
    if count <= 0 {
        if v.wait_queue.len() > 0 {
            let t = v.wait_queue[0];
            (
                SemaphoreView { count, wait_queue: v.wait_queue.drop_first(), ..v },
                set_semaphore_status(tasks, t as int, id, sem_borrowed(tasks[t as int].semaphore_status[id])),
                avail,
                Some(t),
            )
        } else {
            (SemaphoreView { count, ..v }, tasks, avail, None)
        }
    } else {
        (SemaphoreView { count, ..v }, tasks, avail.update(id, (avail[id] + 1) as usize), None)
    }
}

/// `down` can run on this state without overflow or fault.
pub open spec fn down_ready(v: SemaphoreView, tasks: Seq<TaskView>, current: int, avail: Seq<usize>) -> bool {
    let id = v.index as int;
    &&& v.count > isize::MIN
    &&& sem_entry_ready(tasks, current, id)
    &&& v.count - 1 < 0 ==> tasks[current].semaphore_status[id].needed < usize::MAX
    &&& v.count - 1 >= 0 ==> {
        &&& 0 <= id < avail.len()
        &&& avail[id] >= 1
        &&& tasks[current].semaphore_status[id].allocated < usize::MAX
    }
}

/// New semaphore, tasks and availability after `down`, and what becomes of the caller.
///
/// The count goes down by one. If it is negative, the caller joins the end of
/// the wait queue, waits for one more unit, and blocks; otherwise the caller
/// takes a unit, which is no longer available.
pub open spec fn down_step(v: SemaphoreView, tasks: Seq<TaskView>, current: int, avail: Seq<usize>) -> (
    SemaphoreView,
    Seq<TaskView>,
    Seq<usize>,
    Resume,
) {
    let id = v.index as int;
    let count = (v.count - 1) as isize;
    let st = tasks[current].semaphore_status[id];
    if count < 0 {
        (
            SemaphoreView { count, wait_queue: v.wait_queue.push(current as usize), ..v },
            set_semaphore_status(tasks, current, id, sem_need_more(st)),
            avail,
            Resume::Block,
        )
    } else {
        (
            SemaphoreView { count, ..v },
            set_semaphore_status(tasks, current, id, sem_hold_more(st)),
            avail.update(id, (avail[id] - 1) as usize),
            Resume::Return,
        )
    }
}

impl Semaphore {
    /// A semaphore with id `id` holding `res_count` units and nobody waiting.
    pub fn new(res_count: usize, id: usize) -> (r: Self)
        ensures
            r@ == (SemaphoreView { index: id, count: res_count as isize, wait_queue: Seq::empty() }),
    {
        Semaphore {
            inner: SemaphoreInner { count: res_count as isize, wait_queue: VecDeque::new() },
            index: id,
        }
    }

    /// Gives back one unit (V operation).
    pub fn up(&mut self, tasks: &mut Vec<TaskControlBlock>, avail: &mut Vec<usize>) -> (r: Option<usize>)
        requires
            up_ready(old(self)@, tasks_view(old(tasks)@), old(avail)@),
        ensures
            (final(self)@, tasks_view(final(tasks)@), final(avail)@, r) == up_step(
                old(self)@,
                tasks_view(old(tasks)@),
                old(avail)@,
            ),
    {
        let id: usize = self.index;
        self.inner.count = self.inner.count + 1;
        if self.inner.count <= 0 {
            match self.inner.wait_queue.pop_front() {
                Some(task) => {
                    let mut st = tasks[task].inner.semaphore_status[id];
                    st.semaphore_borrowed();
                    set_semaphore_entry(tasks, task, id, st);
                    Some(task)
                },
                None => None,
            }
        } else {
            let a: usize = avail[id];
            avail.set(id, a + 1);
            None
        }
    }

    /// Takes one unit, waiting for it if none is left (P operation).
    pub fn down(&mut self, tasks: &mut Vec<TaskControlBlock>, current: usize, avail: &mut Vec<usize>) -> (r:
        Resume)
        requires
            down_ready(old(self)@, tasks_view(old(tasks)@), current as int, old(avail)@),
        ensures
            (final(self)@, tasks_view(final(tasks)@), final(avail)@, r) == down_step(
                old(self)@,
                tasks_view(old(tasks)@),
                current as int,
                old(avail)@,
            ),
    {
        let id: usize = self.index;
        self.inner.count = self.inner.count - 1;
        let mut st = tasks[current].inner.semaphore_status[id];
        if self.inner.count < 0 {
            self.inner.wait_queue.push_back(current);
            st.need_set();
            set_semaphore_entry(tasks, current, id, st);
            Resume::Block
        } else {
            let a: usize = avail[id];
            avail.set(id, a - 1);
            st.allocate_set();
            set_semaphore_entry(tasks, current, id, st);
            Resume::Return
        }
    }
}

/// The count and the wait queue agree: a non-negative count means nobody
/// waits, a negative count `-k` means exactly `k` tasks wait.
pub open spec fn count_matches_queue(v: SemaphoreView) -> bool {
    &&& v.count >= 0 ==> v.wait_queue.len() == 0
    &&& v.count < 0 ==> v.wait_queue.len() == -v.count
}

/// `up` and `down` keep the count and the wait queue in agreement.
pub proof fn lemma_count_matches_queue(v: SemaphoreView, tasks: Seq<TaskView>, current: int, avail: Seq<usize>)
    requires
        count_matches_queue(v),
        isize::MIN < v.count < isize::MAX,
    ensures
        count_matches_queue(up_step(v, tasks, avail).0),
        count_matches_queue(down_step(v, tasks, current, avail).0),
{
}

/// A `down` that gets a unit at once, followed by an `up`, leaves the count,
/// the wait queue and the availability as they were, and wakes nobody; the
/// task's entry records one more unit held.
pub proof fn lemma_down_then_up(v: SemaphoreView, tasks: Seq<TaskView>, current: int, avail: Seq<usize>)
    requires
        v.count >= 1,
        down_ready(v, tasks, current, avail),
    ensures
        ({
            let (v1, t1, a1, r) = down_step(v, tasks, current, avail);
            let (v2, t2, a2, w) = up_step(v1, t1, a1);
            &&& r == Resume::Return
            &&& v2 == v
            &&& a2 == avail
            &&& w is None
            &&& t2 == set_semaphore_status(
                tasks,
                current,
                v.index as int,
                sem_hold_more(tasks[current].semaphore_status[v.index as int]),
            )
        }),
{
    let (v1, t1, a1, r) = down_step(v, tasks, current, avail);
    let (v2, t2, a2, w) = up_step(v1, t1, a1);
    assert(v2 =~= v);
    assert(a2 =~= avail);
}

/// What is available of the semaphore is the positive part of its count.
pub open spec fn avail_matches_count(v: SemaphoreView, avail: Seq<usize>) -> bool {
    &&& 0 <= v.index < avail.len()
    &&& avail[v.index as int] == (if v.count > 0 {
        v.count as usize
    } else {
        0usize
    })
}

/// `up` and `down` keep the count, the wait queue and the availability in
/// agreement: a negative count `-k` means `k` waiters and nothing available,
/// a non-negative count means nobody waits and that many units available.
pub proof fn lemma_semaphore_balance(v: SemaphoreView, tasks: Seq<TaskView>, current: int, avail: Seq<usize>)
    requires
        count_matches_queue(v),
        avail_matches_count(v, avail),
    ensures
        v.count < isize::MAX ==> ({
            let (v1, t1, a1, w) = up_step(v, tasks, avail);
            count_matches_queue(v1) && avail_matches_count(v1, a1)
        }),
        v.count > isize::MIN ==> ({
            let (v1, t1, a1, r) = down_step(v, tasks, current, avail);
            count_matches_queue(v1) && avail_matches_count(v1, a1)
        }),
{
}

} // verus!
