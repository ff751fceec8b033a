//! What the synchronisation system calls do, stated directly in terms of
//! their inputs and results: the units a new semaphore holds, first come
//! first served queues for semaphores, blocking mutexes and condition
//! variables, and what a waiter gets when it is woken.

use crate::process::{mutex_locked, mutex_unlock_step, wf, MutexView, ProcessView};
use crate::sched::Resume;
use crate::syscall::{
    after_condvar_create, after_condvar_signal, after_condvar_wait, after_mutex_create, after_mutex_lock,
    after_semaphore_create, DEADLOCK,
    after_semaphore_down, after_semaphore_up, deadlock_free, first_free, free_from, with_mutex_need,
    with_semaphore_need,
};
use crate::sync::mutex::MutexBlockingView;
use crate::sync::semaphore::{down_ready, up_ready};
use crate::task::{MutexStatus, SemaphoreStatus};
use vstd::prelude::*;

verus! {

/// The lowest free slot at or after `i` lies between `i` and the end; every
/// slot before it is taken, and it is free unless it is the end.
pub proof fn lemma_free_from_bounds<T>(s: Seq<Option<T>>, i: int)
    requires
        0 <= i <= s.len(),
    ensures
        i <= free_from(s, i) <= s.len(),
        free_from(s, i) < s.len() ==> s[free_from(s, i)] is None,
        forall|j: int| i <= j < free_from(s, i) ==> s[j] is Some,
    decreases s.len() - i,
{
    if i < s.len() && s[i] is Some {
        lemma_free_from_bounds(s, i + 1);
    }
}

/// A semaphore created with `res_count` units takes the lowest free slot
/// (a new one at the end when all are taken). Its count is exactly
/// `res_count`, nobody waits on it, exactly `res_count` units are available,
/// and no task holds or waits for any of it. Every other semaphore, and
/// everything else of the process but the tasks' entries for the new slot,
/// stays as it was.
pub proof fn lemma_semaphore_create_units(p: ProcessView, res_count: usize)
    requires
        wf(p),
        p.semaphore_list.len() < isize::MAX,
        res_count <= isize::MAX,
    ensures
        ({
            let q = after_semaphore_create(p, res_count);
            let id = first_free(p.semaphore_list);
            &&& 0 <= id <= p.semaphore_list.len()
            &&& id < p.semaphore_list.len() ==> p.semaphore_list[id] is None
            &&& forall|j: int| 0 <= j < id ==> p.semaphore_list[j] is Some
            &&& id == p.semaphore_list.len() ==> q.semaphore_list.len() == p.semaphore_list.len() + 1
            &&& id < p.semaphore_list.len() ==> q.semaphore_list.len() == p.semaphore_list.len()
            &&& q.semaphore_list[id] is Some
            &&& q.semaphore_list[id]->0.index == id
            &&& q.semaphore_list[id]->0.count == res_count
            &&& q.semaphore_list[id]->0.wait_queue.len() == 0
            &&& q.semaphore_avail[id] == res_count
            &&& q.tasks.len() == p.tasks.len()
            &&& forall|t: int|
                0 <= t < q.tasks.len() ==> #[trigger] q.tasks[t].semaphore_status[id] == (SemaphoreStatus {
                    allocated: 0,
                    needed: 0,
                })
            &&& forall|t: int, j: int|
                0 <= t < q.tasks.len() && 0 <= j < p.semaphore_list.len() && j != id
                    ==> #[trigger] q.tasks[t].semaphore_status[j] == p.tasks[t].semaphore_status[j]
            &&& forall|t: int| 0 <= t < q.tasks.len() ==> #[trigger] q.tasks[t].mutex_status == p.tasks[t].mutex_status
            &&& forall|j: int|
                0 <= j < p.semaphore_list.len() && j != id ==> #[trigger] q.semaphore_list[j] == p.semaphore_list[j]
                    && q.semaphore_avail[j] == p.semaphore_avail[j]
            &&& q.mutex_list == p.mutex_list
            &&& q.mutex_avail == p.mutex_avail
            &&& q.condvar_list == p.condvar_list
        }),
{
    lemma_free_from_bounds(p.semaphore_list, 0);
    let q = after_semaphore_create(p, res_count);
    let id = first_free(p.semaphore_list);
    assert forall|t: int, j: int|
        0 <= t < q.tasks.len() && 0 <= j < p.semaphore_list.len() && j != id
            implies #[trigger] q.tasks[t].semaphore_status[j] == p.tasks[t].semaphore_status[j] by {
        assert(p.tasks[t].semaphore_status.len() == p.semaphore_list.len());
    }
    assert forall|t: int| 0 <= t < q.tasks.len() implies #[trigger] q.tasks[t].semaphore_status[id] == (
    SemaphoreStatus { allocated: 0, needed: 0 }) by {
        assert(p.tasks[t].semaphore_status.len() == p.semaphore_list.len());
    }
}

/// `up` on a semaphore that tasks wait on wakes the first of them. The
/// waiter leaves the front of the queue, the others keep their order, and
/// its entry records one more unit held and one less waited for; the count
/// goes up by one and nothing becomes available. No other entry, semaphore
/// or availability changes.
pub proof fn lemma_up_wakes_first_waiter(p: ProcessView, id: int)
    requires
        wf(p),
        0 <= id < p.semaphore_list.len(),
        p.semaphore_list[id] is Some,
        p.semaphore_list[id]->0.count < 0,
        p.semaphore_list[id]->0.wait_queue.len() > 0,
        up_ready(p.semaphore_list[id]->0, p.tasks, p.semaphore_avail),
    ensures
        ({
            let s = p.semaphore_list[id]->0;
            let (q, out) = after_semaphore_up(p, id);
            let w = s.wait_queue[0] as int;
            &&& 0 <= w < p.tasks.len()
            &&& out.wake == Some(s.wait_queue[0])
            &&& out.ret == 0
            &&& out.resume == Resume::Return
            &&& q.semaphore_list.len() == p.semaphore_list.len()
            &&& q.semaphore_list[id] is Some
            &&& q.semaphore_list[id]->0.index == s.index
            &&& q.semaphore_list[id]->0.count == s.count + 1
            &&& q.semaphore_list[id]->0.wait_queue == s.wait_queue.subrange(1, s.wait_queue.len() as int)
            &&& q.tasks.len() == p.tasks.len()
            &&& q.tasks[w].semaphore_status[id].allocated == p.tasks[w].semaphore_status[id].allocated + 1
            &&& q.tasks[w].semaphore_status[id].needed == p.tasks[w].semaphore_status[id].needed - 1
            &&& forall|t: int, j: int|
                0 <= t < p.tasks.len() && 0 <= j < p.semaphore_list.len() && (t != w || j != id)
                    ==> #[trigger] q.tasks[t].semaphore_status[j] == p.tasks[t].semaphore_status[j]
            &&& forall|t: int| 0 <= t < p.tasks.len() ==> #[trigger] q.tasks[t].mutex_status == p.tasks[t].mutex_status
            &&& q.semaphore_avail == p.semaphore_avail
            &&& forall|j: int| 0 <= j < p.semaphore_list.len() && j != id ==> #[trigger] q.semaphore_list[j] == p.semaphore_list[j]
        }),
{
    let s = p.semaphore_list[id]->0;
    let w = s.wait_queue[0] as int;
    assert(s.index == id);
    assert(w < p.tasks.len());
    let (q, out) = after_semaphore_up(p, id);
    assert(q.semaphore_list[id]->0.wait_queue =~= s.wait_queue.subrange(1, s.wait_queue.len() as int));
    assert forall|t: int, j: int|
        0 <= t < p.tasks.len() && 0 <= j < p.semaphore_list.len() && (t != w || j != id)
            implies #[trigger] q.tasks[t].semaphore_status[j] == p.tasks[t].semaphore_status[j] by {
        assert(p.tasks[t].semaphore_status.len() == p.semaphore_list.len());
    }
}

/// `up` on a semaphore nobody waits on makes one more unit available: the
/// count and the availability go up by one, nobody is woken and no task's
/// entry changes.
pub proof fn lemma_up_without_waiters(p: ProcessView, id: int)
    requires
        wf(p),
        0 <= id < p.semaphore_list.len(),
        p.semaphore_list[id] is Some,
        p.semaphore_list[id]->0.count >= 0,
        up_ready(p.semaphore_list[id]->0, p.tasks, p.semaphore_avail),
    ensures
        ({
            let s = p.semaphore_list[id]->0;
            let (q, out) = after_semaphore_up(p, id);
            &&& out.wake is None
            &&& out.ret == 0
            &&& out.resume == Resume::Return
            &&& q.semaphore_list.len() == p.semaphore_list.len()
            &&& q.semaphore_list[id] is Some
            &&& q.semaphore_list[id]->0.index == s.index
            &&& q.semaphore_list[id]->0.count == s.count + 1
            &&& q.semaphore_list[id]->0.wait_queue == s.wait_queue
            &&& q.semaphore_avail.len() == p.semaphore_avail.len()
            &&& q.semaphore_avail[id] == p.semaphore_avail[id] + 1
            &&& forall|j: int| 0 <= j < p.semaphore_avail.len() && j != id ==> #[trigger] q.semaphore_avail[j] == p.semaphore_avail[j]
            &&& q.tasks == p.tasks
        }),
{
    assert(p.semaphore_list[id]->0.index == id);
}

/// A `down` that goes ahead on a semaphore with no unit left blocks the
/// caller at the end of the wait queue: the new queue is the old one
/// followed by the caller, so waiters are served first come first served.
/// The count goes down by one, the caller's entry records one more unit
/// waited for, and nothing else changes.
pub proof fn lemma_down_blocks_at_end(p: ProcessView, t: int, id: int)
    requires
        wf(p),
        0 <= t < p.tasks.len() <= usize::MAX,
        0 <= id < p.semaphore_list.len(),
        p.semaphore_list[id] is Some,
        p.semaphore_list[id]->0.count <= 0,
        !(p.deadlock_detect && !deadlock_free(with_semaphore_need(p, t, id))),
        down_ready(p.semaphore_list[id]->0, p.tasks, t, p.semaphore_avail),
    ensures
        ({
            let s = p.semaphore_list[id]->0;
            let (q, out) = after_semaphore_down(p, t, id);
            let n = s.wait_queue.len() as int;
            &&& out.resume == Resume::Block
            &&& out.ret == 0
            &&& out.wake is None
            &&& q.semaphore_list[id] is Some
            &&& q.semaphore_list[id]->0.count == s.count - 1
            &&& q.semaphore_list[id]->0.wait_queue.len() == n + 1
            &&& q.semaphore_list[id]->0.wait_queue.subrange(0, n) == s.wait_queue
            &&& q.semaphore_list[id]->0.wait_queue[n] == t
            &&& q.tasks.len() == p.tasks.len()
            &&& q.tasks[t].semaphore_status[id].needed == p.tasks[t].semaphore_status[id].needed + 1
            &&& q.tasks[t].semaphore_status[id].allocated == p.tasks[t].semaphore_status[id].allocated
            &&& forall|u: int, j: int|
                0 <= u < p.tasks.len() && 0 <= j < p.semaphore_list.len() && (u != t || j != id)
                    ==> #[trigger] q.tasks[u].semaphore_status[j] == p.tasks[u].semaphore_status[j]
            &&& forall|u: int| 0 <= u < p.tasks.len() ==> #[trigger] q.tasks[u].mutex_status == p.tasks[u].mutex_status
            &&& q.semaphore_avail == p.semaphore_avail
            &&& forall|j: int| 0 <= j < p.semaphore_list.len() && j != id ==> #[trigger] q.semaphore_list[j] == p.semaphore_list[j]
        }),
{
    let s = p.semaphore_list[id]->0;
    assert(s.index == id);
    let (q, out) = after_semaphore_down(p, t, id);
    assert(q.semaphore_list[id]->0.wait_queue.subrange(0, s.wait_queue.len() as int) =~= s.wait_queue);
    assert forall|u: int, j: int|
        0 <= u < p.tasks.len() && 0 <= j < p.semaphore_list.len() && (u != t || j != id)
            implies #[trigger] q.tasks[u].semaphore_status[j] == p.tasks[u].semaphore_status[j] by {
        assert(p.tasks[u].semaphore_status.len() == p.semaphore_list.len());
    }
}

/// A `down` that goes ahead on a semaphore with a unit left takes it at
/// once: the caller returns holding one more unit, the count and the
/// availability go down by one, and the wait queue stays as it was.
pub proof fn lemma_down_takes_unit(p: ProcessView, t: int, id: int)
    requires
        wf(p),
        0 <= t < p.tasks.len() <= usize::MAX,
        0 <= id < p.semaphore_list.len(),
        p.semaphore_list[id] is Some,
        p.semaphore_list[id]->0.count > 0,
        !(p.deadlock_detect && !deadlock_free(with_semaphore_need(p, t, id))),
        down_ready(p.semaphore_list[id]->0, p.tasks, t, p.semaphore_avail),
    ensures
        ({
            let s = p.semaphore_list[id]->0;
            let (q, out) = after_semaphore_down(p, t, id);
            &&& out.resume == Resume::Return
            &&& out.ret == 0
            &&& out.wake is None
            &&& q.semaphore_list[id] is Some
            &&& q.semaphore_list[id]->0.count == s.count - 1
            &&& q.semaphore_list[id]->0.wait_queue == s.wait_queue
            &&& q.semaphore_avail[id] == p.semaphore_avail[id] - 1
            &&& q.tasks.len() == p.tasks.len()
            &&& q.tasks[t].semaphore_status[id].allocated == p.tasks[t].semaphore_status[id].allocated + 1
            &&& q.tasks[t].semaphore_status[id].needed == p.tasks[t].semaphore_status[id].needed
        }),
{
    assert(p.semaphore_list[id]->0.index == id);
}

/// Locking a blocking mutex that is taken, when the request goes ahead,
/// blocks the caller at the end of the mutex's wait queue: the new queue is
/// the old one followed by the caller, so the mutex is handed over in
/// arrival order. The mutex stays taken, the caller's entry records that it
/// holds none and waits for one, and nothing becomes available.
pub proof fn lemma_blocking_lock_waits_at_end(p: ProcessView, t: int, id: int)
    requires
        wf(p),
        0 <= t < p.tasks.len() <= usize::MAX,
        0 <= id < p.mutex_list.len(),
        p.mutex_list[id] matches Some(MutexView::Blocking(b)) && b.locked,
        !(p.deadlock_detect && !deadlock_free(with_mutex_need(p, t, id))),
    ensures
        ({
            let b = p.mutex_list[id]->0->Blocking_0;
            let (q, out) = after_mutex_lock(p, t, id);
            let n = b.wait_queue.len() as int;
            &&& out.resume == Resume::Block
            &&& out.ret == 0
            &&& out.wake is None
            &&& q.mutex_list[id] matches Some(MutexView::Blocking(b2)) && {
                &&& b2.locked
                &&& b2.index == b.index
                &&& b2.wait_queue.len() == n + 1
                &&& b2.wait_queue.subrange(0, n) == b.wait_queue
                &&& b2.wait_queue[n] == t
            }
            &&& q.tasks.len() == p.tasks.len()
            &&& q.tasks[t].mutex_status[id] == (MutexStatus { allocated: 0, needed: 1 })
            &&& q.mutex_avail == p.mutex_avail
            &&& forall|u: int, j: int|
                0 <= u < p.tasks.len() && 0 <= j < p.mutex_list.len() && (u != t || j != id)
                    ==> #[trigger] q.tasks[u].mutex_status[j] == p.tasks[u].mutex_status[j]
        }),
{
    let b = p.mutex_list[id]->0->Blocking_0;
    assert(b.index == id);
    let (q, out) = after_mutex_lock(p, t, id);
    let b2 = q.mutex_list[id]->0->Blocking_0;
    assert(b2.wait_queue.subrange(0, b.wait_queue.len() as int) =~= b.wait_queue);
    assert forall|u: int, j: int|
        0 <= u < p.tasks.len() && 0 <= j < p.mutex_list.len() && (u != t || j != id)
            implies #[trigger] q.tasks[u].mutex_status[j] == p.tasks[u].mutex_status[j] by {
        assert(p.tasks[u].mutex_status.len() == p.mutex_list.len());
    }
}

/// Unlocking a taken blocking mutex that tasks wait on hands it to the
/// first of them: it leaves the front of the queue, the others keep their
/// order, its entry records the mutex held and no longer waited for, and it
/// is woken. The mutex stays taken and nothing becomes available; the
/// caller's entry no longer records it as held.
pub proof fn lemma_blocking_unlock_hands_to_first(p: ProcessView, t: int, id: int)
    requires
        wf(p),
        0 <= t < p.tasks.len(),
        0 <= id < p.mutex_list.len(),
        p.mutex_list[id] matches Some(MutexView::Blocking(b)) && b.locked && b.wait_queue.len() > 0,
    ensures
        ({
            let b = p.mutex_list[id]->0->Blocking_0;
            let h = b.wait_queue[0] as int;
            let (q, w) = mutex_unlock_step(p, t, id);
            &&& w == Some(b.wait_queue[0])
            &&& q.mutex_list[id] matches Some(MutexView::Blocking(b2)) && {
                &&& b2.locked
                &&& b2.index == b.index
                &&& b2.wait_queue == b.wait_queue.subrange(1, b.wait_queue.len() as int)
            }
            &&& q.tasks.len() == p.tasks.len()
            &&& q.tasks[h].mutex_status[id] == (MutexStatus { allocated: 1, needed: 0 })
            &&& h != t ==> q.tasks[t].mutex_status[id] == (MutexStatus {
                allocated: 0,
                needed: p.tasks[t].mutex_status[id].needed,
            })
            &&& q.mutex_avail == p.mutex_avail
            &&& forall|u: int, j: int|
                0 <= u < p.tasks.len() && 0 <= j < p.mutex_list.len() && u != t && u != h
                    ==> #[trigger] q.tasks[u].mutex_status[j] == p.tasks[u].mutex_status[j]
        }),
{
    let b = p.mutex_list[id]->0->Blocking_0;
    assert(b.index == id);
    assert(b.wait_queue[0] < p.tasks.len());
    let (q, w) = mutex_unlock_step(p, t, id);
    let b2 = q.mutex_list[id]->0->Blocking_0;
    assert(b2.wait_queue =~= b.wait_queue.subrange(1, b.wait_queue.len() as int));
}

/// Signalling a condition variable that tasks wait on wakes the one at the
/// front of its queue, the one that has waited longest, and removes exactly
/// that one; the others keep their order. With nobody waiting, nothing
/// happens. Nothing but that queue changes.
pub proof fn lemma_condvar_signal_wakes_first(p: ProcessView, id: int)
    requires
        0 <= id < p.condvar_list.len(),
        p.condvar_list[id] is Some,
    ensures
        ({
            let w = p.condvar_list[id]->0;
            let (q, out) = after_condvar_signal(p, id);
            &&& out.ret == 0
            &&& out.resume == Resume::Return
            &&& w.len() > 0 ==> out.wake == Some(w[0]) && q.condvar_list[id] == Some(
                w.subrange(1, w.len() as int),
            )
            &&& w.len() == 0 ==> out.wake is None && q.condvar_list[id] == Some(w)
            &&& q.condvar_list.len() == p.condvar_list.len()
            &&& forall|j: int| 0 <= j < p.condvar_list.len() && j != id ==> #[trigger] q.condvar_list[j] == p.condvar_list[j]
            &&& q.tasks == p.tasks
            &&& q.mutex_list == p.mutex_list
            &&& q.semaphore_list == p.semaphore_list
            &&& q.mutex_avail == p.mutex_avail
            &&& q.semaphore_avail == p.semaphore_avail
        }),
{
    let w = p.condvar_list[id]->0;
    let (q, out) = after_condvar_signal(p, id);
    if w.len() > 0 {
        assert(q.condvar_list[id]->0 =~= w.subrange(1, w.len() as int));
    }
}

/// Waiting on a condition variable puts the caller at the end of its queue:
/// the new queue is the old one followed by the caller, and the caller blocks.
pub proof fn lemma_condvar_wait_joins_end(p: ProcessView, t: int, cid: int, mid: int)
    requires
        wf(p),
        0 <= t < p.tasks.len() <= usize::MAX,
        0 <= cid < p.condvar_list.len(),
        p.condvar_list[cid] is Some,
        0 <= mid < p.mutex_list.len(),
        p.mutex_list[mid] is Some,
    ensures
        ({
            let w = p.condvar_list[cid]->0;
            let (q, out) = after_condvar_wait(p, t, cid, mid);
            let n = w.len() as int;
            &&& out.resume == Resume::Block
            &&& out.ret == 0
            &&& q.condvar_list[cid] is Some
            &&& q.condvar_list[cid]->0.len() == n + 1
            &&& q.condvar_list[cid]->0.subrange(0, n) == w
            &&& q.condvar_list[cid]->0[n] == t
        }),
{
    let w = p.condvar_list[cid]->0;
    let (q, out) = after_condvar_wait(p, t, cid, mid);
    assert(q.condvar_list[cid]->0.subrange(0, w.len() as int) =~= w);
}

/// A mutex created by a process takes the lowest free slot (a new one at the
/// end when all are taken). It is of the kind asked for, free, carries its
/// slot as id, nobody waits on it, it is available, and no task holds or
/// waits for it. Every other mutex, and the semaphores and condition
/// variables, stay as they were.
pub proof fn lemma_mutex_create_fresh(p: ProcessView, blocking: bool)
    requires
        wf(p),
        p.mutex_list.len() < isize::MAX,
    ensures
        ({
            let q = after_mutex_create(p, blocking);
            let id = first_free(p.mutex_list);
            &&& 0 <= id <= p.mutex_list.len()
            &&& id < p.mutex_list.len() ==> p.mutex_list[id] is None
            &&& forall|j: int| 0 <= j < id ==> p.mutex_list[j] is Some
            &&& id == p.mutex_list.len() ==> q.mutex_list.len() == p.mutex_list.len() + 1
            &&& id < p.mutex_list.len() ==> q.mutex_list.len() == p.mutex_list.len()
            &&& blocking ==> (q.mutex_list[id] matches Some(MutexView::Blocking(b)) && !b.locked && b.index == id
                && b.wait_queue.len() == 0)
            &&& !blocking ==> (q.mutex_list[id] matches Some(MutexView::Spin(m)) && !m.locked && m.index == id)
            &&& q.mutex_avail[id] == 1
            &&& q.tasks.len() == p.tasks.len()
            &&& forall|t: int|
                0 <= t < q.tasks.len() ==> #[trigger] q.tasks[t].mutex_status[id] == (MutexStatus {
                    allocated: 0,
                    needed: 0,
                })
            &&& forall|t: int, j: int|
                0 <= t < q.tasks.len() && 0 <= j < p.mutex_list.len() && j != id
                    ==> #[trigger] q.tasks[t].mutex_status[j] == p.tasks[t].mutex_status[j]
            &&& forall|t: int|
                0 <= t < q.tasks.len() ==> #[trigger] q.tasks[t].semaphore_status == p.tasks[t].semaphore_status
            &&& forall|j: int|
                0 <= j < p.mutex_list.len() && j != id ==> #[trigger] q.mutex_list[j] == p.mutex_list[j]
                    && q.mutex_avail[j] == p.mutex_avail[j]
            &&& q.semaphore_list == p.semaphore_list
            &&& q.semaphore_avail == p.semaphore_avail
            &&& q.condvar_list == p.condvar_list
        }),
{
    lemma_free_from_bounds(p.mutex_list, 0);
    let q = after_mutex_create(p, blocking);
    let id = first_free(p.mutex_list);
    assert forall|t: int, j: int|
        0 <= t < q.tasks.len() && 0 <= j < p.mutex_list.len() && j != id
            implies #[trigger] q.tasks[t].mutex_status[j] == p.tasks[t].mutex_status[j] by {
        assert(p.tasks[t].mutex_status.len() == p.mutex_list.len());
    }
    assert forall|t: int| 0 <= t < q.tasks.len() implies #[trigger] q.tasks[t].mutex_status[id] == (MutexStatus {
        allocated: 0,
        needed: 0,
    }) by {
        assert(p.tasks[t].mutex_status.len() == p.mutex_list.len());
    }
}

/// A condition variable created by a process takes the lowest free slot (a
/// new one at the end when all are taken) and nobody waits on it; every
/// other slot and the rest of the process stay as they were.
pub proof fn lemma_condvar_create_empty(p: ProcessView)
    ensures
        ({
            let q = after_condvar_create(p);
            let id = first_free(p.condvar_list);
            &&& 0 <= id <= p.condvar_list.len()
            &&& id < p.condvar_list.len() ==> p.condvar_list[id] is None
            &&& forall|j: int| 0 <= j < id ==> p.condvar_list[j] is Some
            &&& id == p.condvar_list.len() ==> q.condvar_list.len() == p.condvar_list.len() + 1
            &&& id < p.condvar_list.len() ==> q.condvar_list.len() == p.condvar_list.len()
            &&& q.condvar_list[id] == Some(Seq::<usize>::empty())
            &&& forall|j: int| 0 <= j < p.condvar_list.len() && j != id ==> #[trigger] q.condvar_list[j] == p.condvar_list[j]
            &&& q.tasks == p.tasks
            &&& q.mutex_list == p.mutex_list
            &&& q.semaphore_list == p.semaphore_list
        }),
{
    lemma_free_from_bounds(p.condvar_list, 0);
}

/// Locking a free mutex, when the request goes ahead, takes it at once: the
/// caller returns, the mutex is taken (its kind, id and wait queue
/// unchanged), the caller's entry records it held and no longer waited for,
/// and it is no longer available.
pub proof fn lemma_lock_free_mutex(p: ProcessView, t: int, id: int)
    requires
        wf(p),
        0 <= t < p.tasks.len(),
        0 <= id < p.mutex_list.len(),
        p.mutex_list[id] is Some,
        !mutex_locked(p.mutex_list[id]->0),
        !(p.deadlock_detect && !deadlock_free(with_mutex_need(p, t, id))),
    ensures
        ({
            let m = p.mutex_list[id]->0;
            let (q, out) = after_mutex_lock(p, t, id);
            &&& out.resume == Resume::Return
            &&& out.ret == 0
            &&& out.wake is None
            &&& q.mutex_list[id] is Some
            &&& mutex_locked(q.mutex_list[id]->0)
            &&& (m matches MutexView::Spin(a) ==> (q.mutex_list[id]->0 matches MutexView::Spin(a2) && a2.index
                == a.index))
            &&& (m matches MutexView::Blocking(a) ==> (q.mutex_list[id]->0 matches MutexView::Blocking(a2)
                && a2.index == a.index && a2.wait_queue == a.wait_queue))
            &&& q.tasks.len() == p.tasks.len()
            &&& q.tasks[t].mutex_status[id] == (MutexStatus { allocated: 1, needed: 0 })
            &&& q.mutex_avail[id] == 0
            &&& forall|j: int| 0 <= j < p.mutex_list.len() && j != id ==> #[trigger] q.mutex_avail[j] == p.mutex_avail[j]
        }),
{
    assert(match p.mutex_list[id]->0 {
        MutexView::Spin(a) => a.index == id,
        MutexView::Blocking(a) => a.index == id,
    });
}

/// Locking a spinning mutex that is taken, when the request goes ahead,
/// leaves the mutex as it is: the caller is told to retry, and its entry
/// records that it holds none and waits for one.
pub proof fn lemma_spin_lock_taken_retries(p: ProcessView, t: int, id: int)
    requires
        wf(p),
        0 <= t < p.tasks.len(),
        0 <= id < p.mutex_list.len(),
        p.mutex_list[id] matches Some(MutexView::Spin(m)) && m.locked,
        !(p.deadlock_detect && !deadlock_free(with_mutex_need(p, t, id))),
    ensures
        ({
            let (q, out) = after_mutex_lock(p, t, id);
            &&& out.resume == Resume::Retry
            &&& out.ret == 0
            &&& q.mutex_list == p.mutex_list
            &&& q.mutex_avail == p.mutex_avail
            &&& q.tasks.len() == p.tasks.len()
            &&& q.tasks[t].mutex_status[id] == (MutexStatus { allocated: 0, needed: 1 })
        }),
{
    let (q, out) = after_mutex_lock(p, t, id);
    assert(p.mutex_list[id]->0->Spin_0.index == id);
    assert(q.mutex_list =~= p.mutex_list);
}

/// Unlocking a mutex nobody waits on frees it: it is no longer taken, it is
/// available again, nobody is woken, and the caller's entry no longer
/// records it as held.
pub proof fn lemma_unlock_frees(p: ProcessView, t: int, id: int)
    requires
        wf(p),
        0 <= t < p.tasks.len(),
        0 <= id < p.mutex_list.len(),
        p.mutex_list[id] is Some,
        p.mutex_list[id]->0 matches MutexView::Blocking(b) ==> b.locked && b.wait_queue.len() == 0,
    ensures
        ({
            let (q, w) = mutex_unlock_step(p, t, id);
            &&& w is None
            &&& q.mutex_list[id] is Some
            &&& !mutex_locked(q.mutex_list[id]->0)
            &&& q.mutex_avail[id] == 1
            &&& q.tasks.len() == p.tasks.len()
            &&& q.tasks[t].mutex_status[id] == (MutexStatus {
                allocated: 0,
                needed: p.tasks[t].mutex_status[id].needed,
            })
        }),
{
    assert(match p.mutex_list[id]->0 {
        MutexView::Spin(a) => a.index == id,
        MutexView::Blocking(a) => a.index == id,
    });
}

/// A lock request refused as a possible deadlock returns `DEADLOCK` at once
/// and changes nothing but the caller's entry, which records it waiting for
/// the mutex.
pub proof fn lemma_refused_lock(p: ProcessView, t: int, id: int)
    requires
        wf(p),
        0 <= t < p.tasks.len(),
        0 <= id < p.mutex_list.len(),
        p.mutex_list[id] is Some,
        p.deadlock_detect && !deadlock_free(with_mutex_need(p, t, id)),
    ensures
        ({
            let (q, out) = after_mutex_lock(p, t, id);
            &&& out.ret == DEADLOCK
            &&& out.resume == Resume::Return
            &&& out.wake is None
            &&& q.mutex_list == p.mutex_list
            &&& q.mutex_avail == p.mutex_avail
            &&& q.tasks.len() == p.tasks.len()
            &&& q.tasks[t].mutex_status[id] == (MutexStatus {
                allocated: p.tasks[t].mutex_status[id].allocated,
                needed: 1,
            })
        }),
{
}

/// A `down` refused as a possible deadlock returns `DEADLOCK` at once and
/// leaves the process exactly as it was.
pub proof fn lemma_refused_down(p: ProcessView, t: int, id: int)
    requires
        p.deadlock_detect && !deadlock_free(with_semaphore_need(p, t, id)),
    ensures
        ({
            let (q, out) = after_semaphore_down(p, t, id);
            &&& out.ret == DEADLOCK
            &&& out.resume == Resume::Return
            &&& out.wake is None
            &&& q == p
        }),
{
}

} // verus!
