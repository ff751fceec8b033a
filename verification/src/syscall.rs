//! The synchronisation system calls of a process, and the deadlock check
//! they run before granting a lock or a semaphore unit.
//!
//! Each call takes the process and, where it matters, the calling task's
//! index in it. It returns what user space gets back and what the scheduler
//! has to do (`Outcome`): the scheduler itself lives outside this library.

use crate::balance::{
    balanced, lemma_down_balance, lemma_mutex_create_balance, lemma_same_holdings_balance,
    lemma_semaphore_create_balance, lemma_up_balance, not_first_waiter,
};
use crate::deadlock::{
    is_safe, is_safe_state, lemma_more_free_less_need_stays_safe, rows, totals_fit, totals_in_range,
};
use crate::process::{
    mutex_locked, mutex_lock_step, mutex_unlock_ready, mutex_unlock_step, wf, AnyMutex, MutexView,
    ProcessControlBlockInner, ProcessView,
};
use crate::sched::{Outcome, Resume};
use crate::sync::condvar::Condvar;
use crate::sync::mutex::{held_by, MutexBlocking, MutexBlockingView, MutexSpin};
use crate::sync::semaphore::{down_ready, down_step, up_ready, up_step, Semaphore, SemaphoreView};
use crate::task::{
    clear_mutex_slots, clear_mutex_status, clear_semaphore_slots, clear_semaphore_status,
    grow_mutex_slots, grow_mutex_status, grow_semaphore_slots, grow_semaphore_status, sem_need_more,
    set_mutex_entry, set_mutex_status, set_semaphore_entry, set_semaphore_status, MutexStatus,
    SemaphoreStatus,
};
use vstd::prelude::*;

verus! {

/// Value returned to user space when a request is refused because granting
/// it could deadlock.
pub const DEADLOCK: isize = -0xdead;

// ------------------------------------------------------------------------
// Deadlock check
// ------------------------------------------------------------------------

/// What each task holds of each mutex.
pub open spec fn mutex_alloc(p: ProcessView) -> Seq<Seq<usize>> {
    Seq::new(
        p.tasks.len(),
        |t: int| Seq::new(p.mutex_list.len(), |r: int| p.tasks[t].mutex_status[r].allocated),
    )
}

/// What each task waits for of each mutex.
pub open spec fn mutex_need(p: ProcessView) -> Seq<Seq<usize>> {
    Seq::new(
        p.tasks.len(),
        |t: int| Seq::new(p.mutex_list.len(), |r: int| p.tasks[t].mutex_status[r].needed),
    )
}

/// What each task holds of each semaphore.
pub open spec fn semaphore_alloc(p: ProcessView) -> Seq<Seq<usize>> {
    Seq::new(
        p.tasks.len(),
        |t: int| Seq::new(p.semaphore_list.len(), |r: int| p.tasks[t].semaphore_status[r].allocated),
    )
}

/// What each task waits for of each semaphore.
pub open spec fn semaphore_need(p: ProcessView) -> Seq<Seq<usize>> {
    Seq::new(
        p.tasks.len(),
        |t: int| Seq::new(p.semaphore_list.len(), |r: int| p.tasks[t].semaphore_status[r].needed),
    )
}

/// Neither the mutexes nor the semaphores of `p` can deadlock: for each kind
/// of resource, some order runs all tasks to completion.
pub open spec fn deadlock_free(p: ProcessView) -> bool {
    &&& is_safe_state(p.mutex_avail, mutex_alloc(p), mutex_need(p), p.mutex_list.len() as int)
    &&& is_safe_state(
        p.semaphore_avail,
        semaphore_alloc(p),
        semaphore_need(p),
        p.semaphore_list.len() as int,
    )
}

/// The deadlock check can add up its totals within `usize`.
pub open spec fn detection_in_range(p: ProcessView) -> bool {
    &&& totals_fit(p.mutex_avail, mutex_alloc(p), p.mutex_list.len() as int)
    &&& totals_fit(p.semaphore_avail, semaphore_alloc(p), p.semaphore_list.len() as int)
}

/// A deadlock-free process stays deadlock-free when every resource has at
/// least as much available and every task waits for no more, what each task
/// holds being the same.
pub proof fn lemma_deadlock_free_monotone(p: ProcessView, q: ProcessView)
    requires
        wf(p),
        wf(q),
        q.tasks.len() == p.tasks.len(),
        q.mutex_list.len() == p.mutex_list.len(),
        q.semaphore_list.len() == p.semaphore_list.len(),
        forall|r: int| 0 <= r < p.mutex_list.len() ==> p.mutex_avail[r] <= #[trigger] q.mutex_avail[r],
        forall|r: int| 0 <= r < p.semaphore_list.len() ==> p.semaphore_avail[r] <= #[trigger] q.semaphore_avail[r],
        forall|t: int, r: int|
            0 <= t < p.tasks.len() && 0 <= r < p.mutex_list.len() ==> {
                &&& (#[trigger] q.tasks[t].mutex_status[r]).allocated == p.tasks[t].mutex_status[r].allocated
                &&& q.tasks[t].mutex_status[r].needed <= p.tasks[t].mutex_status[r].needed
            },
        forall|t: int, r: int|
            0 <= t < p.tasks.len() && 0 <= r < p.semaphore_list.len() ==> {
                &&& (#[trigger] q.tasks[t].semaphore_status[r]).allocated == p.tasks[t].semaphore_status[r].allocated
                &&& q.tasks[t].semaphore_status[r].needed <= p.tasks[t].semaphore_status[r].needed
            },
        deadlock_free(p),
    ensures
        deadlock_free(q),
{
    let n = p.tasks.len() as int;
    assert forall|t: int| 0 <= t < n implies #[trigger] mutex_alloc(q)[t] == mutex_alloc(p)[t] by {
        assert(mutex_alloc(q)[t] =~= mutex_alloc(p)[t]);
    }
    assert(mutex_alloc(q) =~= mutex_alloc(p));
    assert forall|t: int| 0 <= t < n implies #[trigger] semaphore_alloc(q)[t] == semaphore_alloc(p)[t] by {
        assert(semaphore_alloc(q)[t] =~= semaphore_alloc(p)[t]);
    }
    assert(semaphore_alloc(q) =~= semaphore_alloc(p));
    assert forall|t: int, r: int| 0 <= t < mutex_alloc(p).len() && 0 <= r < p.mutex_list.len() implies #[trigger] mutex_need(
        q,
    )[t][r] <= mutex_need(p)[t][r] by {
        assert(q.tasks[t].mutex_status[r].needed <= p.tasks[t].mutex_status[r].needed);
    }
    assert forall|t: int, r: int|
        0 <= t < semaphore_alloc(p).len() && 0 <= r < p.semaphore_list.len() implies #[trigger] semaphore_need(
        q,
    )[t][r] <= semaphore_need(p)[t][r] by {
        assert(q.tasks[t].semaphore_status[r].needed <= p.tasks[t].semaphore_status[r].needed);
    }
    lemma_more_free_less_need_stays_safe(
        p.mutex_avail,
        q.mutex_avail,
        mutex_alloc(p),
        mutex_need(p),
        mutex_need(q),
        p.mutex_list.len() as int,
    );
    lemma_more_free_less_need_stays_safe(
        p.semaphore_avail,
        q.semaphore_avail,
        semaphore_alloc(p),
        semaphore_need(p),
        semaphore_need(q),
        p.semaphore_list.len() as int,
    );
}

/// What each task holds of each semaphore when `of_semaphores` holds, of
/// each mutex otherwise.
pub open spec fn alloc_matrix(p: ProcessView, of_semaphores: bool) -> Seq<Seq<usize>> {
    if of_semaphores {
        semaphore_alloc(p)
    } else {
        mutex_alloc(p)
    }
}

/// What each task waits for of each semaphore when `of_semaphores` holds, of
/// each mutex otherwise.
pub open spec fn need_matrix(p: ProcessView, of_semaphores: bool) -> Seq<Seq<usize>> {
    if of_semaphores {
        semaphore_need(p)
    } else {
        mutex_need(p)
    }
}

/// Task `t`'s entry for resource `r`, as (held, waited for), among the
/// semaphores when `of_semaphores` holds, among the mutexes otherwise.
fn entry(process: &ProcessControlBlockInner, of_semaphores: bool, t: usize, r: usize) -> (e: (usize, usize))
    requires
        wf(process@),
        t < process@.tasks.len(),
        r < (if of_semaphores {
            process@.semaphore_list.len()
        } else {
            process@.mutex_list.len()
        }),
    ensures
        e.0 == alloc_matrix(process@, of_semaphores)[t as int][r as int],
        e.1 == need_matrix(process@, of_semaphores)[t as int][r as int],
{
    proof {
        assert(process.tasks@[t as int]@ == process@.tasks[t as int]);
    }
    if of_semaphores {
        let st = process.tasks[t].inner.semaphore_status[r];
        (st.allocated, st.needed)
    } else {
        let st = process.tasks[t].inner.mutex_status[r];
        (st.allocated, st.needed)
    }
}

/// The held and waited-for matrices of the semaphores when `of_semaphores`
/// holds, of the mutexes otherwise.
fn status_matrices(process: &ProcessControlBlockInner, of_semaphores: bool) -> (r: (
    Vec<Vec<usize>>,
    Vec<Vec<usize>>,
))
    requires
        wf(process@),
    ensures
        rows(r.0@) == alloc_matrix(process@, of_semaphores),
        rows(r.1@) == need_matrix(process@, of_semaphores),
{
    let ghost p = process@;
    let ghost am = alloc_matrix(p, of_semaphores);
    let ghost nm = need_matrix(p, of_semaphores);
    let n: usize = process.tasks.len();
    let m: usize = if of_semaphores {
        process.semaphore_list.len()
    } else {
        process.mutex_list.len()
    };
    let mut alloc: Vec<Vec<usize>> = Vec::new();
    let mut need: Vec<Vec<usize>> = Vec::new();
    let mut tid: usize = 0;
    while tid < n
        invariant
            p == process@,
            wf(p),
            am == alloc_matrix(p, of_semaphores),
            nm == need_matrix(p, of_semaphores),
            n == p.tasks.len(),
            m == (if of_semaphores {
                p.semaphore_list.len()
            } else {
                p.mutex_list.len()
            }),
            tid <= n,
            alloc.len() == tid,
            need.len() == tid,
            forall|t: int| 0 <= t < tid ==> #[trigger] rows(alloc@)[t] == am[t],
            forall|t: int| 0 <= t < tid ==> #[trigger] rows(need@)[t] == nm[t],
        decreases n - tid,
    {
        let mut arow: Vec<usize> = Vec::new();
        let mut nrow: Vec<usize> = Vec::new();
        let mut i: usize = 0;
        while i < m
            invariant
                p == process@,
                wf(p),
                am == alloc_matrix(p, of_semaphores),
                nm == need_matrix(p, of_semaphores),
                tid < n,
                n == p.tasks.len(),
                m == (if of_semaphores {
                    p.semaphore_list.len()
                } else {
                    p.mutex_list.len()
                }),
                i <= m,
                arow@.len() == i,
                nrow@.len() == i,
                forall|r: int| 0 <= r < i ==> #[trigger] arow@[r] == am[tid as int][r],
                forall|r: int| 0 <= r < i ==> #[trigger] nrow@[r] == nm[tid as int][r],
            decreases m - i,
        {
            let (a, w) = entry(process, of_semaphores, tid, i);
            arow.push(a);
            nrow.push(w);
            i = i + 1;
        }
        proof {
            assert(arow@ =~= am[tid as int]);
            assert(nrow@ =~= nm[tid as int]);
        }
        let ghost a0 = alloc@;
        let ghost n0 = need@;
        alloc.push(arow);
        need.push(nrow);
        proof {
            assert forall|t: int| 0 <= t <= tid implies #[trigger] rows(alloc@)[t] == am[t] by {
                if t < tid {
                    assert(alloc@[t] == a0[t]);
                    assert(rows(a0)[t] == am[t]);
                }
            }
            assert forall|t: int| 0 <= t <= tid implies #[trigger] rows(need@)[t] == nm[t] by {
                if t < tid {
                    assert(need@[t] == n0[t]);
                    assert(rows(n0)[t] == nm[t]);
                }
            }
        }
        tid = tid + 1;
    }
    proof {
        assert(rows(alloc@) =~= am);
        assert(rows(need@) =~= nm);
    }
    (alloc, need)
}

/// Whether the deadlock check can run on this process without overflow.
pub fn deadlock_check_in_range(process: &ProcessControlBlockInner) -> (r: bool)
    requires
        wf(process@),
    ensures
        r == detection_in_range(process@),
{
    let (alloc, _need) = status_matrices(process, false);
    proof {
        assert forall|t: int| 0 <= t < alloc.len() implies process.mutex_list.len() <= (#[trigger] alloc@[t])@.len() by {
            assert(rows(alloc@).len() == alloc@.len());
            assert(rows(alloc@)[t] == alloc@[t]@);
            assert(mutex_alloc(process@)[t].len() == process@.mutex_list.len());
        }
    }
    if !totals_in_range(&process.mutex_avail, &alloc, process.mutex_list.len()) {
        return false;
    }
    let (alloc, _need) = status_matrices(process, true);
    proof {
        assert forall|t: int| 0 <= t < alloc.len() implies process.semaphore_list.len() <= (#[trigger] alloc@[t])@.len() by {
            assert(rows(alloc@).len() == alloc@.len());
            assert(rows(alloc@)[t] == alloc@[t]@);
            assert(semaphore_alloc(process@)[t].len() == process@.semaphore_list.len());
        }
    }
    totals_in_range(&process.semaphore_avail, &alloc, process.semaphore_list.len())
}

/// Deadlock detection by the banker's algorithm, on the mutexes and then on
/// the semaphores of the process: true when no deadlock can arise.
pub fn check(process: &ProcessControlBlockInner) -> (r: bool)
    requires
        wf(process@),
        detection_in_range(process@),
    ensures
        r == deadlock_free(process@),
{
    let (alloc, need) = status_matrices(process, false);
    if !is_safe(&process.mutex_avail, &alloc, &need, process.mutex_list.len()) {
        return false;
    }
    let (alloc, need) = status_matrices(process, true);
    is_safe(&process.semaphore_avail, &alloc, &need, process.semaphore_list.len())
}

// ------------------------------------------------------------------------
// Slots
// ------------------------------------------------------------------------

/// The lowest free slot of `s` at or after `i`, or `s.len()` when there is none.
pub open spec fn free_from<T>(s: Seq<Option<T>>, i: int) -> int
    decreases s.len() - i,
{
    if i >= s.len() {
        s.len() as int
    } else if s[i] is None {
        i
    } else {
        free_from(s, i + 1)
    }
}

/// The lowest free slot of `s`, or `s.len()` when all are taken.
pub open spec fn first_free<T>(s: Seq<Option<T>>) -> int {
    free_from(s, 0)
}

/// Slot sequences that are free at the same places have the same lowest free slot.
proof fn lemma_free_from_same<A, B>(s: Seq<Option<A>>, t: Seq<Option<B>>, i: int)
    requires
        0 <= i,
        s.len() == t.len(),
        forall|j: int| 0 <= j < s.len() ==> (s[j] is None <==> t[j] is None),
    ensures
        free_from(s, i) == free_from(t, i),
    decreases s.len() - i,
{
    if i < s.len() {
        lemma_free_from_same(s, t, i + 1);
    }
}

/// The lowest free slot of `list`, or its length when all are taken.
fn free_slot<T>(list: &Vec<Option<T>>) -> (r: usize)
    ensures
        r <= list.len(),
        r == first_free(list@),
        r < list.len() ==> list@[r as int] is None,
        forall|j: int| 0 <= j < r ==> list@[j] is Some,
{
    let mut i: usize = 0;
    while i < list.len()
        invariant
            i <= list.len(),
            forall|j: int| 0 <= j < i ==> list@[j] is Some,
            free_from(list@, 0) == free_from(list@, i as int),
        decreases list.len() - i,
    {
        if list[i].is_none() {
            return i;
        }
        i = i + 1;
    }
    i
}

// ------------------------------------------------------------------------
// Mutexes
// ------------------------------------------------------------------------

/// A fresh, free mutex with id `id`, blocking or spinning.
pub open spec fn new_mutex_view(blocking: bool, id: usize) -> MutexView {
    if blocking {
        MutexView::Blocking(MutexBlockingView { locked: false, index: id, wait_queue: Seq::empty() })
    } else {
        MutexView::Spin(MutexSpin { locked: false, index: id })
    }
}

/// Process `p` after it creates a mutex: the lowest free slot is taken (a
/// new slot is added when all are taken, with an empty entry for it in every
/// task's bookkeeping), every task's entry for it is emptied, a fresh mutex
/// fills it and is available.
pub open spec fn after_mutex_create(p: ProcessView, blocking: bool) -> ProcessView {
    let id = first_free(p.mutex_list);
    let grown = id == p.mutex_list.len();
    let list = if grown {
        p.mutex_list.push(None)
    } else {
        p.mutex_list
    };
    let avail = if grown {
        p.mutex_avail.push(0)
    } else {
        p.mutex_avail
    };
    let tasks = if grown {
        grow_mutex_status(p.tasks)
    } else {
        p.tasks
    };
    ProcessView {
        tasks: clear_mutex_status(tasks, id),
        mutex_list: list.update(id, Some(new_mutex_view(blocking, id as usize))),
        mutex_avail: avail.update(id, 1),
        ..p
    }
}

/// Creates a mutex, blocking or spinning, and returns its id.
pub fn sys_mutex_create(process: &mut ProcessControlBlockInner, blocking: bool) -> (r: isize)
    requires
        wf(old(process)@),
        old(process)@.mutex_list.len() < isize::MAX,
    ensures
        wf(final(process)@),
        r as int == first_free(old(process)@.mutex_list),
        final(process)@ == after_mutex_create(old(process)@, blocking),
        balanced(old(process)@) ==> balanced(final(process)@),
{
    let ghost p0 = process@;
    let free: usize = free_slot(&process.mutex_list);
    proof {
        lemma_free_from_same(process.mutex_list@, p0.mutex_list, 0);
    }
    let id: usize = if free == process.mutex_list.len() {
        process.mutex_list.push(None);
        process.mutex_avail.push(0);
        grow_mutex_slots(&mut process.tasks);
        proof {
            assert(process@.mutex_list =~= p0.mutex_list.push(None));
        }
        process.mutex_list.len() - 1
    } else {
        free
    };
    let ghost p1 = process@;
    proof {
        let grown = free == p0.mutex_list.len();
        assert(id == first_free(p0.mutex_list));
        assert(p1.mutex_list == if grown { p0.mutex_list.push(None) } else { p0.mutex_list });
        assert(p1.mutex_avail == if grown { p0.mutex_avail.push(0) } else { p0.mutex_avail });
        assert(p1.tasks == if grown { grow_mutex_status(p0.tasks) } else { p0.tasks });
        assert(forall|t: int| 0 <= t < p1.tasks.len() ==> id < (#[trigger] p1.tasks[t]).mutex_status.len());
        assert forall|t: int| 0 <= t < process.tasks.len() implies id < (#[trigger] process.tasks@[t]).inner.mutex_status.len() by {
            assert(p1.tasks[t] == process.tasks@[t]@);
        }
    }
    clear_mutex_slots(&mut process.tasks, id);
    let ghost p2 = process@;
    let m = if !blocking {
        AnyMutex::Spin(MutexSpin::new(id))
    } else {
        AnyMutex::Blocking(MutexBlocking::new(id))
    };
    assert(m@ == new_mutex_view(blocking, id));
    let ghost l2 = process.mutex_list@;
    process.mutex_list.set(id, Some(m));
    proof {
        assert(process.mutex_list@ == l2.update(id as int, Some(m)));
        assert(process@.mutex_list =~= p2.mutex_list.update(id as int, Some(new_mutex_view(blocking, id))));
    }
    process.mutex_avail.set(id, 1);
    proof {
        let q = after_mutex_create(p0, blocking);
        assert(process@.mutex_list =~= q.mutex_list);
        assert(process@.mutex_avail =~= q.mutex_avail);
        assert(process@.tasks =~= q.tasks);
        assert(process@ =~= q);
        if balanced(p0) {
            lemma_mutex_create_balance(p0, blocking, free as int);
        }
    }
    id as isize
}

/// Process `p` with task `t` marked as waiting for mutex `id`.
pub open spec fn with_mutex_need(p: ProcessView, t: int, id: int) -> ProcessView {
    ProcessView {
        tasks: set_mutex_status(
            p.tasks,
            t,
            id,
            MutexStatus { allocated: p.tasks[t].mutex_status[id].allocated, needed: 1 },
        ),
        ..p
    }
}

/// Process `p` after task `t` asks to lock mutex `id`, and the outcome.
///
/// The task is first marked as waiting for the mutex. With detection on, if
/// the resulting state could deadlock the request is refused (the mark
/// stays). Otherwise the mutex is locked.
pub open spec fn after_mutex_lock(p: ProcessView, t: int, id: int) -> (ProcessView, Outcome) {
    let p1 = with_mutex_need(p, t, id);
    if p.deadlock_detect && !deadlock_free(p1) {
        (p1, Outcome { ret: DEADLOCK, wake: None, resume: Resume::Return })
    } else {
        let (p2, r) = mutex_lock_step(p1, t, id);
        (p2, Outcome { ret: 0, wake: None, resume: r })
    }
}

proof fn lemma_need_keeps_totals(p: ProcessView, q: ProcessView)
    requires
        wf(p),
        q.tasks.len() == p.tasks.len(),
        q.mutex_list.len() == p.mutex_list.len(),
        q.semaphore_list.len() == p.semaphore_list.len(),
        q.mutex_avail == p.mutex_avail,
        q.semaphore_avail == p.semaphore_avail,
        forall|t: int, r: int|
            0 <= t < p.tasks.len() && 0 <= r < p.mutex_list.len() ==> (#[trigger] q.tasks[t].mutex_status[r]).allocated
                == p.tasks[t].mutex_status[r].allocated,
        forall|t: int, r: int|
            0 <= t < p.tasks.len() && 0 <= r < p.semaphore_list.len() ==> (#[trigger] q.tasks[t].semaphore_status[r]).allocated
                == p.tasks[t].semaphore_status[r].allocated,
    ensures
        mutex_alloc(q) == mutex_alloc(p),
        semaphore_alloc(q) == semaphore_alloc(p),
{
    assert forall|t: int| 0 <= t < p.tasks.len() implies #[trigger] mutex_alloc(q)[t] == mutex_alloc(p)[t] by {
        assert(mutex_alloc(q)[t] =~= mutex_alloc(p)[t]);
    }
    assert forall|t: int| 0 <= t < p.tasks.len() implies #[trigger] semaphore_alloc(q)[t] == semaphore_alloc(p)[t] by {
        assert(semaphore_alloc(q)[t] =~= semaphore_alloc(p)[t]);
    }
    assert(mutex_alloc(q) =~= mutex_alloc(p));
    assert(semaphore_alloc(q) =~= semaphore_alloc(p));
}

/// Task `current` asks to lock mutex `mutex_id`.
///
/// On `Resume::Retry` (a spinning mutex that is taken), the scheduler lets
/// other tasks run and then calls `ProcessControlBlockInner::lock_mutex`
/// again for the task; on `Resume::Block` the task sleeps until an unlock
/// hands it the mutex.
pub fn sys_mutex_lock(process: &mut ProcessControlBlockInner, current: usize, mutex_id: usize) -> (r:
    Outcome)
    requires
        wf(old(process)@),
        current < old(process)@.tasks.len(),
        mutex_id < old(process)@.mutex_list.len(),
        old(process)@.mutex_list[mutex_id as int] is Some,
        old(process)@.deadlock_detect ==> detection_in_range(old(process)@),
    ensures
        wf(final(process)@),
        (final(process)@, r) == after_mutex_lock(old(process)@, current as int, mutex_id as int),
        balanced(old(process)@) && (mutex_locked(old(process)@.mutex_list[mutex_id as int]->0) ==> held_by(
            old(process)@.tasks,
            current as int,
            mutex_id as int,
        ) == 0) ==> balanced(final(process)@),
{
    let ghost p0 = process@;
    let detect = process.deadlock_detect;
    proof {
        assert(process.tasks@[current as int]@ == p0.tasks[current as int]);
    }
    let mut st = process.tasks[current].inner.mutex_status[mutex_id];
    st.need_set();
    set_mutex_entry(&mut process.tasks, current, mutex_id, st);
    proof {
        let p1 = with_mutex_need(p0, current as int, mutex_id as int);
        assert(process@ =~= p1);
        lemma_need_keeps_totals(p0, p1);
        assert(wf(p1));
        if balanced(p0) {
            lemma_same_holdings_balance(p0, p1);
        }
    }
    if detect && !check(process) {
        return Outcome { ret: DEADLOCK, wake: None, resume: Resume::Return };
    }
    let resume = process.lock_mutex(current, mutex_id);
    Outcome { ret: 0, wake: None, resume }
}

/// Task `current` unlocks mutex `mutex_id`; a blocking mutex must be held.
pub fn sys_mutex_unlock(process: &mut ProcessControlBlockInner, current: usize, mutex_id: usize) -> (r:
    Outcome)
    requires
        wf(old(process)@),
        current < old(process)@.tasks.len(),
        mutex_id < old(process)@.mutex_list.len(),
        old(process)@.mutex_list[mutex_id as int] is Some,
        mutex_unlock_ready(old(process)@, mutex_id as int),
    ensures
        wf(final(process)@),
        (final(process)@, r.wake) == mutex_unlock_step(old(process)@, current as int, mutex_id as int),
        r.ret == 0,
        r.resume == Resume::Return,
        balanced(old(process)@) && held_by(old(process)@.tasks, current as int, mutex_id as int) == 1
            && not_first_waiter(old(process)@.mutex_list[mutex_id as int]->0, current as int) ==> balanced(
            final(process)@,
        ),
{
    let wake = process.unlock_mutex(current, mutex_id);
    Outcome { ret: 0, wake, resume: Resume::Return }
}

// ------------------------------------------------------------------------
// Semaphores
// ------------------------------------------------------------------------

/// Process `p` after it creates a semaphore of `res_count` units: the lowest
/// free slot is taken (a new slot is added when all are taken, with an empty
/// entry for it in every task's bookkeeping), every task's entry for it is
/// emptied, and a fresh semaphore fills it with all its units available.
pub open spec fn after_semaphore_create(p: ProcessView, res_count: usize) -> ProcessView {
    let id = first_free(p.semaphore_list);
    let grown = id == p.semaphore_list.len();
    let list = if grown {
        p.semaphore_list.push(None)
    } else {
        p.semaphore_list
    };
    let avail = if grown {
        p.semaphore_avail.push(0)
    } else {
        p.semaphore_avail
    };
    let tasks = if grown {
        grow_semaphore_status(p.tasks)
    } else {
        p.tasks
    };
    ProcessView {
        tasks: clear_semaphore_status(tasks, id),
        semaphore_list: list.update(
            id,
            Some(SemaphoreView { index: id as usize, count: res_count as isize, wait_queue: Seq::empty() }),
        ),
        semaphore_avail: avail.update(id, res_count),
        ..p
    }
}

/// Creates a semaphore holding `res_count` units and returns its id.
pub fn sys_semaphore_create(process: &mut ProcessControlBlockInner, res_count: usize) -> (r: isize)
    requires
        wf(old(process)@),
        old(process)@.semaphore_list.len() < isize::MAX,
    ensures
        wf(final(process)@),
        r as int == first_free(old(process)@.semaphore_list),
        final(process)@ == after_semaphore_create(old(process)@, res_count),
        balanced(old(process)@) && res_count <= isize::MAX ==> balanced(final(process)@),
{
    let ghost p0 = process@;
    let free: usize = free_slot(&process.semaphore_list);
    proof {
        lemma_free_from_same(process.semaphore_list@, p0.semaphore_list, 0);
    }
    let id: usize = if free == process.semaphore_list.len() {
        process.semaphore_list.push(None);
        process.semaphore_avail.push(0);
        grow_semaphore_slots(&mut process.tasks);
        process.semaphore_list.len() - 1
    } else {
        free
    };
    let ghost p1 = process@;
    proof {
        assert(forall|t: int| 0 <= t < p1.tasks.len() ==> id < (#[trigger] p1.tasks[t]).semaphore_status.len());
        assert forall|t: int| 0 <= t < process.tasks.len() implies id < (#[trigger] process.tasks@[t]).inner.semaphore_status.len() by {
            assert(p1.tasks[t] == process.tasks@[t]@);
        }
    }
    clear_semaphore_slots(&mut process.tasks, id);
    process.semaphore_list.set(id, Some(Semaphore::new(res_count, id)));
    process.semaphore_avail.set(id, res_count);
    proof {
        let q = after_semaphore_create(p0, res_count);
        assert(process@.semaphore_list =~= q.semaphore_list);
        assert(process@.semaphore_avail =~= q.semaphore_avail);
        assert(process@.tasks =~= q.tasks);
        assert(process@ =~= q);
        if balanced(p0) && res_count <= isize::MAX {
            lemma_semaphore_create_balance(p0, res_count, free as int);
        }
    }
    id as isize
}

/// Process `p` after semaphore `id` is given a unit back, and the outcome.
pub open spec fn after_semaphore_up(p: ProcessView, id: int) -> (ProcessView, Outcome) {
    let (s, tasks, avail, w) = up_step(p.semaphore_list[id]->0, p.tasks, p.semaphore_avail);
    (
        ProcessView {
            tasks,
            semaphore_list: p.semaphore_list.update(id, Some(s)),
            semaphore_avail: avail,
            ..p
        },
        Outcome { ret: 0, wake: w, resume: Resume::Return },
    )
}

/// Gives a unit back to semaphore `sem_id`.
pub fn sys_semaphore_up(process: &mut ProcessControlBlockInner, sem_id: usize) -> (r: Outcome)
    requires
        wf(old(process)@),
        sem_id < old(process)@.semaphore_list.len(),
        old(process)@.semaphore_list[sem_id as int] is Some,
        up_ready(
            old(process)@.semaphore_list[sem_id as int]->0,
            old(process)@.tasks,
            old(process)@.semaphore_avail,
        ),
    ensures
        wf(final(process)@),
        (final(process)@, r) == after_semaphore_up(old(process)@, sem_id as int),
        balanced(old(process)@) ==> balanced(final(process)@),
{
    let ghost p0 = process@;
    let wake = match &mut process.semaphore_list[sem_id] {
        Some(s) => s.up(&mut process.tasks, &mut process.semaphore_avail),
        None => None,
    };
    proof {
        let (q, rr) = after_semaphore_up(p0, sem_id as int);
        assert(process@.semaphore_list =~= q.semaphore_list);
        assert(process@ =~= q);
        if balanced(p0) {
            lemma_up_balance(p0, q, sem_id as int);
        }
    }
    Outcome { ret: 0, wake, resume: Resume::Return }
}

/// Process `p` with task `t` waiting for one more unit of semaphore `id`.
pub open spec fn with_semaphore_need(p: ProcessView, t: int, id: int) -> ProcessView {
    ProcessView {
        tasks: set_semaphore_status(p.tasks, t, id, sem_need_more(p.tasks[t].semaphore_status[id])),
        ..p
    }
}

/// Process `p` after task `t` asks for a unit of semaphore `id`, and the outcome.
///
/// With detection on, the request is checked with the task marked, for the
/// time of the check, as waiting for one more unit. If that state could
/// deadlock the request is refused and the process is left as it was.
/// Otherwise the semaphore is taken.
pub open spec fn after_semaphore_down(p: ProcessView, t: int, id: int) -> (ProcessView, Outcome) {
    let p1 = with_semaphore_need(p, t, id);
    if p.deadlock_detect && !deadlock_free(p1) {
        (p, Outcome { ret: DEADLOCK, wake: None, resume: Resume::Return })
    } else {
        let (s, tasks, avail, r) = down_step(p.semaphore_list[id]->0, p.tasks, t, p.semaphore_avail);
        (
            ProcessView {
                tasks,
                semaphore_list: p.semaphore_list.update(id, Some(s)),
                semaphore_avail: avail,
                ..p
            },
            Outcome { ret: 0, wake: None, resume: r },
        )
    }
}

/// Task `current` asks for a unit of semaphore `sem_id`.
pub fn sys_semaphore_down(process: &mut ProcessControlBlockInner, current: usize, sem_id: usize) -> (r:
    Outcome)
    requires
        wf(old(process)@),
        current < old(process)@.tasks.len(),
        sem_id < old(process)@.semaphore_list.len(),
        old(process)@.semaphore_list[sem_id as int] is Some,
        old(process)@.tasks[current as int].semaphore_status[sem_id as int].needed < usize::MAX,
        old(process)@.deadlock_detect ==> detection_in_range(old(process)@),
        !(old(process)@.deadlock_detect && !deadlock_free(
            with_semaphore_need(old(process)@, current as int, sem_id as int),
        )) ==> down_ready(
            old(process)@.semaphore_list[sem_id as int]->0,
            old(process)@.tasks,
            current as int,
            old(process)@.semaphore_avail,
        ),
    ensures
        wf(final(process)@),
        (final(process)@, r) == after_semaphore_down(old(process)@, current as int, sem_id as int),
        balanced(old(process)@) ==> balanced(final(process)@),
{
    let ghost p0 = process@;
    let detect = process.deadlock_detect;
    proof {
        assert(process.tasks@[current as int]@ == p0.tasks[current as int]);
    }
    let mut st: SemaphoreStatus = process.tasks[current].inner.semaphore_status[sem_id];
    st.need_set();
    set_semaphore_entry(&mut process.tasks, current, sem_id, st);
    proof {
        let p1 = with_semaphore_need(p0, current as int, sem_id as int);
        assert(process@ =~= p1);
        lemma_need_keeps_totals(p0, p1);
    }
    let refused: bool = detect && !check(process);
    st.need_unset();
    proof {
        assert(process.tasks@[current as int]@ == process@.tasks[current as int]);
    }
    set_semaphore_entry(&mut process.tasks, current, sem_id, st);
    proof {
        assert(process@.tasks =~~= p0.tasks);
        assert(process@ =~~= p0);
    }
    if refused {
        return Outcome { ret: DEADLOCK, wake: None, resume: Resume::Return };
    }
    let resume = match &mut process.semaphore_list[sem_id] {
        Some(s) => s.down(&mut process.tasks, current, &mut process.semaphore_avail),
        None => Resume::Return,
    };
    proof {
        let (q, rr) = after_semaphore_down(p0, current as int, sem_id as int);
        assert(process@.semaphore_list =~= q.semaphore_list);
        assert(process@ =~= q);
        if balanced(p0) {
            lemma_down_balance(p0, q, current as int, sem_id as int);
        }
    }
    Outcome { ret: 0, wake: None, resume }
}

// ------------------------------------------------------------------------
// Condition variables
// ------------------------------------------------------------------------

/// Process `p` after it creates a condition variable: it takes the lowest
/// free slot, or a new slot at the end when all are taken.
pub open spec fn after_condvar_create(p: ProcessView) -> ProcessView {
    let id = first_free(p.condvar_list);
    ProcessView {
        condvar_list: if id == p.condvar_list.len() {
            p.condvar_list.push(Some(Seq::empty()))
        } else {
            p.condvar_list.update(id, Some(Seq::empty()))
        },
        ..p
    }
}

/// Creates a condition variable and returns its id.
pub fn sys_condvar_create(process: &mut ProcessControlBlockInner) -> (r: isize)
    requires
        wf(old(process)@),
        old(process)@.condvar_list.len() < isize::MAX,
    ensures
        wf(final(process)@),
        r as int == first_free(old(process)@.condvar_list),
        final(process)@ == after_condvar_create(old(process)@),
        balanced(old(process)@) ==> balanced(final(process)@),
{
    let ghost p0 = process@;
    let free: usize = free_slot(&process.condvar_list);
    proof {
        lemma_free_from_same(process.condvar_list@, p0.condvar_list, 0);
    }
    let id: usize = if free < process.condvar_list.len() {
        process.condvar_list.set(free, Some(Condvar::new()));
        free
    } else {
        process.condvar_list.push(Some(Condvar::new()));
        process.condvar_list.len() - 1
    };
    proof {
        let q = after_condvar_create(p0);
        assert(process@.condvar_list =~= q.condvar_list);
        assert(process@ =~= q);
        if balanced(p0) {
            lemma_same_holdings_balance(p0, q);
        }
    }
    id as isize
}

/// Process `p` after condition variable `id` is signalled, and the outcome:
/// the first waiter, if any, leaves the queue and is woken up.
pub open spec fn after_condvar_signal(p: ProcessView, id: int) -> (ProcessView, Outcome) {
    let q = p.condvar_list[id]->0;
    if q.len() > 0 {
        (
            ProcessView { condvar_list: p.condvar_list.update(id, Some(q.drop_first())), ..p },
            Outcome { ret: 0, wake: Some(q[0]), resume: Resume::Return },
        )
    } else {
        (p, Outcome { ret: 0, wake: None, resume: Resume::Return })
    }
}

/// Signals condition variable `condvar_id`.
pub fn sys_condvar_signal(process: &mut ProcessControlBlockInner, condvar_id: usize) -> (r: Outcome)
    requires
        wf(old(process)@),
        condvar_id < old(process)@.condvar_list.len(),
        old(process)@.condvar_list[condvar_id as int] is Some,
    ensures
        wf(final(process)@),
        (final(process)@, r) == after_condvar_signal(old(process)@, condvar_id as int),
        balanced(old(process)@) ==> balanced(final(process)@),
{
    let ghost p0 = process@;
    let wake = match &mut process.condvar_list[condvar_id] {
        Some(c) => c.signal(),
        None => None,
    };
    proof {
        let (q, rr) = after_condvar_signal(p0, condvar_id as int);
        assert(process@.condvar_list =~= q.condvar_list);
        if balanced(p0) {
            lemma_same_holdings_balance(p0, process@);
        }
    }
    Outcome { ret: 0, wake, resume: Resume::Return }
}

/// Process `p` after task `t` waits on condition variable `cid`, releasing
/// mutex `mid`, and the outcome: the mutex is unlocked (possibly handing it
/// to a waiter, who is woken up), the task joins the end of the condition
/// variable's queue, and blocks.
pub open spec fn after_condvar_wait(p: ProcessView, t: int, cid: int, mid: int) -> (ProcessView, Outcome) {
    let (p1, w) = mutex_unlock_step(p, t, mid);
    (
        ProcessView {
            condvar_list: p1.condvar_list.update(cid, Some(p1.condvar_list[cid]->0.push(t as usize))),
            ..p1
        },
        Outcome { ret: 0, wake: w, resume: Resume::Block },
    )
}

/// Task `current` waits on condition variable `condvar_id`, releasing mutex
/// `mutex_id`.
///
/// Once woken up, the scheduler calls `ProcessControlBlockInner::lock_mutex`
/// for the task to take the mutex back before it returns to user space.
pub fn sys_condvar_wait(
    process: &mut ProcessControlBlockInner,
    current: usize,
    condvar_id: usize,
    mutex_id: usize,
) -> (r: Outcome)
    requires
        wf(old(process)@),
        current < old(process)@.tasks.len(),
        condvar_id < old(process)@.condvar_list.len(),
        old(process)@.condvar_list[condvar_id as int] is Some,
        mutex_id < old(process)@.mutex_list.len(),
        old(process)@.mutex_list[mutex_id as int] is Some,
        mutex_unlock_ready(old(process)@, mutex_id as int),
    ensures
        wf(final(process)@),
        (final(process)@, r) == after_condvar_wait(
            old(process)@,
            current as int,
            condvar_id as int,
            mutex_id as int,
        ),
        balanced(old(process)@) && held_by(old(process)@.tasks, current as int, mutex_id as int) == 1
            && not_first_waiter(old(process)@.mutex_list[mutex_id as int]->0, current as int) ==> balanced(
            final(process)@,
        ),
{
    let ghost p0 = process@;
    let wake = process.unlock_mutex(current, mutex_id);
    let ghost p1 = process@;
    match &mut process.condvar_list[condvar_id] {
        Some(c) => c.wait(current),
        None => {},
    }
    proof {
        let (q, rr) = after_condvar_wait(p0, current as int, condvar_id as int, mutex_id as int);
        assert(process@.condvar_list =~= q.condvar_list);
        if balanced(p1) {
            lemma_same_holdings_balance(p1, process@);
        }
    }
    Outcome { ret: 0, wake, resume: Resume::Block }
}

// ------------------------------------------------------------------------
// Others
// ------------------------------------------------------------------------

/// Turns deadlock detection on when `enabled` is 1 and off otherwise.
pub fn sys_enable_deadlock_detect(process: &mut ProcessControlBlockInner, enabled: usize) -> (r: isize)
    requires
        wf(old(process)@),
    ensures
        wf(final(process)@),
        final(process)@ == (ProcessView { deadlock_detect: enabled == 1, ..old(process)@ }),
        r == 0,
        balanced(old(process)@) ==> balanced(final(process)@),
{
    let ghost p0 = process@;
    process.deadlock_detect = enabled == 1;
    proof {
        if balanced(p0) {
            lemma_same_holdings_balance(p0, process@);
        }
    }
    0
}

/// Puts the caller to sleep for `ms` milliseconds from `now_ms`.
pub fn sys_sleep(now_ms: usize, ms: usize) -> (r: Outcome)
    requires
        now_ms + ms <= usize::MAX,
    ensures
        r == (Outcome { ret: 0, wake: None, resume: Resume::SleepUntil((now_ms + ms) as usize) }),
{
    let expire_ms: usize = now_ms + ms;
    Outcome { ret: 0, wake: None, resume: Resume::SleepUntil(expire_ms) }
}

} // verus!
