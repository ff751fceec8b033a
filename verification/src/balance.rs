//! The resource balance of a process: every taken mutex has exactly one
//! holder and a free one none; every semaphore's count, wait queue and
//! availability agree, and each task's entry records its places in the wait
//! queue. The system calls keep it whenever the calling task uses the
//! mutexes as intended (it unlocks only what it holds, and does not lock
//! again what it holds). In a balanced process, what `up` and `down` ask of
//! their caller comes down to counters that must not overflow.

use crate::process::{
    mutex_entry_ok, mutex_lock_step, mutex_locked, mutex_unlock_ready, mutex_unlock_step, queue_in, wf,
    MutexView, ProcessView,
};
use crate::sync::mutex::{
    entry_ready, exclusive, held_by, lemma_blocking_exclusive, lemma_spin_exclusive, single_holder,
};
use crate::sync::semaphore::{
    avail_matches_count, count_matches_queue, down_ready, down_step, lemma_semaphore_balance, up_ready,
    up_step,
};
use crate::syscall::{after_mutex_create, after_semaphore_create, first_free};
use crate::task::TaskView;
use vstd::prelude::*;

verus! {

/// Every mutex of `p` has exactly one holder while taken and none while free.
pub open spec fn mutexes_balanced(p: ProcessView) -> bool {
    forall|i: int|
        0 <= i < p.mutex_list.len() && (#[trigger] p.mutex_list[i]) is Some ==> single_holder(
            mutex_locked(p.mutex_list[i]->0),
            p.tasks,
            i,
        )
}

/// Every semaphore of `p` has count, wait queue and availability in agreement.
pub open spec fn semaphores_balanced(p: ProcessView) -> bool {
    forall|i: int|
        0 <= i < p.semaphore_list.len() && (#[trigger] p.semaphore_list[i]) is Some ==> {
            &&& count_matches_queue(p.semaphore_list[i]->0)
            &&& avail_matches_count(p.semaphore_list[i]->0, p.semaphore_avail)
        }
}

/// Every task's entry for a semaphore counts at least as many units waited
/// for as the task has places in the semaphore's wait queue.
pub open spec fn waits_recorded(p: ProcessView) -> bool {
    forall|i: int, t: int|
        0 <= i < p.semaphore_list.len() && (#[trigger] p.semaphore_list[i]) is Some && 0 <= t
            < p.tasks.len() ==> p.semaphore_list[i]->0.wait_queue.to_multiset().count(t as usize) <= (
        #[trigger] p.tasks[t]).semaphore_status[i].needed
}

/// Task `t` is not the first waiter of mutex `m`.
pub open spec fn not_first_waiter(m: MutexView, t: int) -> bool {
    match m {
        MutexView::Spin(_) => true,
        MutexView::Blocking(b) => b.wait_queue.len() > 0 ==> b.wait_queue[0] != t,
    }
}

/// The resource balance of a process holds.
pub open spec fn balanced(p: ProcessView) -> bool {
    mutexes_balanced(p) && semaphores_balanced(p) && waits_recorded(p)
}

/// `q` keeps the waits of `p` recorded when it has the same tasks, differs
/// from `p`, as far as semaphores go, only in slot `id`, where its waits are
/// recorded, and records no fewer waits elsewhere.
proof fn lemma_waits_frame(p: ProcessView, q: ProcessView, id: int)
    requires
        q.tasks.len() == p.tasks.len(),
        forall|j: int|
            0 <= j < q.semaphore_list.len() && j != id ==> j < p.semaphore_list.len() && #[trigger] q.semaphore_list[j]
                == p.semaphore_list[j],
        forall|t: int, j: int|
            0 <= t < p.tasks.len() && 0 <= j < q.semaphore_list.len() && j != id ==> (
            #[trigger] q.tasks[t].semaphore_status[j]).needed >= p.tasks[t].semaphore_status[j].needed,
        waits_recorded(p),
        0 <= id < q.semaphore_list.len() && q.semaphore_list[id] is Some ==> forall|t: int|
            0 <= t < q.tasks.len() ==> q.semaphore_list[id]->0.wait_queue.to_multiset().count(t as usize) <= (
            #[trigger] q.tasks[t]).semaphore_status[id].needed,
    ensures
        waits_recorded(q),
{
    assert forall|i: int, t: int|
        0 <= i < q.semaphore_list.len() && (#[trigger] q.semaphore_list[i]) is Some && 0 <= t
            < q.tasks.len() implies q.semaphore_list[i]->0.wait_queue.to_multiset().count(t as usize) <= (
    #[trigger] q.tasks[t]).semaphore_status[i].needed by {
        if i != id {
            assert(q.semaphore_list[i] == p.semaphore_list[i]);
            assert(p.semaphore_list[i]->0.wait_queue.to_multiset().count(t as usize)
                <= p.tasks[t].semaphore_status[i].needed);
            assert(q.tasks[t].semaphore_status[i].needed >= p.tasks[t].semaphore_status[i].needed);
        }
    }
}

proof fn lemma_single_holder_same(locked: bool, a: Seq<TaskView>, b: Seq<TaskView>, id: int)
    requires
        a.len() == b.len(),
        forall|t: int| 0 <= t < a.len() ==> #[trigger] held_by(b, t, id) == held_by(a, t, id),
        single_holder(locked, a, id),
    ensures
        single_holder(locked, b, id),
{
    let n = a.len() as int;
    if locked {
        let h = choose|h: int|
            0 <= h < n && #[trigger] held_by(a, h, id) == 1 && forall|t: int|
                0 <= t < n && t != h ==> #[trigger] held_by(a, t, id) == 0;
        assert(held_by(b, h, id) == 1);
        assert forall|t: int| 0 <= t < n && t != h implies #[trigger] held_by(b, t, id) == 0 by {
            assert(held_by(a, t, id) == 0);
        }
    } else {
        assert forall|t: int| 0 <= t < n implies #[trigger] held_by(b, t, id) == 0 by {
            assert(held_by(a, t, id) == 0);
        }
    }
}

/// `q` keeps the mutex balance of `p` when it differs from `p`, as far as
/// mutexes go, only in slot `id`, where it is balanced.
proof fn lemma_mutexes_frame(p: ProcessView, q: ProcessView, id: int)
    requires
        q.tasks.len() == p.tasks.len(),
        forall|j: int|
            0 <= j < q.mutex_list.len() && j != id ==> j < p.mutex_list.len() && #[trigger] q.mutex_list[j]
                == p.mutex_list[j],
        forall|t: int, j: int|
            0 <= t < p.tasks.len() && 0 <= j < q.mutex_list.len() && j != id ==> #[trigger] held_by(q.tasks, t, j)
                == held_by(p.tasks, t, j),
        mutexes_balanced(p),
        0 <= id < q.mutex_list.len() && q.mutex_list[id] is Some ==> single_holder(
            mutex_locked(q.mutex_list[id]->0),
            q.tasks,
            id,
        ),
    ensures
        mutexes_balanced(q),
{
    assert forall|i: int| 0 <= i < q.mutex_list.len() && (#[trigger] q.mutex_list[i]) is Some implies single_holder(
        mutex_locked(q.mutex_list[i]->0),
        q.tasks,
        i,
    ) by {
        if i != id {
            assert(q.mutex_list[i] == p.mutex_list[i]);
            assert forall|t: int| 0 <= t < p.tasks.len() implies #[trigger] held_by(q.tasks, t, i) == held_by(
                p.tasks,
                t,
                i,
            ) by {}
            lemma_single_holder_same(mutex_locked(p.mutex_list[i]->0), p.tasks, q.tasks, i);
        }
    }
}

/// `q` keeps the semaphore balance of `p` when it differs from `p`, as far as
/// semaphores go, only in slot `id`, where it is balanced.
proof fn lemma_semaphores_frame(p: ProcessView, q: ProcessView, id: int)
    requires
        wf(p),
        wf(q),
        forall|j: int|
            0 <= j < q.semaphore_list.len() && j != id ==> {
                &&& j < p.semaphore_list.len()
                &&& #[trigger] q.semaphore_list[j] == p.semaphore_list[j]
                &&& q.semaphore_avail[j] == p.semaphore_avail[j]
            },
        semaphores_balanced(p),
        0 <= id < q.semaphore_list.len() && q.semaphore_list[id] is Some ==> {
            &&& count_matches_queue(q.semaphore_list[id]->0)
            &&& avail_matches_count(q.semaphore_list[id]->0, q.semaphore_avail)
        },
    ensures
        semaphores_balanced(q),
{
    assert forall|i: int| 0 <= i < q.semaphore_list.len() && (#[trigger] q.semaphore_list[i]) is Some implies {
        &&& count_matches_queue(q.semaphore_list[i]->0)
        &&& avail_matches_count(q.semaphore_list[i]->0, q.semaphore_avail)
    } by {
        if i != id {
            assert(q.semaphore_list[i] == p.semaphore_list[i]);
            assert(p.semaphore_list[i] is Some);
            assert(p.semaphore_list[i]->0.index == i);
        }
    }
}

/// Mutex `id` of a well-formed, balanced process is held at most once.
proof fn lemma_exclusive_at(p: ProcessView, id: int)
    requires
        wf(p),
        mutexes_balanced(p),
        0 <= id < p.mutex_list.len(),
        p.mutex_list[id] is Some,
    ensures
        exclusive(mutex_locked(p.mutex_list[id]->0), p.tasks, id, p.mutex_avail),
        forall|t: int| 0 <= t < p.tasks.len() ==> #[trigger] entry_ready(p.tasks, t, id),
{
    assert forall|t: int| 0 <= t < p.tasks.len() implies #[trigger] held_by(p.tasks, t, id) <= 1 by {
        assert(p.tasks[t].mutex_status.len() == p.mutex_list.len());
        assert(mutex_entry_ok(p.tasks[t].mutex_status[id]));
    }
    assert forall|t: int| 0 <= t < p.tasks.len() implies #[trigger] entry_ready(p.tasks, t, id) by {
        assert(p.tasks[t].mutex_status.len() == p.mutex_list.len());
    }
}

/// Locking keeps the balance when the caller does not already hold a taken mutex.
pub proof fn lemma_lock_balance(p: ProcessView, t: int, id: int)
    requires
        wf(p),
        balanced(p),
        0 <= t < p.tasks.len(),
        0 <= id < p.mutex_list.len(),
        p.mutex_list[id] is Some,
        mutex_locked(p.mutex_list[id]->0) ==> held_by(p.tasks, t, id) == 0,
    ensures
        balanced(mutex_lock_step(p, t, id).0),
{
    let q = mutex_lock_step(p, t, id).0;
    lemma_exclusive_at(p, id);
    match p.mutex_list[id]->0 {
        MutexView::Spin(m) => {
            lemma_spin_exclusive(m, p.tasks, t, p.mutex_avail);
        },
        MutexView::Blocking(m) => {
            lemma_blocking_exclusive(m, p.tasks, t, p.mutex_avail);
        },
    }
    assert(p.tasks[t].mutex_status.len() == p.mutex_list.len());
    lemma_mutexes_frame(p, q, id);
}

/// Unlocking keeps the balance when the caller holds the mutex and, for a
/// blocking mutex, is not itself the first waiter.
pub proof fn lemma_unlock_balance(p: ProcessView, t: int, id: int)
    requires
        wf(p),
        balanced(p),
        0 <= t < p.tasks.len(),
        0 <= id < p.mutex_list.len(),
        p.mutex_list[id] is Some,
        mutex_unlock_ready(p, id),
        held_by(p.tasks, t, id) == 1,
        not_first_waiter(p.mutex_list[id]->0, t),
    ensures
        balanced(mutex_unlock_step(p, t, id).0),
{
    let q = mutex_unlock_step(p, t, id).0;
    lemma_exclusive_at(p, id);
    assert(mutex_locked(p.mutex_list[id]->0));
    match p.mutex_list[id]->0 {
        MutexView::Spin(m) => {
            lemma_spin_exclusive(m, p.tasks, t, p.mutex_avail);
        },
        MutexView::Blocking(m) => {
            if m.wait_queue.len() > 0 {
                assert(m.wait_queue[0] < p.tasks.len());
                assert(p.tasks[m.wait_queue[0] as int].mutex_status.len() == p.mutex_list.len());
            }
            lemma_blocking_exclusive(m, p.tasks, t, p.mutex_avail);
        },
    }
    assert(p.tasks[t].mutex_status.len() == p.mutex_list.len());
    lemma_mutexes_frame(p, q, id);
}

/// A well-formed state that differs from a balanced one only in what tasks
/// wait for of mutexes, in the condition variables or in the detection
/// switch, is balanced.
pub proof fn lemma_same_holdings_balance(p: ProcessView, q: ProcessView)
    requires
        wf(p),
        wf(q),
        balanced(p),
        q.tasks.len() == p.tasks.len(),
        q.mutex_list == p.mutex_list,
        q.semaphore_list == p.semaphore_list,
        q.semaphore_avail == p.semaphore_avail,
        forall|t: int, j: int|
            0 <= t < p.tasks.len() && 0 <= j < p.mutex_list.len() ==> #[trigger] held_by(q.tasks, t, j) == held_by(
                p.tasks,
                t,
                j,
            ),
        forall|t: int|
            0 <= t < p.tasks.len() ==> (#[trigger] q.tasks[t]).semaphore_status == p.tasks[t].semaphore_status,
    ensures
        balanced(q),
{
    lemma_mutexes_frame(p, q, -1);
    lemma_semaphores_frame(p, q, -1);
    lemma_waits_frame(p, q, -1);
}

/// A task id that is not below `n` has no place in a queue of tasks below `n`.
proof fn lemma_not_queued(queue: Seq<usize>, n: int)
    requires
        0 <= n <= usize::MAX,
        queue_in(queue, n),
    ensures
        queue.to_multiset().count(n as usize) == 0,
{
    broadcast use vstd::seq_lib::group_to_multiset_ensures;

    if queue.contains(n as usize) {
        let k = choose|k: int| 0 <= k < queue.len() && queue[k] == n as usize;
        assert(queue[k] < n);
    }
}

/// A task that holds nothing, added to a balanced process, keeps it balanced.
pub proof fn lemma_new_task_balance(p: ProcessView, q: ProcessView)
    requires
        wf(p),
        balanced(p),
        q.tasks.len() == p.tasks.len() + 1,
        q.tasks.len() <= usize::MAX,
        forall|t: int| 0 <= t < p.tasks.len() ==> #[trigger] q.tasks[t] == p.tasks[t],
        forall|j: int| 0 <= j < p.mutex_list.len() ==> #[trigger] held_by(q.tasks, p.tasks.len() as int, j) == 0,
        q.mutex_list == p.mutex_list,
        q.semaphore_list == p.semaphore_list,
        q.semaphore_avail == p.semaphore_avail,
    ensures
        balanced(q),
{
    let n = p.tasks.len() as int;
    assert forall|i: int| 0 <= i < q.mutex_list.len() && (#[trigger] q.mutex_list[i]) is Some implies single_holder(
        mutex_locked(q.mutex_list[i]->0),
        q.tasks,
        i,
    ) by {
        assert(p.mutex_list[i] is Some);
        assert(held_by(q.tasks, n, i) == 0);
        assert forall|t: int| 0 <= t < n implies #[trigger] held_by(q.tasks, t, i) == held_by(p.tasks, t, i) by {
            assert(q.tasks[t] == p.tasks[t]);
        }
        if mutex_locked(p.mutex_list[i]->0) {
            let h = choose|h: int|
                0 <= h < n && #[trigger] held_by(p.tasks, h, i) == 1 && forall|t: int|
                    0 <= t < n && t != h ==> #[trigger] held_by(p.tasks, t, i) == 0;
            assert(held_by(q.tasks, h, i) == 1);
            assert forall|t: int| 0 <= t < n + 1 && t != h implies #[trigger] held_by(q.tasks, t, i) == 0 by {
                if t < n {
                    assert(held_by(p.tasks, t, i) == 0);
                }
            }
        } else {
            assert forall|t: int| 0 <= t < n + 1 implies #[trigger] held_by(q.tasks, t, i) == 0 by {
                if t < n {
                    assert(held_by(p.tasks, t, i) == 0);
                }
            }
        }
    }
    assert forall|i: int, t: int|
        0 <= i < q.semaphore_list.len() && (#[trigger] q.semaphore_list[i]) is Some && 0 <= t
            < q.tasks.len() implies q.semaphore_list[i]->0.wait_queue.to_multiset().count(t as usize) <= (
    #[trigger] q.tasks[t]).semaphore_status[i].needed by {
        assert(p.semaphore_list[i] is Some);
        if t < n {
            assert(q.tasks[t] == p.tasks[t]);
            assert(p.semaphore_list[i]->0.wait_queue.to_multiset().count(t as usize)
                <= p.tasks[t].semaphore_status[i].needed);
        } else {
            lemma_not_queued(p.semaphore_list[i]->0.wait_queue, n);
        }
    }
    assert forall|i: int| 0 <= i < q.semaphore_list.len() && (#[trigger] q.semaphore_list[i]) is Some implies {
        &&& count_matches_queue(q.semaphore_list[i]->0)
        &&& avail_matches_count(q.semaphore_list[i]->0, q.semaphore_avail)
    } by {
        assert(p.semaphore_list[i] is Some);
    }
}

/// In a well-formed, balanced process a task that holds a mutex may unlock
/// it: a blocking mutex someone holds is taken.
pub proof fn lemma_holder_can_unlock(p: ProcessView, t: int, id: int)
    requires
        wf(p),
        balanced(p),
        0 <= t < p.tasks.len(),
        0 <= id < p.mutex_list.len(),
        p.mutex_list[id] is Some,
        held_by(p.tasks, t, id) == 1,
    ensures
        mutex_unlock_ready(p, id),
        mutex_locked(p.mutex_list[id]->0),
{
    assert(single_holder(mutex_locked(p.mutex_list[id]->0), p.tasks, id));
}

/// In a well-formed, balanced process a `down` on a semaphore can run as
/// soon as no counter overflows: the count is above `isize::MIN` and the
/// caller's entry can count one more unit held and one more waited for.
pub proof fn lemma_balanced_down_ready(p: ProcessView, t: int, id: int)
    requires
        wf(p),
        balanced(p),
        0 <= t < p.tasks.len(),
        0 <= id < p.semaphore_list.len(),
        p.semaphore_list[id] is Some,
        p.semaphore_list[id]->0.count > isize::MIN,
        p.tasks[t].semaphore_status[id].needed < usize::MAX,
        p.tasks[t].semaphore_status[id].allocated < usize::MAX,
    ensures
        down_ready(p.semaphore_list[id]->0, p.tasks, t, p.semaphore_avail),
{
    assert(p.tasks[t].semaphore_status.len() == p.semaphore_list.len());
    assert(p.semaphore_list[id]->0.index == id);
    assert(avail_matches_count(p.semaphore_list[id]->0, p.semaphore_avail));
}

/// In a well-formed, balanced process an `up` on a semaphore can run as
/// soon as no counter overflows: the count is below `isize::MAX` and the
/// first waiter, when one is woken, can count one more unit held. (That the
/// waiter's entry records its wait comes from the balance.)
pub proof fn lemma_balanced_up_ready(p: ProcessView, id: int)
    requires
        wf(p),
        balanced(p),
        0 <= id < p.semaphore_list.len(),
        p.semaphore_list[id] is Some,
        p.semaphore_list[id]->0.count < isize::MAX,
        ({
            let s = p.semaphore_list[id]->0;
            s.count + 1 <= 0 && s.wait_queue.len() > 0 ==> p.tasks[s.wait_queue[0] as int].semaphore_status[id].allocated
                < usize::MAX
        }),
    ensures
        up_ready(p.semaphore_list[id]->0, p.tasks, p.semaphore_avail),
{
    broadcast use vstd::seq_lib::group_to_multiset_ensures;

    let s = p.semaphore_list[id]->0;
    assert(s.index == id);
    assert(avail_matches_count(s, p.semaphore_avail));
    if s.count + 1 <= 0 && s.wait_queue.len() > 0 {
        let w = s.wait_queue[0] as int;
        assert(queue_in(s.wait_queue, p.tasks.len() as int));
        assert(w < p.tasks.len());
        assert(p.tasks[w].semaphore_status.len() == p.semaphore_list.len());
        assert(s.wait_queue.contains(s.wait_queue[0]));
        assert(s.wait_queue.to_multiset().count(w as usize) <= p.tasks[w].semaphore_status[id].needed);
    }
}

/// `up` keeps the balance.
pub proof fn lemma_up_balance(p: ProcessView, q: ProcessView, id: int)
    requires
        wf(p),
        wf(q),
        balanced(p),
        0 <= id < p.semaphore_list.len(),
        p.semaphore_list[id] is Some,
        up_ready(p.semaphore_list[id]->0, p.tasks, p.semaphore_avail),
        ({
            let (s, tasks, avail, w) = up_step(p.semaphore_list[id]->0, p.tasks, p.semaphore_avail);
            &&& q.tasks == tasks
            &&& q.semaphore_list == p.semaphore_list.update(id, Some(s))
            &&& q.semaphore_avail == avail
            &&& q.mutex_list == p.mutex_list
        }),
    ensures
        balanced(q),
{
    let s = p.semaphore_list[id]->0;
    lemma_semaphore_balance(s, p.tasks, 0, p.semaphore_avail);
    assert forall|t: int, j: int| 0 <= t < p.tasks.len() && 0 <= j < q.mutex_list.len() && j != -1 implies #[trigger] held_by(
        q.tasks,
        t,
        j,
    ) == held_by(p.tasks, t, j) by {}
    lemma_mutexes_frame(p, q, -1);
    lemma_semaphores_frame(p, q, id);
    assert(s.index == id);
    let s2 = q.semaphore_list[id]->0;
    assert forall|u: int| 0 <= u < q.tasks.len() implies s2.wait_queue.to_multiset().count(u as usize) <= (
    #[trigger] q.tasks[u]).semaphore_status[id].needed by {
        broadcast use vstd::seq_lib::group_to_multiset_ensures, vstd::multiset::group_multiset_axioms;

        assert(s.wait_queue.to_multiset().count(u as usize) <= p.tasks[u].semaphore_status[id].needed);
        if s.count + 1 <= 0 && s.wait_queue.len() > 0 {
            let w = s.wait_queue[0];
            assert(s2.wait_queue =~= s.wait_queue.remove(0));
            assert(s.wait_queue.contains(w));
            assert(s.wait_queue.to_multiset().count(w) <= p.tasks[w as int].semaphore_status[id].needed);
        }
    }
    lemma_waits_frame(p, q, id);
}

/// A `down` that goes ahead keeps the balance.
pub proof fn lemma_down_balance(p: ProcessView, q: ProcessView, t: int, id: int)
    requires
        wf(p),
        wf(q),
        balanced(p),
        p.tasks.len() <= usize::MAX,
        0 <= id < p.semaphore_list.len(),
        p.semaphore_list[id] is Some,
        down_ready(p.semaphore_list[id]->0, p.tasks, t, p.semaphore_avail),
        ({
            let (s, tasks, avail, r) = down_step(p.semaphore_list[id]->0, p.tasks, t, p.semaphore_avail);
            &&& q.tasks == tasks
            &&& q.semaphore_list == p.semaphore_list.update(id, Some(s))
            &&& q.semaphore_avail == avail
            &&& q.mutex_list == p.mutex_list
        }),
    ensures
        balanced(q),
{
    let s = p.semaphore_list[id]->0;
    lemma_semaphore_balance(s, p.tasks, t, p.semaphore_avail);
    assert forall|u: int, j: int| 0 <= u < p.tasks.len() && 0 <= j < q.mutex_list.len() && j != -1 implies #[trigger] held_by(
        q.tasks,
        u,
        j,
    ) == held_by(p.tasks, u, j) by {}
    lemma_mutexes_frame(p, q, -1);
    lemma_semaphores_frame(p, q, id);
    assert(s.index == id);
    let s2 = q.semaphore_list[id]->0;
    assert forall|u: int| 0 <= u < q.tasks.len() implies s2.wait_queue.to_multiset().count(u as usize) <= (
    #[trigger] q.tasks[u]).semaphore_status[id].needed by {
        broadcast use vstd::seq_lib::group_to_multiset_ensures, vstd::multiset::group_multiset_axioms;

        assert(s.wait_queue.to_multiset().count(u as usize) <= p.tasks[u].semaphore_status[id].needed);
    }
    lemma_waits_frame(p, q, id);
}

/// Creating a mutex keeps the balance: the new mutex is free and nobody holds it.
pub proof fn lemma_mutex_create_balance(p: ProcessView, blocking: bool, id: int)
    requires
        wf(p),
        wf(after_mutex_create(p, blocking)),
        balanced(p),
        id == first_free(p.mutex_list),
        0 <= id <= p.mutex_list.len(),
        id < p.mutex_list.len() ==> p.mutex_list[id] is None,
    ensures
        balanced(after_mutex_create(p, blocking)),
{
    let q = after_mutex_create(p, blocking);
    assert forall|t: int, j: int|
        0 <= t < p.tasks.len() && 0 <= j < q.mutex_list.len() && j != id implies #[trigger] held_by(q.tasks, t, j)
        == held_by(p.tasks, t, j) by {
        assert(p.tasks[t].mutex_status.len() == p.mutex_list.len());
    }
    assert forall|t: int| 0 <= t < q.tasks.len() implies #[trigger] held_by(q.tasks, t, id) == 0 by {
        if id == p.mutex_list.len() {
            assert(p.tasks[t].mutex_status.len() == p.mutex_list.len());
        } else {
            assert(p.tasks[t].mutex_status.len() == p.mutex_list.len());
        }
    }
    lemma_mutexes_frame(p, q, id);
    lemma_semaphores_frame(p, q, -1);
}

/// Creating a semaphore of at most `isize::MAX` units keeps the balance: its
/// count is its number of units, all available, and nobody waits.
pub proof fn lemma_semaphore_create_balance(p: ProcessView, res_count: usize, id: int)
    requires
        wf(p),
        wf(after_semaphore_create(p, res_count)),
        balanced(p),
        res_count <= isize::MAX,
        id == first_free(p.semaphore_list),
        0 <= id <= p.semaphore_list.len(),
        id < p.semaphore_list.len() ==> p.semaphore_list[id] is None,
    ensures
        balanced(after_semaphore_create(p, res_count)),
{
    let q = after_semaphore_create(p, res_count);
    assert forall|t: int, j: int|
        0 <= t < p.tasks.len() && 0 <= j < q.mutex_list.len() && j != -1 implies #[trigger] held_by(q.tasks, t, j)
        == held_by(p.tasks, t, j) by {
        assert(p.tasks[t].mutex_status.len() == p.mutex_list.len());
    }
    lemma_mutexes_frame(p, q, -1);
    lemma_semaphores_frame(p, q, id);
    assert forall|t: int, j: int|
        0 <= t < p.tasks.len() && 0 <= j < q.semaphore_list.len() && j != id implies (
        #[trigger] q.tasks[t].semaphore_status[j]).needed >= p.tasks[t].semaphore_status[j].needed by {
        assert(p.tasks[t].semaphore_status.len() == p.semaphore_list.len());
    }
    assert forall|u: int| 0 <= u < q.tasks.len() implies q.semaphore_list[id]->0.wait_queue.to_multiset().count(
        u as usize,
    ) <= (#[trigger] q.tasks[u]).semaphore_status[id].needed by {
        broadcast use vstd::seq_lib::group_to_multiset_ensures;

        assert(q.semaphore_list[id]->0.wait_queue.len() == 0);
        assert(q.semaphore_list[id]->0.wait_queue.to_multiset().len() == 0);
    }
    lemma_waits_frame(p, q, id);
}

} // verus!
