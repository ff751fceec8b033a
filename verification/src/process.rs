//! The synchronisation state of a process: its tasks, mutexes, semaphores
//! and condition variables, and what is available of each resource.

use crate::balance::{
    balanced, lemma_lock_balance, lemma_new_task_balance, lemma_unlock_balance, not_first_waiter,
};
use crate::sched::Resume;
use crate::sync::condvar::Condvar;
use crate::sync::mutex::{held_by, waiters_only_when_held, Mutex, MutexBlocking, MutexBlockingView, MutexSpin};
use crate::sync::semaphore::{Semaphore, SemaphoreView};
use crate::task::{tasks_view, MutexStatus, SemaphoreStatus, TaskControlBlock, TaskStatus, TaskView};
use vstd::prelude::*;

verus! {

/// One of the two kinds of mutex a process can create.
pub enum AnyMutex {
    /// A spinning mutex.
    Spin(MutexSpin),
    /// A blocking mutex.
    Blocking(MutexBlocking),
}

/// A mutex of either kind, taken as plain values.
#[verifier::ext_equal]
pub enum MutexView {
    Spin(MutexSpin),
    Blocking(MutexBlockingView),
}

impl View for AnyMutex {
    type V = MutexView;

    open spec fn view(&self) -> MutexView {
        match self {
            AnyMutex::Spin(m) => MutexView::Spin(*m),
            AnyMutex::Blocking(m) => MutexView::Blocking(m@),
        }
    }
}

/// The synchronisation state of a process.
pub struct ProcessControlBlockInner {
    /// The tasks of the process; a task's index here is its id.
    pub tasks: Vec<TaskControlBlock>,
    /// Mutex slots, by mutex id; `None` is a free slot.
    pub mutex_list: Vec<Option<AnyMutex>>,
    /// For each mutex id, how many units of the mutex are free.
    pub mutex_avail: Vec<usize>,
    /// Semaphore slots, by semaphore id; `None` is a free slot.
    pub semaphore_list: Vec<Option<Semaphore>>,
    /// For each semaphore id, how many units of the semaphore are free.
    pub semaphore_avail: Vec<usize>,
    /// Condition variable slots, by id; `None` is a free slot.
    pub condvar_list: Vec<Option<Condvar>>,
    /// Whether lock and down requests are checked for deadlock first.
    pub deadlock_detect: bool,
    /// The token (page-table root) of the process's address space.
    pub memory_token: usize,
}

/// A process taken as plain values.
#[verifier::ext_equal]
pub struct ProcessView {
    pub tasks: Seq<TaskView>,
    pub mutex_list: Seq<Option<MutexView>>,
    pub mutex_avail: Seq<usize>,
    pub semaphore_list: Seq<Option<SemaphoreView>>,
    pub semaphore_avail: Seq<usize>,
    pub condvar_list: Seq<Option<Seq<usize>>>,
    pub deadlock_detect: bool,
    pub memory_token: usize,
}

/// A mutex slot taken as plain values.
pub open spec fn mutex_slot_view(o: Option<AnyMutex>) -> Option<MutexView> {
    match o {
        Some(m) => Some(m@),
        None => None,
    }
}

/// A semaphore slot taken as plain values.
pub open spec fn semaphore_slot_view(o: Option<Semaphore>) -> Option<SemaphoreView> {
    match o {
        Some(s) => Some(s@),
        None => None,
    }
}

/// A condition variable slot taken as plain values.
pub open spec fn condvar_slot_view(o: Option<Condvar>) -> Option<Seq<usize>> {
    match o {
        Some(c) => Some(c@),
        None => None,
    }
}

impl View for ProcessControlBlockInner {
    type V = ProcessView;

    open spec fn view(&self) -> ProcessView {
        ProcessView {
            tasks: tasks_view(self.tasks@),
            mutex_list: self.mutex_list@.map_values(|o: Option<AnyMutex>| mutex_slot_view(o)),
            mutex_avail: self.mutex_avail@,
            semaphore_list: self.semaphore_list@.map_values(|o: Option<Semaphore>| semaphore_slot_view(o)),
            semaphore_avail: self.semaphore_avail@,
            condvar_list: self.condvar_list@.map_values(|o: Option<Condvar>| condvar_slot_view(o)),
            deadlock_detect: self.deadlock_detect,
            memory_token: self.memory_token,
        }
    }
}

/// The id a mutex claims, whatever its kind.
pub open spec fn mutex_id(m: MutexView) -> usize {
    match m {
        MutexView::Spin(s) => s.index,
        MutexView::Blocking(b) => b.index,
    }
}

/// Whether a mutex of either kind is taken.
pub open spec fn mutex_locked(m: MutexView) -> bool {
    match m {
        MutexView::Spin(s) => s.locked,
        MutexView::Blocking(b) => b.locked,
    }
}

/// A task's entry for a mutex counts 0 or 1 held and 0 or 1 waited for.
pub open spec fn mutex_entry_ok(s: MutexStatus) -> bool {
    s.allocated <= 1 && s.needed <= 1
}

/// Every task id in `q` names a task of a process with `n` tasks.
pub open spec fn queue_in(q: Seq<usize>, n: int) -> bool {
    forall|i: int| 0 <= i < q.len() ==> #[trigger] q[i] < n
}

/// The bookkeeping of a process fits together: availability vectors and the
/// tasks' bookkeeping have an entry for every slot, each object sits in the
/// slot of its id, and every waiting task is a task of the process. Mutex
/// entries count 0 or 1; a mutex is available exactly while it is free, and
/// nobody waits for a free blocking mutex.
pub open spec fn wf(p: ProcessView) -> bool {
    let n = p.tasks.len() as int;
    &&& p.mutex_avail.len() == p.mutex_list.len()
    &&& p.semaphore_avail.len() == p.semaphore_list.len()
    &&& forall|t: int|
        0 <= t < n ==> (#[trigger] p.tasks[t]).mutex_status.len() == p.mutex_list.len()
            && p.tasks[t].semaphore_status.len() == p.semaphore_list.len()
    &&& forall|t: int, r: int|
        0 <= t < n && 0 <= r < p.mutex_list.len() ==> mutex_entry_ok(#[trigger] p.tasks[t].mutex_status[r])
    &&& forall|i: int|
        0 <= i < p.mutex_list.len() && (#[trigger] p.mutex_list[i]) is Some ==> {
            let m = p.mutex_list[i]->0;
            &&& mutex_id(m) == i
            &&& p.mutex_avail[i] == (if mutex_locked(m) {
                0usize
            } else {
                1usize
            })
            &&& (m matches MutexView::Blocking(b) ==> queue_in(b.wait_queue, n) && waiters_only_when_held(b))
        }
    &&& forall|i: int|
        0 <= i < p.semaphore_list.len() && (#[trigger] p.semaphore_list[i]) is Some ==> {
            &&& p.semaphore_list[i]->0.index == i
            &&& queue_in(p.semaphore_list[i]->0.wait_queue, n)
        }
    &&& forall|i: int|
        0 <= i < p.condvar_list.len() && (#[trigger] p.condvar_list[i]) is Some ==> queue_in(
            p.condvar_list[i]->0,
            n,
        )
}

/// Process `p` after task `current` locks mutex `id`, and what becomes of the task.
pub open spec fn mutex_lock_step(p: ProcessView, current: int, id: int) -> (ProcessView, Resume) {
    match p.mutex_list[id]->0 {
        MutexView::Spin(m) => {
            let (m2, tasks, avail, r) = <MutexSpin as Mutex>::lock_step(m, p.tasks, current, p.mutex_avail);
            (
                ProcessView {
                    tasks,
                    mutex_list: p.mutex_list.update(id, Some(MutexView::Spin(m2))),
                    mutex_avail: avail,
                    ..p
                },
                r,
            )
        },
        MutexView::Blocking(m) => {
            let (m2, tasks, avail, r) = <MutexBlocking as Mutex>::lock_step(m, p.tasks, current, p.mutex_avail);
            (
                ProcessView {
                    tasks,
                    mutex_list: p.mutex_list.update(id, Some(MutexView::Blocking(m2))),
                    mutex_avail: avail,
                    ..p
                },
                r,
            )
        },
    }
}

/// Mutex `id` of `p` can be unlocked: a blocking mutex must be held.
pub open spec fn mutex_unlock_ready(p: ProcessView, id: int) -> bool {
    match p.mutex_list[id]->0 {
        MutexView::Spin(m) => true,
        MutexView::Blocking(m) => m.locked,
    }
}

/// Process `p` after task `current` unlocks mutex `id`, and the task woken up.
pub open spec fn mutex_unlock_step(p: ProcessView, current: int, id: int) -> (ProcessView, Option<usize>) {
    match p.mutex_list[id]->0 {
        MutexView::Spin(m) => {
            let (m2, tasks, avail, r) = <MutexSpin as Mutex>::unlock_step(m, p.tasks, current, p.mutex_avail);
            (
                ProcessView {
                    tasks,
                    mutex_list: p.mutex_list.update(id, Some(MutexView::Spin(m2))),
                    mutex_avail: avail,
                    ..p
                },
                r,
            )
        },
        MutexView::Blocking(m) => {
            let (m2, tasks, avail, r) = <MutexBlocking as Mutex>::unlock_step(m, p.tasks, current, p.mutex_avail);
            (
                ProcessView {
                    tasks,
                    mutex_list: p.mutex_list.update(id, Some(MutexView::Blocking(m2))),
                    mutex_avail: avail,
                    ..p
                },
                r,
            )
        },
    }
}

/// A process with no tasks and no synchronisation objects, deadlock
/// detection off, on the address space with token `memory_token`.
pub open spec fn empty_process(memory_token: usize) -> ProcessView {
    ProcessView {
        tasks: Seq::empty(),
        mutex_list: Seq::empty(),
        mutex_avail: Seq::empty(),
        semaphore_list: Seq::empty(),
        semaphore_avail: Seq::empty(),
        condvar_list: Seq::empty(),
        deadlock_detect: false,
        memory_token,
    }
}

/// A fresh, ready task with an empty entry for each of `n_mutex` mutex slots
/// and `n_sem` semaphore slots.
pub open spec fn fresh_task(kstack: usize, trap_cx_ppn: usize, n_mutex: nat, n_sem: nat) -> TaskView {
    TaskView {
        kstack,
        trap_cx_ppn,
        task_status: TaskStatus::Ready,
        exit_code: None,
        mutex_status: Seq::new(n_mutex, |i: int| MutexStatus { allocated: 0, needed: 0 }),
        semaphore_status: Seq::new(n_sem, |i: int| SemaphoreStatus { allocated: 0, needed: 0 }),
    }
}

impl TaskControlBlock {
    /// The token of the address space of the task's process.
    pub fn get_user_token(&self, process: &ProcessControlBlockInner) -> (r: usize)
        ensures
            r == process.memory_token,
    {
        process.memory_token
    }
}

impl ProcessControlBlockInner {
    /// A process with no tasks and no synchronisation objects yet, deadlock
    /// detection off, on the address space with token `memory_token`. It is
    /// well-formed and balanced.
    pub fn new(memory_token: usize) -> (r: Self)
        ensures
            r@ == empty_process(memory_token),
            wf(r@),
            balanced(r@),
    {
        let r = ProcessControlBlockInner {
            tasks: Vec::new(),
            mutex_list: Vec::new(),
            mutex_avail: Vec::new(),
            semaphore_list: Vec::new(),
            semaphore_avail: Vec::new(),
            condvar_list: Vec::new(),
            deadlock_detect: false,
            memory_token,
        };
        proof {
            assert(r@ =~= empty_process(memory_token));
        }
        r
    }

    /// Adds a ready task on kernel stack `kstack`, with its trap context in
    /// page `trap_cx_ppn` and an empty entry for every mutex and semaphore
    /// slot of the process; returns its id. The process stays well-formed,
    /// and balanced if it was.
    pub fn add_task(&mut self, kstack: usize, trap_cx_ppn: usize) -> (r: usize)
        requires
            wf(old(self)@),
        ensures
            r == old(self)@.tasks.len(),
            final(self)@ == (ProcessView {
                tasks: old(self)@.tasks.push(
                    fresh_task(
                        kstack,
                        trap_cx_ppn,
                        old(self)@.mutex_list.len(),
                        old(self)@.semaphore_list.len(),
                    ),
                ),
                ..old(self)@
            }),
            wf(final(self)@),
            balanced(old(self)@) ==> balanced(final(self)@),
    {
        let ghost p0 = self@;
        let mut task = TaskControlBlock::new(kstack, trap_cx_ppn);
        let n_mutex: usize = self.mutex_list.len();
        let mut i: usize = 0;
        while i < n_mutex
            invariant
                i <= n_mutex,
                task.inner.mutex_status@ =~= Seq::new(i as nat, |j: int| MutexStatus { allocated: 0, needed: 0 }),
                task.inner.semaphore_status@ == Seq::<SemaphoreStatus>::empty(),
                task.kstack == kstack,
                task.inner.trap_cx_ppn == trap_cx_ppn,
                task.inner.task_status == TaskStatus::Ready,
                task.inner.exit_code is None,
            decreases n_mutex - i,
        {
            task.inner.mutex_status.push(MutexStatus { allocated: 0, needed: 0 });
            i = i + 1;
        }
        let n_sem: usize = self.semaphore_list.len();
        let mut k: usize = 0;
        while k < n_sem
            invariant
                k <= n_sem,
                task.inner.semaphore_status@ =~= Seq::new(
                    k as nat,
                    |j: int| SemaphoreStatus { allocated: 0, needed: 0 },
                ),
                task.inner.mutex_status@ =~= Seq::new(
                    n_mutex as nat,
                    |j: int| MutexStatus { allocated: 0, needed: 0 },
                ),
                task.kstack == kstack,
                task.inner.trap_cx_ppn == trap_cx_ppn,
                task.inner.task_status == TaskStatus::Ready,
                task.inner.exit_code is None,
            decreases n_sem - k,
        {
            task.inner.semaphore_status.push(SemaphoreStatus { allocated: 0, needed: 0 });
            k = k + 1;
        }
        let id: usize = self.tasks.len();
        let ghost fresh = fresh_task(kstack, trap_cx_ppn, n_mutex as nat, n_sem as nat);
        assert(task@ =~~= fresh);
        self.tasks.push(task);
        proof {
            assert(tasks_view(self.tasks@) =~= p0.tasks.push(fresh));
            let q = ProcessView { tasks: p0.tasks.push(fresh), ..p0 };
            assert(self@ =~= q);
            assert forall|t: int, r: int|
                0 <= t < q.tasks.len() && 0 <= r < q.mutex_list.len() implies mutex_entry_ok(
                #[trigger] q.tasks[t].mutex_status[r],
            ) by {
                if t < p0.tasks.len() {
                    assert(q.tasks[t] == p0.tasks[t]);
                }
            }
            assert(q.tasks.len() == self.tasks.len());
            if balanced(p0) {
                lemma_new_task_balance(p0, q);
            }
        }
        id
    }

    /// Task `current` locks mutex `mutex_id`, whatever its kind.
    pub fn lock_mutex(&mut self, current: usize, mutex_id: usize) -> (r: Resume)
        requires
            wf(old(self)@),
            current < old(self)@.tasks.len(),
            mutex_id < old(self)@.mutex_list.len(),
            old(self)@.mutex_list[mutex_id as int] is Some,
        ensures
            wf(final(self)@),
            (final(self)@, r) == mutex_lock_step(old(self)@, current as int, mutex_id as int),
            balanced(old(self)@) && (mutex_locked(old(self)@.mutex_list[mutex_id as int]->0) ==> held_by(
                old(self)@.tasks,
                current as int,
                mutex_id as int,
            ) == 0) ==> balanced(final(self)@),
    {
        let ghost p0 = self@;
        let r = match &mut self.mutex_list[mutex_id] {
            Some(AnyMutex::Spin(m)) => m.lock(&mut self.tasks, current, &mut self.mutex_avail),
            Some(AnyMutex::Blocking(m)) => m.lock(&mut self.tasks, current, &mut self.mutex_avail),
            None => Resume::Return,
        };
        proof {
            let (q, rr) = mutex_lock_step(p0, current as int, mutex_id as int);
            assert(self@.mutex_list =~= q.mutex_list);
            assert(self@ =~= q);
            if balanced(p0) && (mutex_locked(p0.mutex_list[mutex_id as int]->0) ==> held_by(
                p0.tasks,
                current as int,
                mutex_id as int,
            ) == 0) {
                lemma_lock_balance(p0, current as int, mutex_id as int);
            }
        }
        r
    }

    /// Task `current` unlocks mutex `mutex_id`, whatever its kind; returns the task woken up.
    pub fn unlock_mutex(&mut self, current: usize, mutex_id: usize) -> (r: Option<usize>)
        requires
            wf(old(self)@),
            current < old(self)@.tasks.len(),
            mutex_id < old(self)@.mutex_list.len(),
            old(self)@.mutex_list[mutex_id as int] is Some,
            mutex_unlock_ready(old(self)@, mutex_id as int),
        ensures
            wf(final(self)@),
            (final(self)@, r) == mutex_unlock_step(old(self)@, current as int, mutex_id as int),
            balanced(old(self)@) && held_by(old(self)@.tasks, current as int, mutex_id as int) == 1
                && not_first_waiter(old(self)@.mutex_list[mutex_id as int]->0, current as int) ==> balanced(
                final(self)@,
            ),
    {
        let ghost p0 = self@;
        let r = match &mut self.mutex_list[mutex_id] {
            Some(AnyMutex::Spin(m)) => m.unlock(&mut self.tasks, current, &mut self.mutex_avail),
            Some(AnyMutex::Blocking(m)) => m.unlock(&mut self.tasks, current, &mut self.mutex_avail),
            None => None,
        };
        proof {
            let (q, rr) = mutex_unlock_step(p0, current as int, mutex_id as int);
            assert(self@.mutex_list =~= q.mutex_list);
            assert(self@ =~= q);
            if balanced(p0) && held_by(p0.tasks, current as int, mutex_id as int) == 1 && not_first_waiter(
                p0.mutex_list[mutex_id as int]->0,
                current as int,
            ) {
                lemma_unlock_balance(p0, current as int, mutex_id as int);
            }
        }
        r
    }
}

} // verus!
