//! Task control blocks and the per-task resource bookkeeping that the
//! deadlock detector reads.

use vstd::prelude::*;

verus! {

/// What a task holds of, and still asks for, one mutex (each count is 0 or 1).
#[derive(Clone, Copy, Debug, PartialEq, Eq)]
pub struct MutexStatus {
    /// How many units of the mutex the task holds.
    pub allocated: usize,
    /// How many units of the mutex the task waits for.
    pub needed: usize,
}

impl MutexStatus {
    /// Marks the mutex as held by the task.
    pub fn allocate_set(&mut self)
        ensures
            final(self).allocated == 1,
            final(self).needed == old(self).needed,
    {
        self.allocated = 1;
    }

    /// Marks the mutex as not held by the task.
    pub fn allocate_unset(&mut self)
        ensures
            final(self).allocated == 0,
            final(self).needed == old(self).needed,
    {
        self.allocated = 0;
    }

    /// Marks the mutex as wanted by the task.
    pub fn need_set(&mut self)
        ensures
            final(self).needed == 1,
            final(self).allocated == old(self).allocated,
    {
        self.needed = 1;
    }

    /// Marks the mutex as no longer wanted by the task.
    pub fn need_unset(&mut self)
        ensures
            final(self).needed == 0,
            final(self).allocated == old(self).allocated,
    {
        self.needed = 0;
    }

    /// Forgets everything about the mutex.
    pub fn clear(&mut self)
        ensures
            *final(self) == (MutexStatus { allocated: 0, needed: 0 }),
    {
        self.allocated = 0;
        self.needed = 0;
    }

    /// The task got the mutex: it holds it and no longer waits for it.
    pub fn mutex_borrowed(&mut self)
        ensures
            *final(self) == (MutexStatus { allocated: 1, needed: 0 }),
    {
        self.allocate_set();
        self.need_unset();
    }

    /// The task asked for the mutex and has to wait: it does not hold it and waits for it.
    pub fn mutex_requested(&mut self)
        ensures
            *final(self) == (MutexStatus { allocated: 0, needed: 1 }),
    {
        self.allocate_unset();
        self.need_set();
    }
}


/// What a task holds of, and still asks for, one semaphore.
#[derive(Clone, Copy, Debug, PartialEq, Eq)]
pub struct SemaphoreStatus {
    /// How many units of the semaphore the task holds.
    pub allocated: usize,
    /// How many units of the semaphore the task waits for.
    pub needed: usize,
}

impl SemaphoreStatus {
    /// One more unit of the semaphore is held by the task.
    pub fn allocate_set(&mut self)
        requires
            old(self).allocated < usize::MAX,
        ensures
            final(self).allocated == old(self).allocated + 1,
            final(self).needed == old(self).needed,
    {
        self.allocated += 1;
    }

    /// One unit of the semaphore less is held by the task.
    pub fn allocate_unset(&mut self)
        requires
            old(self).allocated >= 1,
        ensures
            final(self).allocated == old(self).allocated - 1,
            final(self).needed == old(self).needed,
    {
        self.allocated -= 1;
    }

    /// The task waits for one more unit of the semaphore.
    pub fn need_set(&mut self)
        requires
            old(self).needed < usize::MAX,
        ensures
            final(self).needed == old(self).needed + 1,
            final(self).allocated == old(self).allocated,
    {
        self.needed += 1;
    }

    /// The task waits for one unit of the semaphore less.
    pub fn need_unset(&mut self)
        requires
            old(self).needed >= 1,
        ensures
            final(self).needed == old(self).needed - 1,
            final(self).allocated == old(self).allocated,
    {
        self.needed -= 1;
    }

    /// Forgets everything about the semaphore.
    pub fn clear(&mut self)
        ensures
            *final(self) == (SemaphoreStatus { allocated: 0, needed: 0 }),
    {
        self.allocated = 0;
        self.needed = 0;
    }

    /// A unit the task waited for was handed to it.
    pub fn semaphore_borrowed(&mut self)
        requires
            old(self).allocated < usize::MAX,
            old(self).needed >= 1,
        ensures
            *final(self) == sem_borrowed(*old(self)),
            final(self).allocated == old(self).allocated + 1,
            final(self).needed == old(self).needed - 1,
    {
        self.allocate_set();
        self.need_unset();
    }

    /// The task gave back a unit it held and waits for one again.
    pub fn semaphore_requested(&mut self)
        requires
            old(self).allocated >= 1,
            old(self).needed < usize::MAX,
        ensures
            *final(self) == sem_requested(*old(self)),
            final(self).allocated == old(self).allocated - 1,
            final(self).needed == old(self).needed + 1,
    {
        self.allocate_unset();
        self.need_set();
    }
}

/// A semaphore status after a unit the task waited for was handed to it.
pub open spec fn sem_borrowed(s: SemaphoreStatus) -> SemaphoreStatus {
    SemaphoreStatus { allocated: (s.allocated + 1) as usize, needed: (s.needed - 1) as usize }
}

/// A semaphore status after the task gave back a unit and waits for one again.
pub open spec fn sem_requested(s: SemaphoreStatus) -> SemaphoreStatus {
    SemaphoreStatus { allocated: (s.allocated - 1) as usize, needed: (s.needed + 1) as usize }
}

/// A semaphore status with one more unit waited for.
pub open spec fn sem_need_more(s: SemaphoreStatus) -> SemaphoreStatus {
    SemaphoreStatus { needed: (s.needed + 1) as usize, ..s }
}

/// A semaphore status with one unit less waited for.
pub open spec fn sem_need_less(s: SemaphoreStatus) -> SemaphoreStatus {
    SemaphoreStatus { needed: (s.needed - 1) as usize, ..s }
}

/// A semaphore status with one more unit held.
pub open spec fn sem_hold_more(s: SemaphoreStatus) -> SemaphoreStatus {
    SemaphoreStatus { allocated: (s.allocated + 1) as usize, ..s }
}

/// Execution state of a task.
#[derive(Clone, Copy, Debug, PartialEq, Eq)]
pub enum TaskStatus {
    /// Ready, waiting to be scheduled.
    Ready,
    /// Running.
    Running,
    /// Blocked, waiting for a resource or an event.
    Blocked,
}

/// The mutable part of a task control block.
pub struct TaskControlBlockInner {
    /// Physical page number of the page that holds the task's trap context.
    pub trap_cx_ppn: usize,
    /// Current execution state.
    pub task_status: TaskStatus,
    /// Exit code, once the task has exited.
    pub exit_code: Option<i32>,
    /// Bookkeeping of each mutex of the process, by mutex id.
    pub mutex_status: Vec<MutexStatus>,
    /// Bookkeeping of each semaphore of the process, by semaphore id.
    pub semaphore_status: Vec<SemaphoreStatus>,
}

impl TaskControlBlockInner {
    /// The task's execution state.
    pub fn get_status(&self) -> (r: TaskStatus)
        ensures
            r == self.task_status,
    {
        self.task_status
    }
}

/// A task (thread) of a process.
pub struct TaskControlBlock {
    /// Identifier of the task's kernel stack.
    pub kstack: usize,
    /// The mutable part.
    pub inner: TaskControlBlockInner,
}

/// A task taken as plain values.
#[verifier::ext_equal]
pub struct TaskView {
    pub kstack: usize,
    pub trap_cx_ppn: usize,
    pub task_status: TaskStatus,
    pub exit_code: Option<i32>,
    pub mutex_status: Seq<MutexStatus>,
    pub semaphore_status: Seq<SemaphoreStatus>,
}

impl View for TaskControlBlock {
    type V = TaskView;

    open spec fn view(&self) -> TaskView {
        TaskView {
            kstack: self.kstack,
            trap_cx_ppn: self.inner.trap_cx_ppn,
            task_status: self.inner.task_status,
            exit_code: self.inner.exit_code,
            mutex_status: self.inner.mutex_status@,
            semaphore_status: self.inner.semaphore_status@,
        }
    }
}

/// The tasks of a process, each taken by its view.
pub open spec fn tasks_view(ts: Seq<TaskControlBlock>) -> Seq<TaskView> {
    ts.map_values(|t: TaskControlBlock| t@)
}

/// `tasks` with entry `id` of task `t`'s mutex bookkeeping replaced by `s`.
pub open spec fn set_mutex_status(tasks: Seq<TaskView>, t: int, id: int, s: MutexStatus) -> Seq<TaskView> {
    with_mutex_row(tasks, t, tasks[t].mutex_status.update(id, s))
}

/// `tasks` with entry `id` of task `t`'s semaphore bookkeeping replaced by `s`.
pub open spec fn set_semaphore_status(tasks: Seq<TaskView>, t: int, id: int, s: SemaphoreStatus) -> Seq<
    TaskView,
> {
    with_semaphore_row(tasks, t, tasks[t].semaphore_status.update(id, s))
}

/// `tasks` with a fresh, empty mutex entry appended to every task's bookkeeping.
pub open spec fn grow_mutex_status(tasks: Seq<TaskView>) -> Seq<TaskView> {
    Seq::new(
        tasks.len(),
        |t: int|
            TaskView {
                mutex_status: tasks[t].mutex_status.push(MutexStatus { allocated: 0, needed: 0 }),
                ..tasks[t]
            },
    )
}

/// `tasks` with entry `id` of every task's mutex bookkeeping emptied.
pub open spec fn clear_mutex_status(tasks: Seq<TaskView>, id: int) -> Seq<TaskView> {
    Seq::new(
        tasks.len(),
        |t: int|
            TaskView {
                mutex_status: tasks[t].mutex_status.update(id, MutexStatus { allocated: 0, needed: 0 }),
                ..tasks[t]
            },
    )
}

/// `tasks` with a fresh, empty semaphore entry appended to every task's bookkeeping.
pub open spec fn grow_semaphore_status(tasks: Seq<TaskView>) -> Seq<TaskView> {
    Seq::new(
        tasks.len(),
        |t: int|
            TaskView {
                semaphore_status: tasks[t].semaphore_status.push(SemaphoreStatus { allocated: 0, needed: 0 }),
                ..tasks[t]
            },
    )
}

/// `tasks` with entry `id` of every task's semaphore bookkeeping emptied.
pub open spec fn clear_semaphore_status(tasks: Seq<TaskView>, id: int) -> Seq<TaskView> {
    Seq::new(
        tasks.len(),
        |t: int|
            TaskView {
                semaphore_status: tasks[t].semaphore_status.update(
                    id,
                    SemaphoreStatus { allocated: 0, needed: 0 },
                ),
                ..tasks[t]
            },
    )
}

/// Task `t` of `tasks` with its mutex bookkeeping replaced by `ms`.
pub open spec fn with_mutex_row(tasks: Seq<TaskView>, t: int, ms: Seq<MutexStatus>) -> Seq<TaskView> {
    tasks.update(t, TaskView { mutex_status: ms, ..tasks[t] })
}

/// Task `t` of `tasks` with its semaphore bookkeeping replaced by `ss`.
pub open spec fn with_semaphore_row(tasks: Seq<TaskView>, t: int, ss: Seq<SemaphoreStatus>) -> Seq<TaskView> {
    tasks.update(t, TaskView { semaphore_status: ss, ..tasks[t] })
}

/// Appends `s` to task `t`'s mutex bookkeeping.
fn push_mutex_entry(tasks: &mut Vec<TaskControlBlock>, t: usize, s: MutexStatus)
    requires
        t < old(tasks).len(),
    ensures
        final(tasks).len() == old(tasks).len(),
        tasks_view(final(tasks)@) == with_mutex_row(
            tasks_view(old(tasks)@),
            t as int,
            tasks_view(old(tasks)@)[t as int].mutex_status.push(s),
        ),
{
    let ghost before = tasks_view(tasks@);
    tasks[t].inner.mutex_status.push(s);
    proof {
        let expect = with_mutex_row(before, t as int, before[t as int].mutex_status.push(s));
        assert(tasks_view(tasks@)[t as int].mutex_status =~= expect[t as int].mutex_status);
        assert(tasks_view(tasks@) =~~= expect);
    }
}

/// Sets entry `id` of task `t`'s mutex bookkeeping to `s`.
pub(crate) fn set_mutex_entry(tasks: &mut Vec<TaskControlBlock>, t: usize, id: usize, s: MutexStatus)
    requires
        t < old(tasks).len(),
        id < old(tasks)@[t as int].inner.mutex_status.len(),
    ensures
        final(tasks).len() == old(tasks).len(),
        tasks_view(final(tasks)@) == with_mutex_row(
            tasks_view(old(tasks)@),
            t as int,
            tasks_view(old(tasks)@)[t as int].mutex_status.update(id as int, s),
        ),
{
    let ghost before = tasks_view(tasks@);
    tasks[t].inner.mutex_status.set(id, s);
    proof {
        let expect = with_mutex_row(before, t as int, before[t as int].mutex_status.update(id as int, s));
        assert(tasks_view(tasks@)[t as int].mutex_status =~= expect[t as int].mutex_status);
        assert(tasks_view(tasks@) =~~= expect);
    }
}

/// Appends `s` to task `t`'s semaphore bookkeeping.
fn push_semaphore_entry(tasks: &mut Vec<TaskControlBlock>, t: usize, s: SemaphoreStatus)
    requires
        t < old(tasks).len(),
    ensures
        final(tasks).len() == old(tasks).len(),
        tasks_view(final(tasks)@) == with_semaphore_row(
            tasks_view(old(tasks)@),
            t as int,
            tasks_view(old(tasks)@)[t as int].semaphore_status.push(s),
        ),
{
    let ghost before = tasks_view(tasks@);
    tasks[t].inner.semaphore_status.push(s);
    proof {
        let expect = with_semaphore_row(before, t as int, before[t as int].semaphore_status.push(s));
        assert(tasks_view(tasks@)[t as int].semaphore_status =~= expect[t as int].semaphore_status);
        assert(tasks_view(tasks@) =~~= expect);
    }
}

/// Sets entry `id` of task `t`'s semaphore bookkeeping to `s`.
pub(crate) fn set_semaphore_entry(tasks: &mut Vec<TaskControlBlock>, t: usize, id: usize, s: SemaphoreStatus)
    requires
        t < old(tasks).len(),
        id < old(tasks)@[t as int].inner.semaphore_status.len(),
    ensures
        final(tasks).len() == old(tasks).len(),
        tasks_view(final(tasks)@) == with_semaphore_row(
            tasks_view(old(tasks)@),
            t as int,
            tasks_view(old(tasks)@)[t as int].semaphore_status.update(id as int, s),
        ),
{
    let ghost before = tasks_view(tasks@);
    tasks[t].inner.semaphore_status.set(id, s);
    proof {
        let expect = with_semaphore_row(before, t as int, before[t as int].semaphore_status.update(id as int, s));
        assert(tasks_view(tasks@)[t as int].semaphore_status =~= expect[t as int].semaphore_status);
        assert(tasks_view(tasks@) =~~= expect);
    }
}

/// Appends an empty mutex entry to every task's bookkeeping.
pub(crate) fn grow_mutex_slots(tasks: &mut Vec<TaskControlBlock>)
    ensures
        tasks_view(final(tasks)@) == grow_mutex_status(tasks_view(old(tasks)@)),
{
    let ghost before = tasks_view(tasks@);
    let n: usize = tasks.len();
    let mut tid: usize = 0;
    while tid < n
        invariant
            n == tasks.len(),
            tid <= n,
            before.len() == n,
            tasks_view(tasks@).len() == n,
            forall|t: int| 0 <= t < tid ==> #[trigger] tasks_view(tasks@)[t] == grow_mutex_status(before)[t],
            forall|t: int| tid <= t < n ==> #[trigger] tasks_view(tasks@)[t] == before[t],
        decreases n - tid,
    {
        let ghost pre = tasks_view(tasks@);
        proof {
            assert(pre[tid as int] == before[tid as int]);
        }
        push_mutex_entry(tasks, tid, MutexStatus { allocated: 0, needed: 0 });
        proof {
            assert(tasks_view(tasks@)[tid as int] =~~= grow_mutex_status(before)[tid as int]);
        }
        tid = tid + 1;
    }
    proof {
        assert(tasks_view(tasks@) =~~= grow_mutex_status(before));
    }
}

/// Empties entry `id` of every task's mutex bookkeeping.
pub(crate) fn clear_mutex_slots(tasks: &mut Vec<TaskControlBlock>, id: usize)
    requires
        forall|t: int| 0 <= t < old(tasks).len() ==> id < (#[trigger] old(tasks)@[t]).inner.mutex_status.len(),
    ensures
        tasks_view(final(tasks)@) == clear_mutex_status(tasks_view(old(tasks)@), id as int),
{
    let ghost before = tasks_view(tasks@);
    let n: usize = tasks.len();
    let mut tid: usize = 0;
    while tid < n
        invariant
            n == tasks.len(),
            tid <= n,
            before.len() == n,
            forall|t: int| 0 <= t < n ==> id < (#[trigger] before[t]).mutex_status.len(),
            tasks_view(tasks@).len() == n,
            forall|t: int| 0 <= t < tid ==> #[trigger] tasks_view(tasks@)[t] == clear_mutex_status(before, id as int)[t],
            forall|t: int| tid <= t < n ==> #[trigger] tasks_view(tasks@)[t] == before[t],
        decreases n - tid,
    {
        let ghost pre = tasks_view(tasks@);
        proof {
            assert(pre[tid as int] == before[tid as int]);
        }
        set_mutex_entry(tasks, tid, id, MutexStatus { allocated: 0, needed: 0 });
        proof {
            assert(tasks_view(tasks@)[tid as int] =~~= clear_mutex_status(before, id as int)[tid as int]);
        }
        tid = tid + 1;
    }
    proof {
        assert(tasks_view(tasks@) =~~= clear_mutex_status(before, id as int));
    }
}

/// Appends an empty semaphore entry to every task's bookkeeping.
pub(crate) fn grow_semaphore_slots(tasks: &mut Vec<TaskControlBlock>)
    ensures
        tasks_view(final(tasks)@) == grow_semaphore_status(tasks_view(old(tasks)@)),
{
    let ghost before = tasks_view(tasks@);
    let n: usize = tasks.len();
    let mut tid: usize = 0;
    while tid < n
        invariant
            n == tasks.len(),
            tid <= n,
            before.len() == n,
            tasks_view(tasks@).len() == n,
            forall|t: int| 0 <= t < tid ==> #[trigger] tasks_view(tasks@)[t] == grow_semaphore_status(before)[t],
            forall|t: int| tid <= t < n ==> #[trigger] tasks_view(tasks@)[t] == before[t],
        decreases n - tid,
    {
        let ghost pre = tasks_view(tasks@);
        proof {
            assert(pre[tid as int] == before[tid as int]);
        }
        push_semaphore_entry(tasks, tid, SemaphoreStatus { allocated: 0, needed: 0 });
        proof {
            assert(tasks_view(tasks@)[tid as int] =~~= grow_semaphore_status(before)[tid as int]);
        }
        tid = tid + 1;
    }
    proof {
        assert(tasks_view(tasks@) =~~= grow_semaphore_status(before));
    }
}

/// Empties entry `id` of every task's semaphore bookkeeping.
pub(crate) fn clear_semaphore_slots(tasks: &mut Vec<TaskControlBlock>, id: usize)
    requires
        forall|t: int| 0 <= t < old(tasks).len() ==> id < (#[trigger] old(tasks)@[t]).inner.semaphore_status.len(),
    ensures
        tasks_view(final(tasks)@) == clear_semaphore_status(tasks_view(old(tasks)@), id as int),
{
    let ghost before = tasks_view(tasks@);
    let n: usize = tasks.len();
    let mut tid: usize = 0;
    while tid < n
        invariant
            n == tasks.len(),
            tid <= n,
            before.len() == n,
            forall|t: int| 0 <= t < n ==> id < (#[trigger] before[t]).semaphore_status.len(),
            tasks_view(tasks@).len() == n,
            forall|t: int| 0 <= t < tid ==> #[trigger] tasks_view(tasks@)[t] == clear_semaphore_status(before, id as int)[t],
            forall|t: int| tid <= t < n ==> #[trigger] tasks_view(tasks@)[t] == before[t],
        decreases n - tid,
    {
        let ghost pre = tasks_view(tasks@);
        proof {
            assert(pre[tid as int] == before[tid as int]);
        }
        set_semaphore_entry(tasks, tid, id, SemaphoreStatus { allocated: 0, needed: 0 });
        proof {
            assert(tasks_view(tasks@)[tid as int] =~~= clear_semaphore_status(before, id as int)[tid as int]);
        }
        tid = tid + 1;
    }
    proof {
        assert(tasks_view(tasks@) =~~= clear_semaphore_status(before, id as int));
    }
}

impl TaskControlBlock {
    /// A fresh task on the given kernel stack, with its trap context in page
    /// `trap_cx_ppn`: ready, not exited, with no resource bookkeeping yet.
    pub fn new(kstack: usize, trap_cx_ppn: usize) -> (r: Self)
        ensures
            r@ == (TaskView {
                kstack,
                trap_cx_ppn,
                task_status: TaskStatus::Ready,
                exit_code: None,
                mutex_status: Seq::empty(),
                semaphore_status: Seq::empty(),
            }),
    {
        TaskControlBlock {
            kstack,
            inner: TaskControlBlockInner {
                trap_cx_ppn,
                task_status: TaskStatus::Ready,
                exit_code: None,
                mutex_status: Vec::new(),
                semaphore_status: Vec::new(),
            },
        }
    }

    /// Exclusive access to the mutable part of the task.
    pub fn inner_exclusive_access(&mut self) -> (r: &mut TaskControlBlockInner)
        ensures
            *r == old(self).inner,
            final(self).inner == *final(r),
            final(self).kstack == old(self).kstack,
    {
        &mut self.inner
    }
}

} // verus!
