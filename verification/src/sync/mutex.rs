//! Mutexes: a spinning one and a blocking one.
//!
//! Both keep the per-task bookkeeping (`MutexStatus`) and the process-wide
//! availability of the mutex up to date, for the deadlock detector.

use crate::sched::Resume;
use crate::task::{set_mutex_entry, set_mutex_status, tasks_view, MutexStatus, TaskControlBlock, TaskView};
use std::collections::VecDeque;
use vstd::prelude::*;

verus! {

/// A mutex, as the system calls use it.
///
/// `lock` and `unlock` act on the mutex, on the tasks of its process (the
/// caller is `current`) and on the process's availability vector.
pub trait Mutex: View + Sized {
    /// `lock` can be called on this state without fault.
    spec fn lock_ready(v: Self::V, tasks: Seq<TaskView>, current: int, avail: Seq<usize>) -> bool;

    /// New mutex, tasks and availability after `lock`, and what becomes of the caller.
    spec fn lock_step(v: Self::V, tasks: Seq<TaskView>, current: int, avail: Seq<usize>) -> (
        Self::V,
        Seq<TaskView>,
        Seq<usize>,
        Resume,
    );

    /// `unlock` can be called on this state without fault.
    spec fn unlock_ready(v: Self::V, tasks: Seq<TaskView>, current: int, avail: Seq<usize>) -> bool;

    /// New mutex, tasks and availability after `unlock`, and the task woken up.
    spec fn unlock_step(v: Self::V, tasks: Seq<TaskView>, current: int, avail: Seq<usize>) -> (
        Self::V,
        Seq<TaskView>,
        Seq<usize>,
        Option<usize>,
    );

    /// Lock the mutex.
    fn lock(&mut self, tasks: &mut Vec<TaskControlBlock>, current: usize, avail: &mut Vec<usize>) -> (r:
        Resume)
        requires
            Self::lock_ready(old(self)@, tasks_view(old(tasks)@), current as int, old(avail)@),
        ensures
            (final(self)@, tasks_view(final(tasks)@), final(avail)@, r) == Self::lock_step(
                old(self)@,
                tasks_view(old(tasks)@),
                current as int,
                old(avail)@,
            ),
    ;

    /// Unlock the mutex.
    fn unlock(&mut self, tasks: &mut Vec<TaskControlBlock>, current: usize, avail: &mut Vec<usize>) -> (r:
        Option<usize>)
        requires
            Self::unlock_ready(old(self)@, tasks_view(old(tasks)@), current as int, old(avail)@),
        ensures
            (final(self)@, tasks_view(final(tasks)@), final(avail)@, r) == Self::unlock_step(
                old(self)@,
                tasks_view(old(tasks)@),
                current as int,
                old(avail)@,
            ),
    ;
}

/// Task `t`'s bookkeeping entry for mutex `id` exists.
pub open spec fn entry_ready(tasks: Seq<TaskView>, t: int, id: int) -> bool {
    &&& 0 <= t < tasks.len()
    &&& 0 <= id < tasks[t].mutex_status.len()
}

/// Task `t`'s bookkeeping entry for mutex `id` exists, and so does the
/// mutex's availability entry.
pub open spec fn slot_ready(tasks: Seq<TaskView>, t: int, id: int, avail: Seq<usize>) -> bool {
    &&& entry_ready(tasks, t, id)
    &&& id < avail.len()
}

/// A spinning mutex: a task that finds it taken gives up the processor and tries again.
#[derive(Clone, Copy, Debug, PartialEq, Eq)]
pub struct MutexSpin {
    /// Whether some task holds the mutex.
    pub locked: bool,
    /// The mutex's id in its process.
    pub index: usize,
}

impl MutexSpin {
    /// A free spinning mutex with id `id`.
    pub fn new(id: usize) -> (r: Self)
        ensures
            r == (MutexSpin { locked: false, index: id }),
    {
        MutexSpin { locked: false, index: id }
    }
}

impl View for MutexSpin {
    type V = MutexSpin;

    open spec fn view(&self) -> MutexSpin {
        *self
    }
}

impl Mutex for MutexSpin {
    /// The caller's entry exists; the availability entry too when the mutex is free.
    open spec fn lock_ready(v: MutexSpin, tasks: Seq<TaskView>, current: int, avail: Seq<usize>) -> bool {
        &&& entry_ready(tasks, current, v.index as int)
        &&& !v.locked ==> v.index < avail.len()
    }

    /// Taken: the caller is marked as waiting and retries later.
    /// Free: the caller takes it and the mutex is no longer available.
    open spec fn lock_step(v: MutexSpin, tasks: Seq<TaskView>, current: int, avail: Seq<usize>) -> (
        MutexSpin,
        Seq<TaskView>,
        Seq<usize>,
        Resume,
    ) {
        let id = v.index as int;
        if v.locked {
            (
                v,
                set_mutex_status(tasks, current, id, MutexStatus { allocated: 0, needed: 1 }),
                avail,
                Resume::Retry,
            )
        } else {
            (
                MutexSpin { locked: true, ..v },
                set_mutex_status(tasks, current, id, MutexStatus { allocated: 1, needed: 0 }),
                avail.update(id, 0),
                Resume::Return,
            )
        }
    }

    open spec fn unlock_ready(v: MutexSpin, tasks: Seq<TaskView>, current: int, avail: Seq<usize>) -> bool {
        slot_ready(tasks, current, v.index as int, avail)
    }

    /// The mutex becomes free: the caller no longer holds it and it is available again.
    open spec fn unlock_step(v: MutexSpin, tasks: Seq<TaskView>, current: int, avail: Seq<usize>) -> (
        MutexSpin,
        Seq<TaskView>,
        Seq<usize>,
        Option<usize>,
    ) {
        let id = v.index as int;
        (
            MutexSpin { locked: false, ..v },
            set_mutex_status(
                tasks,
                current,
                id,
                MutexStatus { allocated: 0, needed: tasks[current].mutex_status[id].needed },
            ),
            avail.update(id, 1),
            None,
        )
    }

    fn lock(&mut self, tasks: &mut Vec<TaskControlBlock>, current: usize, avail: &mut Vec<usize>) -> (r:
        Resume) {
        let id: usize = self.index;
        if self.locked {
            set_mutex_entry(tasks, current, id, MutexStatus { allocated: 0, needed: 1 });
            Resume::Retry
        } else {
            self.locked = true;
            set_mutex_entry(tasks, current, id, MutexStatus { allocated: 1, needed: 0 });
            avail.set(id, 0);
            Resume::Return
        }
    }

    fn unlock(&mut self, tasks: &mut Vec<TaskControlBlock>, current: usize, avail: &mut Vec<usize>) -> (r:
        Option<usize>) {
        let id: usize = self.index;
        self.locked = false;
        let needed: usize = tasks[current].inner.mutex_status[id].needed;
        set_mutex_entry(tasks, current, id, MutexStatus { allocated: 0, needed });
        avail.set(id, 1);
        None
    }
}

/// The state of a blocking mutex.
pub struct MutexBlockingInner {
    /// Whether some task holds the mutex.
    pub locked: bool,
    /// Tasks waiting for the mutex, by index in their process, first come first.
    pub wait_queue: VecDeque<usize>,
}

/// A blocking mutex: a task that finds it taken sleeps in its wait queue until
/// the holder hands the mutex over.
pub struct MutexBlocking {
    /// The state of the mutex.
    pub inner: MutexBlockingInner,
    /// The mutex's id in its process.
    pub index: usize,
}

/// A blocking mutex taken as plain values.
#[verifier::ext_equal]
pub struct MutexBlockingView {
    pub locked: bool,
    pub index: usize,
    pub wait_queue: Seq<usize>,
}

impl View for MutexBlocking {
    type V = MutexBlockingView;

    open spec fn view(&self) -> MutexBlockingView {
        MutexBlockingView {
            locked: self.inner.locked,
            index: self.index,
            wait_queue: self.inner.wait_queue@,
        }
    }
}

impl MutexBlocking {
    /// A free blocking mutex with id `id` and nobody waiting.
    pub fn new(id: usize) -> (r: Self)
        ensures
            r@ == (MutexBlockingView { locked: false, index: id, wait_queue: Seq::empty() }),
    {
        MutexBlocking { index: id, inner: MutexBlockingInner { locked: false, wait_queue: VecDeque::new() } }
    }
}

impl Mutex for MutexBlocking {
    /// The caller's entry exists; the availability entry too when the mutex is free.
    open spec fn lock_ready(v: MutexBlockingView, tasks: Seq<TaskView>, current: int, avail: Seq<usize>) -> bool {
        &&& entry_ready(tasks, current, v.index as int)
        &&& !v.locked ==> v.index < avail.len()
    }

    /// Taken: the caller joins the end of the wait queue, is marked as
    /// waiting, and blocks. Free: the caller takes it and the mutex is no
    /// longer available.
    open spec fn lock_step(v: MutexBlockingView, tasks: Seq<TaskView>, current: int, avail: Seq<usize>) -> (
        MutexBlockingView,
        Seq<TaskView>,
        Seq<usize>,
        Resume,
    ) {
        let id = v.index as int;
        if v.locked {
            (
                MutexBlockingView { wait_queue: v.wait_queue.push(current as usize), ..v },
                set_mutex_status(tasks, current, id, MutexStatus { allocated: 0, needed: 1 }),
                avail,
                Resume::Block,
            )
        } else {
            (
                MutexBlockingView { locked: true, ..v },
                set_mutex_status(tasks, current, id, MutexStatus { allocated: 1, needed: 0 }),
                avail.update(id, 0),
                Resume::Return,
            )
        }
    }

    /// The mutex must be held and the caller's entry must exist; so must the
    /// first waiter's entry when someone waits, and the availability entry
    /// when nobody does.
    open spec fn unlock_ready(v: MutexBlockingView, tasks: Seq<TaskView>, current: int, avail: Seq<usize>) -> bool {
        &&& v.locked
        &&& entry_ready(tasks, current, v.index as int)
        &&& v.wait_queue.len() > 0 ==> entry_ready(tasks, v.wait_queue[0] as int, v.index as int)
        &&& v.wait_queue.len() == 0 ==> v.index < avail.len()
    }

    /// The caller no longer holds the mutex. With a waiter: the first waiter
    /// leaves the queue, gets the mutex and is woken up; the mutex stays taken
    /// and unavailable. Without one: the mutex becomes free and available again.
    open spec fn unlock_step(v: MutexBlockingView, tasks: Seq<TaskView>, current: int, avail: Seq<usize>) -> (
        MutexBlockingView,
        Seq<TaskView>,
        Seq<usize>,
        Option<usize>,
    ) {
        let id = v.index as int;
        if v.wait_queue.len() > 0 {
            let t = v.wait_queue[0];
            let released = set_mutex_status(
                tasks,
                current,
                id,
                MutexStatus { allocated: 0, needed: tasks[current].mutex_status[id].needed },
            );
            (
                MutexBlockingView { wait_queue: v.wait_queue.drop_first(), ..v },
                set_mutex_status(released, t as int, id, MutexStatus { allocated: 1, needed: 0 }),
                avail,
                Some(t),
            )
        } else {
            (
                MutexBlockingView { locked: false, ..v },
                set_mutex_status(
                    tasks,
                    current,
                    id,
                    MutexStatus { allocated: 0, needed: tasks[current].mutex_status[id].needed },
                ),
                avail.update(id, 1),
                None,
            )
        }
    }

    fn lock(&mut self, tasks: &mut Vec<TaskControlBlock>, current: usize, avail: &mut Vec<usize>) -> (r:
        Resume) {
        let id: usize = self.index;
        if self.inner.locked {
            self.inner.wait_queue.push_back(current);
            set_mutex_entry(tasks, current, id, MutexStatus { allocated: 0, needed: 1 });
            Resume::Block
        } else {
            self.inner.locked = true;
            set_mutex_entry(tasks, current, id, MutexStatus { allocated: 1, needed: 0 });
            avail.set(id, 0);
            Resume::Return
        }
    }

    fn unlock(&mut self, tasks: &mut Vec<TaskControlBlock>, current: usize, avail: &mut Vec<usize>) -> (r:
        Option<usize>) {
        let id: usize = self.index;
        let needed: usize = tasks[current].inner.mutex_status[id].needed;
        match self.inner.wait_queue.pop_front() {
            Some(waking) => {
                let ghost before = tasks_view(tasks@);
                set_mutex_entry(tasks, current, id, MutexStatus { allocated: 0, needed });
                proof {
                    assert(tasks_view(tasks@)[waking as int].mutex_status.len() == before[waking as int].mutex_status.len());
                    assert(tasks@[waking as int]@ == tasks_view(tasks@)[waking as int]);
                }
                set_mutex_entry(tasks, waking, id, MutexStatus { allocated: 1, needed: 0 });
                Some(waking)
            },
            None => {
                self.inner.locked = false;
                set_mutex_entry(tasks, current, id, MutexStatus { allocated: 0, needed });
                avail.set(id, 1);
                None
            },
        }
    }
}

/// Nobody waits for a blocking mutex that nobody holds.
pub open spec fn waiters_only_when_held(v: MutexBlockingView) -> bool {
    !v.locked ==> v.wait_queue.len() == 0
}

/// Locking and unlocking a blocking mutex keep it true that nobody waits for
/// it while it is free.
pub proof fn lemma_blocking_waiters_only_when_held(
    v: MutexBlockingView,
    tasks: Seq<TaskView>,
    current: int,
    avail: Seq<usize>,
)
    requires
        waiters_only_when_held(v),
    ensures
        waiters_only_when_held(<MutexBlocking as Mutex>::lock_step(v, tasks, current, avail).0),
        waiters_only_when_held(<MutexBlocking as Mutex>::unlock_step(v, tasks, current, avail).0),
{
}

/// A task that locks a free spinning mutex and then unlocks it leaves the
/// mutex free and available, and its own entry for it empty.
pub proof fn lemma_spin_lock_then_unlock(v: MutexSpin, tasks: Seq<TaskView>, current: int, avail: Seq<usize>)
    requires
        !v.locked,
        slot_ready(tasks, current, v.index as int, avail),
    ensures
        ({
            let (v1, t1, a1, r1) = <MutexSpin as Mutex>::lock_step(v, tasks, current, avail);
            let (v2, t2, a2, w) = <MutexSpin as Mutex>::unlock_step(v1, t1, current, a1);
            &&& r1 == Resume::Return
            &&& v2 == v
            &&& a2 == avail.update(v.index as int, 1)
            &&& t2 == set_mutex_status(tasks, current, v.index as int, MutexStatus { allocated: 0, needed: 0 })
            &&& w is None
        }),
{
    let id = v.index as int;
    let (v1, t1, a1, r1) = <MutexSpin as Mutex>::lock_step(v, tasks, current, avail);
    let (v2, t2, a2, w) = <MutexSpin as Mutex>::unlock_step(v1, t1, current, a1);
    assert(a2 =~= avail.update(id, 1));
    assert(t2[current].mutex_status =~= tasks[current].mutex_status.update(id, MutexStatus { allocated: 0, needed: 0 }));
    assert(t2 =~~= set_mutex_status(tasks, current, id, MutexStatus { allocated: 0, needed: 0 }));
}

/// A task that locks a free blocking mutex and then unlocks it, with nobody
/// having come to wait meanwhile, leaves the mutex free and available, and
/// its own entry for it empty.
pub proof fn lemma_blocking_lock_then_unlock(
    v: MutexBlockingView,
    tasks: Seq<TaskView>,
    current: int,
    avail: Seq<usize>,
)
    requires
        !v.locked,
        v.wait_queue.len() == 0,
        slot_ready(tasks, current, v.index as int, avail),
    ensures
        ({
            let (v1, t1, a1, r1) = <MutexBlocking as Mutex>::lock_step(v, tasks, current, avail);
            let (v2, t2, a2, w) = <MutexBlocking as Mutex>::unlock_step(v1, t1, current, a1);
            &&& r1 == Resume::Return
            &&& v2 == v
            &&& a2 == avail.update(v.index as int, 1)
            &&& t2 == set_mutex_status(tasks, current, v.index as int, MutexStatus { allocated: 0, needed: 0 })
            &&& w is None
        }),
{
    let id = v.index as int;
    let (v1, t1, a1, r1) = <MutexBlocking as Mutex>::lock_step(v, tasks, current, avail);
    let (v2, t2, a2, w) = <MutexBlocking as Mutex>::unlock_step(v1, t1, current, a1);
    assert(v2 =~= v);
    assert(a2 =~= avail.update(id, 1));
    assert(t2[current].mutex_status =~= tasks[current].mutex_status.update(id, MutexStatus { allocated: 0, needed: 0 }));
    assert(t2 =~~= set_mutex_status(tasks, current, id, MutexStatus { allocated: 0, needed: 0 }));
}

/// Unlocking a blocking mutex that others wait for hands it to the first of
/// them, in arrival order: the caller no longer holds it, that task holds it
/// and no longer waits, and it stays taken and unavailable.
pub proof fn lemma_blocking_handover(v: MutexBlockingView, tasks: Seq<TaskView>, current: int, avail: Seq<usize>)
    requires
        v.wait_queue.len() > 0,
    ensures
        ({
            let (v2, t2, a2, w) = <MutexBlocking as Mutex>::unlock_step(v, tasks, current, avail);
            &&& w == Some(v.wait_queue[0])
            &&& v2.locked == v.locked
            &&& v2.wait_queue == v.wait_queue.drop_first()
            &&& a2 == avail
            &&& t2 == set_mutex_status(
                set_mutex_status(
                    tasks,
                    current,
                    v.index as int,
                    MutexStatus { allocated: 0, needed: tasks[current].mutex_status[v.index as int].needed },
                ),
                v.wait_queue[0] as int,
                v.index as int,
                MutexStatus { allocated: 1, needed: 0 },
            )
        }),
{
}

/// What task `t` holds of mutex `id`.
pub open spec fn held_by(tasks: Seq<TaskView>, t: int, id: int) -> usize {
    tasks[t].mutex_status[id].allocated
}

/// Mutex `id` is held by exactly one task while taken and by none while free.
pub open spec fn single_holder(locked: bool, tasks: Seq<TaskView>, id: int) -> bool {
    let n = tasks.len() as int;
    &&& locked ==> exists|h: int|
        0 <= h < n && #[trigger] held_by(tasks, h, id) == 1 && forall|t: int|
            0 <= t < n && t != h ==> #[trigger] held_by(tasks, t, id) == 0
    &&& !locked ==> forall|t: int| 0 <= t < n ==> #[trigger] held_by(tasks, t, id) == 0
}

/// The bookkeeping of mutex `id` says it is held at most once: each task
/// holds 0 or 1 of it; when taken, exactly one task holds it and it is not
/// available; when free, nobody holds it and it is available. (Every task is
/// taken to have an entry for the mutex.)
pub open spec fn exclusive(locked: bool, tasks: Seq<TaskView>, id: int, avail: Seq<usize>) -> bool {
    let n = tasks.len() as int;
    &&& 0 <= id < avail.len()
    &&& forall|t: int| 0 <= t < n ==> #[trigger] held_by(tasks, t, id) <= 1
    &&& avail[id] == (if locked {
        0usize
    } else {
        1usize
    })
    &&& single_holder(locked, tasks, id)
}

/// A spinning mutex held by one task is held by nobody else: any other
/// task's lock attempt retries and leaves the mutex as it is; a lock that
/// succeeds, and an unlock by the holder, keep the mutex held at most once.
pub proof fn lemma_spin_exclusive(v: MutexSpin, tasks: Seq<TaskView>, current: int, avail: Seq<usize>)
    requires
        forall|t: int| 0 <= t < tasks.len() ==> #[trigger] entry_ready(tasks, t, v.index as int),
        exclusive(v.locked, tasks, v.index as int, avail),
        0 <= current < tasks.len(),
    ensures
        v.locked && held_by(tasks, current, v.index as int) == 0 ==> ({
            let (v1, t1, a1, r) = <MutexSpin as Mutex>::lock_step(v, tasks, current, avail);
            &&& r == Resume::Retry
            &&& v1 == v
            &&& a1 == avail
            &&& exclusive(v1.locked, t1, v.index as int, a1)
        }),
        !v.locked ==> ({
            let (v1, t1, a1, r) = <MutexSpin as Mutex>::lock_step(v, tasks, current, avail);
            &&& r == Resume::Return
            &&& v1.locked
            &&& held_by(t1, current, v.index as int) == 1
            &&& exclusive(v1.locked, t1, v.index as int, a1)
        }),
        v.locked && held_by(tasks, current, v.index as int) == 1 ==> ({
            let (v1, t1, a1, w) = <MutexSpin as Mutex>::unlock_step(v, tasks, current, avail);
            &&& !v1.locked
            &&& exclusive(v1.locked, t1, v.index as int, a1)
        }),
{
    let id = v.index as int;
    let n = tasks.len() as int;
    assert(entry_ready(tasks, current, id));
    if v.locked && held_by(tasks, current, id) == 0 {
        let (v1, t1, a1, r) = <MutexSpin as Mutex>::lock_step(v, tasks, current, avail);
        let h = choose|h: int|
            0 <= h < n && #[trigger] held_by(tasks, h, id) == 1 && forall|t: int|
                0 <= t < n && t != h ==> #[trigger] held_by(tasks, t, id) == 0;
        assert(held_by(t1, h, id) == 1);
        assert forall|t: int| 0 <= t < n && t != h implies #[trigger] held_by(t1, t, id) == 0 by {
            assert(entry_ready(tasks, t, id));
            assert(held_by(tasks, t, id) == 0);
        }
        assert forall|t: int| 0 <= t < n implies #[trigger] held_by(t1, t, id) <= 1 by {
            assert(entry_ready(tasks, t, id));
            assert(held_by(tasks, t, id) <= 1);
        }
    }
    if !v.locked {
        let (v1, t1, a1, r) = <MutexSpin as Mutex>::lock_step(v, tasks, current, avail);
        assert(held_by(tasks, current, id) == 0);
        assert(id < tasks[current].mutex_status.len());
        assert(held_by(t1, current, id) == 1);
        assert forall|t: int| 0 <= t < n && t != current implies #[trigger] held_by(t1, t, id) == 0 by {
            assert(entry_ready(tasks, t, id));
            assert(held_by(tasks, t, id) == 0);
        }
        assert forall|t: int| 0 <= t < n implies #[trigger] held_by(t1, t, id) <= 1 by {
            assert(entry_ready(tasks, t, id));
            assert(held_by(tasks, t, id) <= 1);
            assert(held_by(tasks, t, id) == 0);
        }
        assert(a1[id] == 0);
        assert(exists|h: int|
            0 <= h < n && #[trigger] held_by(t1, h, id) == 1 && forall|t: int|
                0 <= t < n && t != h ==> #[trigger] held_by(t1, t, id) == 0);
        assert(exclusive(v1.locked, t1, id, a1));
    }
    if v.locked && held_by(tasks, current, id) == 1 {
        let (v1, t1, a1, w) = <MutexSpin as Mutex>::unlock_step(v, tasks, current, avail);
        let h = choose|h: int|
            0 <= h < n && #[trigger] held_by(tasks, h, id) == 1 && forall|t: int|
                0 <= t < n && t != h ==> #[trigger] held_by(tasks, t, id) == 0;
        assert(h == current);
        assert forall|t: int| 0 <= t < n implies #[trigger] held_by(t1, t, id) == 0 by {
            assert(entry_ready(tasks, t, id));
            if t != current {
                assert(held_by(tasks, t, id) == 0);
            }
        }
        assert forall|t: int| 0 <= t < n implies #[trigger] held_by(t1, t, id) <= 1 by {
            assert(entry_ready(tasks, t, id));
            assert(held_by(tasks, t, id) <= 1);
            assert(held_by(t1, t, id) == 0);
        }
    }
}

/// A blocking mutex is held at most once: a task that does not hold it and
/// finds it taken waits, a lock that succeeds and an unlock by the holder
/// (which may hand it to a waiter other than itself) keep it held at most
/// once.
pub proof fn lemma_blocking_exclusive(v: MutexBlockingView, tasks: Seq<TaskView>, current: int, avail: Seq<usize>)
    requires
        forall|t: int| 0 <= t < tasks.len() ==> #[trigger] entry_ready(tasks, t, v.index as int),
        exclusive(v.locked, tasks, v.index as int, avail),
        0 <= current < tasks.len(),
    ensures
        v.locked && held_by(tasks, current, v.index as int) == 0 ==> ({
            let (v1, t1, a1, r) = <MutexBlocking as Mutex>::lock_step(v, tasks, current, avail);
            &&& r == Resume::Block
            &&& exclusive(v1.locked, t1, v.index as int, a1)
        }),
        !v.locked ==> ({
            let (v1, t1, a1, r) = <MutexBlocking as Mutex>::lock_step(v, tasks, current, avail);
            &&& r == Resume::Return
            &&& held_by(t1, current, v.index as int) == 1
            &&& exclusive(v1.locked, t1, v.index as int, a1)
        }),
        v.locked && held_by(tasks, current, v.index as int) == 1 && (v.wait_queue.len() > 0 ==> {
            &&& 0 <= v.wait_queue[0] < tasks.len()
            &&& v.wait_queue[0] != current
        }) ==> ({
            let (v1, t1, a1, w) = <MutexBlocking as Mutex>::unlock_step(v, tasks, current, avail);
            &&& held_by(t1, current, v.index as int) == 0
            &&& exclusive(v1.locked, t1, v.index as int, a1)
        }),
{
    let id = v.index as int;
    let n = tasks.len() as int;
    assert(entry_ready(tasks, current, id));
    if v.locked && held_by(tasks, current, id) == 0 {
        let (v1, t1, a1, r) = <MutexBlocking as Mutex>::lock_step(v, tasks, current, avail);
        let h = choose|h: int|
            0 <= h < n && #[trigger] held_by(tasks, h, id) == 1 && forall|t: int|
                0 <= t < n && t != h ==> #[trigger] held_by(tasks, t, id) == 0;
        assert(held_by(t1, h, id) == 1);
        assert forall|t: int| 0 <= t < n && t != h implies #[trigger] held_by(t1, t, id) == 0 by {
            assert(entry_ready(tasks, t, id));
            assert(held_by(tasks, t, id) == 0);
        }
        assert forall|t: int| 0 <= t < n implies #[trigger] held_by(t1, t, id) <= 1 by {
            assert(entry_ready(tasks, t, id));
            assert(held_by(tasks, t, id) <= 1);
        }
    }
    if !v.locked {
        let (v1, t1, a1, r) = <MutexBlocking as Mutex>::lock_step(v, tasks, current, avail);
        assert(held_by(tasks, current, id) == 0);
        assert(id < tasks[current].mutex_status.len());
        assert(held_by(t1, current, id) == 1);
        assert forall|t: int| 0 <= t < n && t != current implies #[trigger] held_by(t1, t, id) == 0 by {
            assert(entry_ready(tasks, t, id));
            assert(held_by(tasks, t, id) == 0);
        }
        assert forall|t: int| 0 <= t < n implies #[trigger] held_by(t1, t, id) <= 1 by {
            assert(entry_ready(tasks, t, id));
            assert(held_by(tasks, t, id) <= 1);
            assert(held_by(tasks, t, id) == 0);
        }
        assert(a1[id] == 0);
        assert(exists|h: int|
            0 <= h < n && #[trigger] held_by(t1, h, id) == 1 && forall|t: int|
                0 <= t < n && t != h ==> #[trigger] held_by(t1, t, id) == 0);
        assert(exclusive(v1.locked, t1, id, a1));
    }
    if v.locked && held_by(tasks, current, id) == 1 && (v.wait_queue.len() > 0 ==> {
        &&& 0 <= v.wait_queue[0] < tasks.len()
        &&& v.wait_queue[0] != current
    }) {
        let (v1, t1, a1, w) = <MutexBlocking as Mutex>::unlock_step(v, tasks, current, avail);
        let h = choose|h: int|
            0 <= h < n && #[trigger] held_by(tasks, h, id) == 1 && forall|t: int|
                0 <= t < n && t != h ==> #[trigger] held_by(tasks, t, id) == 0;
        assert(h == current);
        if v.wait_queue.len() > 0 {
            let f = v.wait_queue[0] as int;
            assert(entry_ready(tasks, f, id));
            assert(held_by(tasks, f, id) == 0);
            assert(held_by(tasks, current, id) == 1);
            assert(held_by(t1, f, id) == 1);
            assert(held_by(t1, current, id) == 0);
            assert forall|t: int| 0 <= t < n && t != f implies #[trigger] held_by(t1, t, id) == 0 by {
            assert(entry_ready(tasks, t, id));
                if t != current {
                    assert(held_by(tasks, t, id) == 0);
                }
            }
            assert forall|t: int| 0 <= t < n implies #[trigger] held_by(t1, t, id) <= 1 by {
            assert(entry_ready(tasks, t, id));
            assert(held_by(tasks, t, id) <= 1);
                if t != current && t != f {
                    assert(held_by(tasks, t, id) == 0);
                }
            }
            assert(exists|h: int|
                0 <= h < n && #[trigger] held_by(t1, h, id) == 1 && forall|t: int|
                    0 <= t < n && t != h ==> #[trigger] held_by(t1, t, id) == 0);
            assert(exclusive(v1.locked, t1, id, a1));
        } else {
            assert forall|t: int| 0 <= t < n implies #[trigger] held_by(t1, t, id) == 0 by {
            assert(entry_ready(tasks, t, id));
                if t != current {
                    assert(held_by(tasks, t, id) == 0);
                }
            }
            assert forall|t: int| 0 <= t < n implies #[trigger] held_by(t1, t, id) <= 1 by {
            assert(entry_ready(tasks, t, id));
            assert(held_by(tasks, t, id) <= 1);
                assert(held_by(t1, t, id) == 0);
            }
        }
    }
}

/// The availability of a blocking mutex is 0 exactly while it is taken, and
/// nobody waits for it while it is free; locking and unlocking keep both.
pub proof fn lemma_blocking_availability(v: MutexBlockingView, tasks: Seq<TaskView>, current: int, avail: Seq<usize>)
    requires
        0 <= v.index < avail.len(),
        avail[v.index as int] == (if v.locked { 0usize } else { 1usize }),
        waiters_only_when_held(v),
    ensures
        ({
            let (v1, t1, a1, r) = <MutexBlocking as Mutex>::lock_step(v, tasks, current, avail);
            &&& a1[v.index as int] == (if v1.locked { 0usize } else { 1usize })
            &&& waiters_only_when_held(v1)
        }),
        v.locked ==> ({
            let (v1, t1, a1, w) = <MutexBlocking as Mutex>::unlock_step(v, tasks, current, avail);
            &&& a1[v.index as int] == (if v1.locked { 0usize } else { 1usize })
            &&& waiters_only_when_held(v1)
        }),
{
}

} // verus!
