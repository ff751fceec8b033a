use lib::process::{AnyMutex, ProcessControlBlockInner};
use lib::sched::{Outcome, Resume};
use lib::sync::condvar::Condvar;
use lib::sync::mutex::{Mutex, MutexBlocking, MutexSpin};
use lib::sync::semaphore::Semaphore;
use lib::syscall::{
    check, deadlock_check_in_range, sys_condvar_create, sys_condvar_signal, sys_condvar_wait,
    sys_enable_deadlock_detect, sys_mutex_create, sys_mutex_lock, sys_mutex_unlock,
    sys_semaphore_create, sys_semaphore_down, sys_semaphore_up, sys_sleep, DEADLOCK,
};
use lib::task::{MutexStatus, SemaphoreStatus, TaskControlBlock, TaskStatus};

fn process_with_tasks(n: usize) -> ProcessControlBlockInner {
    let mut tasks = Vec::new();
    for i in 0..n {
        tasks.push(TaskControlBlock::new(i, 100 + i));
    }
    ProcessControlBlockInner {
        tasks,
        mutex_list: Vec::new(),
        mutex_avail: Vec::new(),
        semaphore_list: Vec::new(),
        semaphore_avail: Vec::new(),
        condvar_list: Vec::new(),
        deadlock_detect: false,
        memory_token: 0x8000_0000_0008_0123,
    }
}

fn ms(p: &ProcessControlBlockInner, t: usize, id: usize) -> MutexStatus {
    p.tasks[t].inner.mutex_status[id]
}

fn ss(p: &ProcessControlBlockInner, t: usize, id: usize) -> SemaphoreStatus {
    p.tasks[t].inner.semaphore_status[id]
}

fn ret(r: isize) -> Outcome {
    Outcome { ret: r, wake: None, resume: Resume::Return }
}

#[test]
fn mutex_status_transitions() {
    let mut s = MutexStatus { allocated: 0, needed: 0 };
    s.mutex_requested();
    assert_eq!(s, MutexStatus { allocated: 0, needed: 1 });
    s.mutex_borrowed();
    assert_eq!(s, MutexStatus { allocated: 1, needed: 0 });
    s.need_set();
    assert_eq!(s, MutexStatus { allocated: 1, needed: 1 });
    s.allocate_unset();
    assert_eq!(s, MutexStatus { allocated: 0, needed: 1 });
    s.allocate_set();
    s.need_unset();
    assert_eq!(s, MutexStatus { allocated: 1, needed: 0 });
    s.clear();
    assert_eq!(s, MutexStatus { allocated: 0, needed: 0 });
}

#[test]
fn semaphore_status_transitions() {
    let mut s = SemaphoreStatus { allocated: 2, needed: 1 };
    s.semaphore_borrowed();
    assert_eq!(s, SemaphoreStatus { allocated: 3, needed: 0 });
    s.semaphore_requested();
    assert_eq!(s, SemaphoreStatus { allocated: 2, needed: 1 });
    s.need_set();
    s.allocate_set();
    assert_eq!(s, SemaphoreStatus { allocated: 3, needed: 2 });
    s.need_unset();
    s.allocate_unset();
    assert_eq!(s, SemaphoreStatus { allocated: 2, needed: 1 });
    s.clear();
    assert_eq!(s, SemaphoreStatus { allocated: 0, needed: 0 });
}

#[test]
fn task_accessors() {
    let mut t = TaskControlBlock::new(7, 42);
    assert_eq!(t.kstack, 7);
    assert_eq!(t.inner.trap_cx_ppn, 42);
    assert_eq!(t.inner.get_status(), TaskStatus::Ready);
    assert_eq!(t.inner.exit_code, None);
    t.inner_exclusive_access().task_status = TaskStatus::Blocked;
    assert_eq!(t.inner.get_status(), TaskStatus::Blocked);
    let p = process_with_tasks(1);
    assert_eq!(t.get_user_token(&p), 0x8000_0000_0008_0123);
}

#[test]
fn mutex_create_reuses_lowest_free_slot() {
    let mut p = process_with_tasks(2);
    assert_eq!(sys_mutex_create(&mut p, false), 0);
    assert_eq!(sys_mutex_create(&mut p, true), 1);
    assert_eq!(sys_mutex_create(&mut p, false), 2);
    assert_eq!(p.mutex_avail, vec![1, 1, 1]);
    assert_eq!(p.tasks[1].inner.mutex_status.len(), 3);
    p.tasks[0].inner.mutex_status[1] = MutexStatus { allocated: 1, needed: 1 };
    p.mutex_list[1] = None;
    p.mutex_avail[1] = 0;
    assert_eq!(sys_mutex_create(&mut p, false), 1);
    assert_eq!(p.mutex_list.len(), 3);
    assert_eq!(p.mutex_avail, vec![1, 1, 1]);
    assert_eq!(ms(&p, 0, 1), MutexStatus { allocated: 0, needed: 0 });
    match &p.mutex_list[1] {
        Some(AnyMutex::Spin(m)) => assert_eq!(*m, MutexSpin { locked: false, index: 1 }),
        _ => panic!("slot 1 should hold a spinning mutex"),
    }
}

#[test]
fn spin_mutex_lock_retry_unlock() {
    let mut p = process_with_tasks(2);
    let id = sys_mutex_create(&mut p, false) as usize;
    assert_eq!(sys_mutex_lock(&mut p, 0, id), ret(0));
    assert_eq!(p.mutex_avail[id], 0);
    assert_eq!(ms(&p, 0, id), MutexStatus { allocated: 1, needed: 0 });
    let r = sys_mutex_lock(&mut p, 1, id);
    assert_eq!(r, Outcome { ret: 0, wake: None, resume: Resume::Retry });
    assert_eq!(ms(&p, 1, id), MutexStatus { allocated: 0, needed: 1 });
    assert_eq!(p.lock_mutex(1, id), Resume::Retry);
    assert_eq!(sys_mutex_unlock(&mut p, 0, id), ret(0));
    assert_eq!(p.mutex_avail[id], 1);
    assert_eq!(ms(&p, 0, id), MutexStatus { allocated: 0, needed: 0 });
    assert_eq!(p.lock_mutex(1, id), Resume::Return);
    assert_eq!(ms(&p, 1, id), MutexStatus { allocated: 1, needed: 0 });
    assert_eq!(p.mutex_avail[id], 0);
}

#[test]
fn blocking_mutex_hands_over_in_arrival_order() {
    let mut p = process_with_tasks(3);
    let id = sys_mutex_create(&mut p, true) as usize;
    assert_eq!(sys_mutex_lock(&mut p, 0, id), ret(0));
    assert_eq!(sys_mutex_lock(&mut p, 2, id), Outcome { ret: 0, wake: None, resume: Resume::Block });
    assert_eq!(sys_mutex_lock(&mut p, 1, id), Outcome { ret: 0, wake: None, resume: Resume::Block });
    assert_eq!(ms(&p, 2, id), MutexStatus { allocated: 0, needed: 1 });
    let r = sys_mutex_unlock(&mut p, 0, id);
    assert_eq!(r, Outcome { ret: 0, wake: Some(2), resume: Resume::Return });
    assert_eq!(ms(&p, 2, id), MutexStatus { allocated: 1, needed: 0 });
    assert_eq!(ms(&p, 0, id), MutexStatus { allocated: 0, needed: 0 });
    let holders = (0..3).filter(|&t| ms(&p, t, id).allocated == 1).count();
    assert_eq!(holders, 1);
    assert_eq!(p.mutex_avail[id], 0);
    match &p.mutex_list[id] {
        Some(AnyMutex::Blocking(m)) => {
            assert!(m.inner.locked);
            assert_eq!(m.inner.wait_queue.iter().copied().collect::<Vec<usize>>(), vec![1]);
        },
        _ => panic!("expected a blocking mutex"),
    }
    assert_eq!(sys_mutex_unlock(&mut p, 2, id).wake, Some(1));
    assert_eq!(sys_mutex_unlock(&mut p, 1, id), ret(0));
    assert_eq!(p.mutex_avail[id], 1);
    assert_eq!(ms(&p, 1, id), MutexStatus { allocated: 0, needed: 0 });
}

#[test]
fn mutex_objects_directly() {
    let mut tasks = vec![TaskControlBlock::new(0, 0)];
    tasks[0].inner.mutex_status.push(MutexStatus { allocated: 0, needed: 0 });
    let mut avail = vec![1];
    let mut m = MutexSpin::new(0);
    assert_eq!(m.lock(&mut tasks, 0, &mut avail), Resume::Return);
    assert_eq!(m.unlock(&mut tasks, 0, &mut avail), None);
    assert_eq!(avail, vec![1]);
    assert_eq!(m, MutexSpin { locked: false, index: 0 });
    let mut b = MutexBlocking::new(0);
    assert_eq!(b.lock(&mut tasks, 0, &mut avail), Resume::Return);
    assert_eq!(b.lock(&mut tasks, 0, &mut avail), Resume::Block);
    assert_eq!(b.unlock(&mut tasks, 0, &mut avail), Some(0));
    assert_eq!(b.unlock(&mut tasks, 0, &mut avail), None);
    assert!(!b.inner.locked);
    assert_eq!(avail, vec![1]);
}

#[test]
fn semaphore_counts_blocks_and_wakes() {
    let mut p = process_with_tasks(3);
    let id = sys_semaphore_create(&mut p, 2) as usize;
    assert_eq!(id, 0);
    assert_eq!(p.semaphore_avail, vec![2]);
    assert_eq!(sys_semaphore_down(&mut p, 0, id), ret(0));
    assert_eq!(sys_semaphore_down(&mut p, 1, id), ret(0));
    assert_eq!(p.semaphore_avail[id], 0);
    assert_eq!(ss(&p, 0, id), SemaphoreStatus { allocated: 1, needed: 0 });
    assert_eq!(sys_semaphore_down(&mut p, 2, id), Outcome { ret: 0, wake: None, resume: Resume::Block });
    assert_eq!(ss(&p, 2, id), SemaphoreStatus { allocated: 0, needed: 1 });
    assert_eq!(p.semaphore_list[id].as_ref().unwrap().inner.count, -1);
    let r = sys_semaphore_up(&mut p, id);
    assert_eq!(r, Outcome { ret: 0, wake: Some(2), resume: Resume::Return });
    assert_eq!(ss(&p, 2, id), SemaphoreStatus { allocated: 1, needed: 0 });
    assert_eq!(p.semaphore_avail[id], 0);
    assert_eq!(p.semaphore_list[id].as_ref().unwrap().inner.count, 0);
    assert_eq!(sys_semaphore_up(&mut p, id), ret(0));
    assert_eq!(p.semaphore_avail[id], 1);
    assert_eq!(p.semaphore_list[id].as_ref().unwrap().inner.count, 1);
}

#[test]
fn semaphore_down_then_up_restores() {
    let mut tasks = vec![TaskControlBlock::new(0, 0)];
    tasks[0].inner.semaphore_status.push(SemaphoreStatus { allocated: 0, needed: 0 });
    let mut avail = vec![3];
    let mut s = Semaphore::new(3, 0);
    assert_eq!(s.down(&mut tasks, 0, &mut avail), Resume::Return);
    assert_eq!(s.up(&mut tasks, &mut avail), None);
    assert_eq!(s.inner.count, 3);
    assert!(s.inner.wait_queue.is_empty());
    assert_eq!(avail, vec![3]);
    assert_eq!(tasks[0].inner.semaphore_status[0], SemaphoreStatus { allocated: 1, needed: 0 });
}

#[test]
fn semaphore_count_matches_queue() {
    let mut tasks = vec![TaskControlBlock::new(0, 0), TaskControlBlock::new(1, 0)];
    for t in tasks.iter_mut() {
        t.inner.semaphore_status.push(SemaphoreStatus { allocated: 0, needed: 0 });
    }
    let mut avail = vec![0];
    let mut s = Semaphore::new(0, 0);
    assert_eq!(s.down(&mut tasks, 0, &mut avail), Resume::Block);
    assert_eq!(s.down(&mut tasks, 1, &mut avail), Resume::Block);
    assert_eq!(s.inner.count, -2);
    assert_eq!(s.inner.wait_queue.len(), 2);
    assert_eq!(s.up(&mut tasks, &mut avail), Some(0));
    assert_eq!(s.inner.count, -1);
    assert_eq!(s.inner.wait_queue.len(), 1);
}

#[test]
fn mutex_deadlock_is_refused() {
    let mut p = process_with_tasks(2);
    assert_eq!(sys_enable_deadlock_detect(&mut p, 1), 0);
    assert!(p.deadlock_detect);
    let a = sys_mutex_create(&mut p, true) as usize;
    let b = sys_mutex_create(&mut p, true) as usize;
    assert_eq!(sys_mutex_lock(&mut p, 0, a), ret(0));
    assert_eq!(sys_mutex_lock(&mut p, 1, b), ret(0));
    assert!(deadlock_check_in_range(&p));
    // Task 0 now waits for b: task 1 can still finish and free it.
    assert_eq!(sys_mutex_lock(&mut p, 0, b), Outcome { ret: 0, wake: None, resume: Resume::Block });
    // Task 1 asking for a would close the cycle.
    let r = sys_mutex_lock(&mut p, 1, a);
    assert_eq!(r, ret(DEADLOCK));
    assert_eq!(r.ret, -0xdead);
    assert_eq!(ms(&p, 1, a), MutexStatus { allocated: 0, needed: 1 });
    assert!(!check(&p));
}

#[test]
fn detection_off_never_refuses() {
    let mut p = process_with_tasks(2);
    let a = sys_mutex_create(&mut p, true) as usize;
    let b = sys_mutex_create(&mut p, true) as usize;
    sys_mutex_lock(&mut p, 0, a);
    sys_mutex_lock(&mut p, 1, b);
    sys_mutex_lock(&mut p, 0, b);
    assert_eq!(sys_enable_deadlock_detect(&mut p, 2), 0);
    assert!(!p.deadlock_detect);
    let r = sys_mutex_lock(&mut p, 1, a);
    assert_eq!(r, Outcome { ret: 0, wake: None, resume: Resume::Block });
}

#[test]
fn semaphore_deadlock_is_refused() {
    let mut p = process_with_tasks(2);
    sys_enable_deadlock_detect(&mut p, 1);
    let s0 = sys_semaphore_create(&mut p, 1) as usize;
    let s1 = sys_semaphore_create(&mut p, 1) as usize;
    assert_eq!(sys_semaphore_down(&mut p, 0, s0), ret(0));
    assert_eq!(sys_semaphore_down(&mut p, 1, s1), ret(0));
    assert_eq!(sys_semaphore_down(&mut p, 0, s1), Outcome { ret: 0, wake: None, resume: Resume::Block });
    assert_eq!(ss(&p, 0, s1), SemaphoreStatus { allocated: 0, needed: 1 });
    assert_eq!(sys_semaphore_down(&mut p, 1, s0), ret(DEADLOCK));
    // The refused request leaves no mark behind.
    assert_eq!(ss(&p, 1, s0), SemaphoreStatus { allocated: 0, needed: 0 });
    assert_eq!(p.semaphore_list[s0].as_ref().unwrap().inner.count, 0);
    assert!(p.semaphore_list[s0].as_ref().unwrap().inner.wait_queue.is_empty());
    assert!(check(&p));
    assert_eq!(p.semaphore_avail, vec![0, 0]);
}

#[test]
fn semaphore_wait_that_can_be_met_is_granted() {
    let mut p = process_with_tasks(2);
    sys_enable_deadlock_detect(&mut p, 1);
    let s = sys_semaphore_create(&mut p, 2) as usize;
    assert_eq!(sys_semaphore_down(&mut p, 0, s), ret(0));
    assert_eq!(sys_semaphore_down(&mut p, 1, s), ret(0));
    // Nothing is free, but task 1 can finish and give its unit back.
    assert_eq!(sys_semaphore_down(&mut p, 0, s), Outcome { ret: 0, wake: None, resume: Resume::Block });
    assert_eq!(ss(&p, 0, s), SemaphoreStatus { allocated: 1, needed: 1 });
}

#[test]
fn check_on_quiet_process_is_true() {
    let mut p = process_with_tasks(3);
    assert!(check(&p));
    sys_mutex_create(&mut p, false);
    sys_semaphore_create(&mut p, 0);
    assert!(check(&p));
}

#[test]
fn detection_range_is_checked() {
    let mut p = process_with_tasks(2);
    sys_semaphore_create(&mut p, usize::MAX);
    assert!(deadlock_check_in_range(&p));
    p.tasks[1].inner.semaphore_status[0].allocated = 1;
    assert!(!deadlock_check_in_range(&p));
}

#[test]
fn condvar_wait_and_signal() {
    let mut p = process_with_tasks(2);
    let m = sys_mutex_create(&mut p, true) as usize;
    assert_eq!(sys_condvar_create(&mut p), 0);
    assert_eq!(sys_condvar_create(&mut p), 1);
    p.condvar_list[0] = None;
    assert_eq!(sys_condvar_create(&mut p), 0);
    assert_eq!(p.condvar_list.len(), 2);
    sys_mutex_lock(&mut p, 0, m);
    assert_eq!(sys_mutex_lock(&mut p, 1, m).resume, Resume::Block);
    let r = sys_condvar_wait(&mut p, 0, 1, m);
    assert_eq!(r, Outcome { ret: 0, wake: Some(1), resume: Resume::Block });
    assert_eq!(p.condvar_list[1].as_ref().unwrap().wait_queue.len(), 1);
    let r = sys_condvar_signal(&mut p, 1);
    assert_eq!(r, Outcome { ret: 0, wake: Some(0), resume: Resume::Return });
    assert_eq!(sys_condvar_signal(&mut p, 1), ret(0));
    assert_eq!(p.lock_mutex(0, m), Resume::Block);
}

#[test]
fn condvar_object() {
    let mut c = Condvar::new();
    assert_eq!(c.signal(), None);
    c.wait(3);
    c.wait(5);
    assert_eq!(c.signal(), Some(3));
    assert_eq!(c.signal(), Some(5));
}

#[test]
fn sleep_until_deadline() {
    assert_eq!(
        sys_sleep(1000, 250),
        Outcome { ret: 0, wake: None, resume: Resume::SleepUntil(1250) }
    );
    assert_eq!(sys_sleep(0, 0).resume, Resume::SleepUntil(0));
}

#[test]
fn banker_textbook_state_is_safe() {
    let avail = vec![3, 3, 2];
    let alloc = vec![vec![0, 1, 0], vec![2, 0, 0], vec![3, 0, 2], vec![2, 1, 1], vec![0, 0, 2]];
    let need = vec![vec![7, 4, 3], vec![1, 2, 2], vec![6, 0, 0], vec![0, 1, 1], vec![4, 3, 1]];
    assert!(lib::deadlock::is_safe(&avail, &alloc, &need, 3));
    assert!(lib::deadlock::totals_in_range(&avail, &alloc, 3));
}

#[test]
fn banker_textbook_state_made_unsafe() {
    let avail = vec![0, 3, 2];
    let alloc = vec![vec![0, 1, 0], vec![2, 0, 0], vec![3, 0, 2], vec![2, 1, 1], vec![0, 0, 2]];
    let need = vec![vec![7, 4, 3], vec![1, 2, 2], vec![6, 0, 0], vec![0, 1, 1], vec![4, 3, 1]];
    // Tasks 3, 1 and 4 can finish in turn; tasks 0 and 2 then still wait for
    // more of the first resource than is free.
    assert!(!lib::deadlock::is_safe(&avail, &alloc, &need, 3));
    // The same holds when only the first two resources are counted.
    assert!(!lib::deadlock::is_safe(&avail, &alloc, &need, 2));
    assert!(lib::deadlock::is_safe(&avail, &alloc, &need, 0));
}

#[test]
fn more_free_stays_safe() {
    let alloc = vec![vec![1], vec![0]];
    let need = vec![vec![0], vec![1]];
    assert!(lib::deadlock::is_safe(&vec![0], &alloc, &need, 1));
    assert!(lib::deadlock::is_safe(&vec![5], &alloc, &need, 1));
    let stuck_need = vec![vec![2], vec![2]];
    assert!(!lib::deadlock::is_safe(&vec![0], &alloc, &stuck_need, 1));
    assert!(lib::deadlock::is_safe(&vec![2], &alloc, &stuck_need, 1));
}

#[test]
fn totals_overflow_detected() {
    let alloc = vec![vec![usize::MAX], vec![1]];
    assert!(!lib::deadlock::totals_in_range(&vec![0], &alloc, 1));
    assert!(lib::deadlock::totals_in_range(&vec![0], &alloc, 0));
}

#[test]
fn semaphore_availability_tracks_count() {
    let mut p = process_with_tasks(3);
    let id = sys_semaphore_create(&mut p, 1) as usize;
    let expect = |p: &ProcessControlBlockInner| {
        let c = p.semaphore_list[id].as_ref().unwrap().inner.count;
        let q = p.semaphore_list[id].as_ref().unwrap().inner.wait_queue.len();
        assert_eq!(p.semaphore_avail[id], if c > 0 { c as usize } else { 0 });
        assert_eq!(q, if c < 0 { (-c) as usize } else { 0 });
    };
    expect(&p);
    sys_semaphore_down(&mut p, 0, id);
    expect(&p);
    sys_semaphore_down(&mut p, 1, id);
    sys_semaphore_down(&mut p, 2, id);
    expect(&p);
    sys_semaphore_up(&mut p, id);
    expect(&p);
    sys_semaphore_up(&mut p, id);
    sys_semaphore_up(&mut p, id);
    expect(&p);
    assert_eq!(p.semaphore_avail[id], 1);
}

#[test]
fn spin_mutex_is_held_once() {
    let mut p = process_with_tasks(3);
    let id = sys_mutex_create(&mut p, false) as usize;
    assert_eq!(sys_mutex_lock(&mut p, 1, id).resume, Resume::Return);
    assert_eq!(p.lock_mutex(0, id), Resume::Retry);
    assert_eq!(p.lock_mutex(2, id), Resume::Retry);
    let holders = (0..3).filter(|&t| ms(&p, t, id).allocated == 1).count();
    assert_eq!(holders, 1);
    assert_eq!(p.mutex_avail[id], 0);
}

#[test]
fn check_stays_true_with_less_need() {
    let mut p = process_with_tasks(2);
    let a = sys_mutex_create(&mut p, true) as usize;
    let b = sys_mutex_create(&mut p, true) as usize;
    sys_mutex_lock(&mut p, 0, a);
    sys_mutex_lock(&mut p, 1, b);
    p.tasks[0].inner.mutex_status[b].needed = 1;
    p.tasks[1].inner.mutex_status[a].needed = 1;
    assert!(!check(&p));
    p.tasks[1].inner.mutex_status[a].needed = 0;
    assert!(check(&p));
    p.mutex_avail[a] = 1;
    assert!(check(&p));
}

#[test]
fn new_process_and_added_tasks() {
    let mut p = ProcessControlBlockInner::new(0x8000_0000_0000_0042);
    assert!(p.tasks.is_empty() && p.mutex_list.is_empty() && p.semaphore_list.is_empty());
    assert!(p.condvar_list.is_empty() && p.mutex_avail.is_empty() && p.semaphore_avail.is_empty());
    assert!(!p.deadlock_detect);
    assert_eq!(p.memory_token, 0x8000_0000_0000_0042);
    assert_eq!(p.add_task(5, 50), 0);
    assert_eq!(sys_mutex_create(&mut p, true), 0);
    assert_eq!(sys_mutex_create(&mut p, false), 1);
    assert_eq!(sys_semaphore_create(&mut p, 2), 0);
    assert_eq!(p.add_task(6, 60), 1);
    let t = &p.tasks[1];
    assert_eq!(t.kstack, 6);
    assert_eq!(t.inner.trap_cx_ppn, 60);
    assert_eq!(t.inner.task_status, TaskStatus::Ready);
    assert_eq!(t.inner.exit_code, None);
    assert_eq!(t.inner.mutex_status, vec![MutexStatus { allocated: 0, needed: 0 }; 2]);
    assert_eq!(t.inner.semaphore_status, vec![SemaphoreStatus { allocated: 0, needed: 0 }]);
    assert_eq!(p.tasks[0].inner.mutex_status.len(), 2);
    assert_eq!(sys_mutex_lock(&mut p, 1, 0), ret(0));
    assert_eq!(ms(&p, 1, 0), MutexStatus { allocated: 1, needed: 0 });
}

#[test]
fn task_added_while_mutex_held_holds_nothing() {
    let mut p = ProcessControlBlockInner::new(0);
    p.add_task(0, 10);
    let id = sys_mutex_create(&mut p, false) as usize;
    assert_eq!(sys_mutex_lock(&mut p, 0, id), ret(0));
    let t = p.add_task(1, 11);
    assert_eq!(ms(&p, t, id), MutexStatus { allocated: 0, needed: 0 });
    let holders = (0..p.tasks.len()).filter(|&u| ms(&p, u, id).allocated == 1).count();
    assert_eq!(holders, 1);
    assert_eq!(p.mutex_avail[id], 0);
}

fn assert_balanced(p: &ProcessControlBlockInner) {
    for (i, slot) in p.mutex_list.iter().enumerate() {
        if let Some(m) = slot {
            let locked = match m {
                AnyMutex::Spin(s) => s.locked,
                AnyMutex::Blocking(b) => b.inner.locked,
            };
            let holders = (0..p.tasks.len()).filter(|&t| ms(p, t, i).allocated == 1).count();
            let others = (0..p.tasks.len()).filter(|&t| ms(p, t, i).allocated > 1).count();
            assert_eq!(holders, if locked { 1 } else { 0 });
            assert_eq!(others, 0);
            assert_eq!(p.mutex_avail[i], if locked { 0 } else { 1 });
        }
    }
    for (i, slot) in p.semaphore_list.iter().enumerate() {
        if let Some(s) = slot {
            let c = s.inner.count;
            assert_eq!(s.inner.wait_queue.len(), if c < 0 { (-c) as usize } else { 0 });
            assert_eq!(p.semaphore_avail[i], if c > 0 { c as usize } else { 0 });
            for t in 0..p.tasks.len() {
                let places = s.inner.wait_queue.iter().filter(|&&w| w == t).count();
                assert!(places <= ss(p, t, i).needed);
            }
        }
    }
}

#[test]
fn calls_used_as_intended_keep_balance() {
    let mut p = ProcessControlBlockInner::new(0);
    for i in 0..3 {
        p.add_task(i, 20 + i);
    }
    assert_balanced(&p);
    let a = sys_mutex_create(&mut p, true) as usize;
    let b = sys_mutex_create(&mut p, false) as usize;
    let s = sys_semaphore_create(&mut p, 1) as usize;
    let c = sys_condvar_create(&mut p) as usize;
    assert_balanced(&p);
    sys_mutex_lock(&mut p, 0, a);
    sys_mutex_lock(&mut p, 1, a);
    sys_mutex_lock(&mut p, 2, b);
    assert_balanced(&p);
    sys_semaphore_down(&mut p, 0, s);
    sys_semaphore_down(&mut p, 1, s);
    assert_balanced(&p);
    let out = sys_condvar_wait(&mut p, 0, c, a);
    assert_eq!(out.wake, Some(1));
    assert_balanced(&p);
    assert_eq!(sys_condvar_signal(&mut p, c).wake, Some(0));
    assert_eq!(p.lock_mutex(0, a), Resume::Block);
    assert_balanced(&p);
    sys_mutex_unlock(&mut p, 1, a);
    sys_mutex_unlock(&mut p, 2, b);
    sys_semaphore_up(&mut p, s);
    sys_enable_deadlock_detect(&mut p, 1);
    assert_balanced(&p);
    sys_mutex_unlock(&mut p, 0, a);
    assert_balanced(&p);
    assert_eq!(p.mutex_avail, vec![1, 1]);
}
