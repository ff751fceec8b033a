# Verified synchronisation core of a teaching kernel

`src/` is a Verus library: per-task resource bookkeeping, spinning and
blocking mutexes, counting semaphores, condition variables, the banker's
deadlock check, and the system calls built on them. Each system call takes the
process state and the calling task and returns what user space gets back plus
what the scheduler must do (`sched::Outcome`).

- `task` — `MutexStatus`, `SemaphoreStatus`, task control blocks.
- `sync` — `Mutex` trait with `MutexSpin` and `MutexBlocking`, `Semaphore`, `Condvar`.
- `deadlock` — the safety test; `is_safe` returns exactly whether some order
  runs every task to completion.
- `process` — the process state, its well-formedness (`wf`), its
  constructor `new` and `add_task`, mutex dispatch.
- `balance` — the resource balance of a process (one holder per taken mutex;
  semaphore count, queue and availability in agreement; every wait in a
  semaphore queue recorded in the waiter's entry) and the lemmas that the
  system calls use to keep it. In a balanced process the preconditions of
  `up`, `down` and `unlock` come down to counters that must not overflow.
- `syscall` — `check` and the `sys_*` calls. Each keeps `wf`, and keeps the
  balance whenever the caller uses the mutexes as intended.

A process built with `ProcessControlBlockInner::new` and `add_task` is
well-formed and balanced. Changed only through the library's calls, it stays
well-formed; it stays balanced as long as tasks unlock only mutexes they
hold, do not lock again a mutex they hold, and semaphores start with at most
`isize::MAX` units.

`app/` carries out the scheduler actions against a kernel's `Kernel` trait.
Before each call it checks the call's remaining preconditions (that the ids
name live objects, that counters cannot overflow, that a blocking mutex being
unlocked is held) and panics where the kernel would have; it does not re-check
`wf`, which it takes from how the process was built.
