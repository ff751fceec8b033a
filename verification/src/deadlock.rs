//! Deadlock detection by the banker's safety test.
//!
//! A state is described by what is free of each resource (`avail`), what each
//! task holds (`alloc[t][r]`) and what each task still waits for
//! (`need[t][r]`). The state is safe when the tasks can be run to completion
//! one after another: each in turn gets what it waits for from what is free,
//! and on finishing gives back what it holds.

use vstd::prelude::*;

verus! {

/// The rows of a matrix of `Vec`s, each taken by its view.
pub open spec fn rows(v: Seq<Vec<usize>>) -> Seq<Seq<usize>> {
    v.map_values(|row: Vec<usize>| row@)
}

/// What the first `k` tasks, of those marked in `mask`, hold of resource `r`.
pub open spec fn released(alloc: Seq<Seq<usize>>, mask: Seq<bool>, r: int, k: int) -> int
    decreases k,
{
    if k <= 0 {
        0
    } else {
        released(alloc, mask, r, k - 1) + (if mask[k - 1] {
            alloc[k - 1][r] as int
        } else {
            0
        })
    }
}

/// What is free of resource `r` once every task marked in `mask` has finished
/// and given back what it holds.
pub open spec fn work(avail: Seq<usize>, alloc: Seq<Seq<usize>>, mask: Seq<bool>, r: int) -> int {
    avail[r] + released(alloc, mask, r, alloc.len() as int)
}

/// Everything that task `t` waits for, over the first `m` resources, is free
/// once the tasks marked in `mask` have finished.
pub open spec fn can_finish(
    avail: Seq<usize>,
    alloc: Seq<Seq<usize>>,
    need: Seq<Seq<usize>>,
    m: int,
    mask: Seq<bool>,
    t: int,
) -> bool {
    forall|r: int| 0 <= r < m ==> need[t][r] <= #[trigger] work(avail, alloc, mask, r)
}

/// The tasks among `0..n` that come before position `k` of `order`.
pub open spec fn finished_before(order: Seq<int>, k: int, n: int) -> Seq<bool> {
    Seq::new(n as nat, |t: int| order.take(k).contains(t))
}

/// The mask in which all `n` tasks are marked.
pub open spec fn all_tasks(n: int) -> Seq<bool> {
    Seq::new(n as nat, |t: int| true)
}

/// `order` runs every task once, and each task in turn can finish with what
/// the tasks before it gave back.
pub open spec fn is_safe_order(
    avail: Seq<usize>,
    alloc: Seq<Seq<usize>>,
    need: Seq<Seq<usize>>,
    m: int,
    order: Seq<int>,
) -> bool {
    let n = alloc.len() as int;
    &&& order.no_duplicates()
    &&& forall|i: int| 0 <= i < order.len() ==> 0 <= #[trigger] order[i] < n
    &&& forall|t: int| 0 <= t < n ==> #[trigger] order.contains(t)
    &&& forall|k: int|
        0 <= k < order.len() ==> #[trigger] can_finish(
            avail,
            alloc,
            need,
            m,
            finished_before(order, k, n),
            order[k],
        )
}

/// Some order runs all tasks to completion: the state cannot deadlock.
pub open spec fn is_safe_state(
    avail: Seq<usize>,
    alloc: Seq<Seq<usize>>,
    need: Seq<Seq<usize>>,
    m: int,
) -> bool {
    exists|order: Seq<int>| is_safe_order(avail, alloc, need, m, order)
}

/// The matrices describe `alloc.len()` tasks and at least `m` resources.
pub open spec fn well_shaped(
    avail: Seq<usize>,
    alloc: Seq<Seq<usize>>,
    need: Seq<Seq<usize>>,
    m: int,
) -> bool {
    &&& 0 <= m <= avail.len()
    &&& need.len() == alloc.len()
    &&& forall|t: int| 0 <= t < alloc.len() ==> m <= #[trigger] alloc[t].len()
    &&& forall|t: int| 0 <= t < need.len() ==> m <= #[trigger] need[t].len()
}

/// Adding up what is free and everything that is held, of each of the first
/// `m` resources, stays within `usize`.
pub open spec fn totals_fit(avail: Seq<usize>, alloc: Seq<Seq<usize>>, m: int) -> bool {
    forall|r: int| 0 <= r < m ==> #[trigger] work(avail, alloc, all_tasks(alloc.len() as int), r) <= usize::MAX
}

/// Number of unmarked entries among the first `k` of `mask`.
pub open spec fn pending(mask: Seq<bool>, k: int) -> nat
    decreases k,
{
    if k <= 0 {
        0
    } else {
        pending(mask, k - 1) + (if mask[k - 1] {
            0nat
        } else {
            1nat
        })
    }
}

proof fn lemma_released_mark(alloc: Seq<Seq<usize>>, mask: Seq<bool>, t: int, r: int, k: int)
    requires
        0 <= t < mask.len(),
        k <= mask.len(),
        !mask[t],
    ensures
        released(alloc, mask.update(t, true), r, k) == released(alloc, mask, r, k) + (if t < k {
            alloc[t][r] as int
        } else {
            0
        }),
    decreases k,
{
    if k > 0 {
        lemma_released_mark(alloc, mask, t, r, k - 1);
    }
}

proof fn lemma_pending_mark(mask: Seq<bool>, t: int, k: int)
    requires
        0 <= t < mask.len(),
        k <= mask.len(),
        !mask[t],
    ensures
        pending(mask.update(t, true), k) + (if 0 <= t < k {
            1int
        } else {
            0
        }) == pending(mask, k),
    decreases k,
{
    if k > 0 {
        lemma_pending_mark(mask, t, k - 1);
    }
}

proof fn lemma_released_mono(alloc: Seq<Seq<usize>>, small: Seq<bool>, big: Seq<bool>, r: int, k: int)
    requires
        k <= small.len(),
        k <= big.len(),
        forall|i: int| 0 <= i < k && #[trigger] small[i] ==> big[i],
    ensures
        released(alloc, small, r, k) <= released(alloc, big, r, k),
    decreases k,
{
    if k > 0 {
        lemma_released_mono(alloc, small, big, r, k - 1);
    }
}

/// Marking more tasks as finished never leaves less free.
pub proof fn lemma_work_mono(
    avail: Seq<usize>,
    alloc: Seq<Seq<usize>>,
    small: Seq<bool>,
    big: Seq<bool>,
    r: int,
)
    requires
        small.len() == alloc.len(),
        big.len() == alloc.len(),
        forall|i: int| 0 <= i < alloc.len() && #[trigger] small[i] ==> big[i],
    ensures
        work(avail, alloc, small, r) <= work(avail, alloc, big, r),
{
    lemma_released_mono(alloc, small, big, r, alloc.len() as int);
}

/// Finds the first position of `order` whose task is not marked in `mask`.
proof fn lemma_first_unmarked(order: Seq<int>, mask: Seq<bool>, j: int) -> (k: int)
    requires
        0 <= j < order.len(),
        !mask[order[j]],
    ensures
        0 <= k <= j,
        !mask[order[k]],
        forall|i: int| 0 <= i < k ==> mask[#[trigger] order[i]],
    decreases j,
{
    if forall|i: int| 0 <= i < j ==> mask[#[trigger] order[i]] {
        j
    } else {
        let i = choose|i: int| 0 <= i < j && !mask[#[trigger] order[i]];
        lemma_first_unmarked(order, mask, i)
    }
}

/// When every unfinished task waits for more than is free, and some task is
/// unfinished, no order runs all tasks to completion.
proof fn lemma_stuck_is_unsafe(
    avail: Seq<usize>,
    alloc: Seq<Seq<usize>>,
    need: Seq<Seq<usize>>,
    m: int,
    done: Seq<bool>,
)
    requires
        done.len() == alloc.len(),
        exists|t: int| 0 <= t < done.len() && !#[trigger] done[t],
        forall|t: int|
            0 <= t < done.len() && !#[trigger] done[t] ==> !can_finish(
                avail,
                alloc,
                need,
                m,
                done,
                t,
            ),
    ensures
        !is_safe_state(avail, alloc, need, m),
{
    let n = alloc.len() as int;
    if is_safe_state(avail, alloc, need, m) {
        let order = choose|order: Seq<int>| is_safe_order(avail, alloc, need, m, order);
        let t = choose|t: int| 0 <= t < done.len() && !#[trigger] done[t];
        assert(order.contains(t));
        let j = choose|j: int| 0 <= j < order.len() && order[j] == t;
        let k = lemma_first_unmarked(order, done, j);
        let before = finished_before(order, k, n);
        assert forall|i: int| 0 <= i < n && #[trigger] before[i] implies done[i] by {
            assert(order.take(k).contains(i));
            let p = choose|p: int| 0 <= p < order.take(k).len() && order.take(k)[p] == i;
            assert(order[p] == i);
        }
        assert(can_finish(avail, alloc, need, m, before, order[k]));
        assert forall|r: int| 0 <= r < m implies need[order[k]][r] <= #[trigger] work(
            avail,
            alloc,
            done,
            r,
        ) by {
            lemma_work_mono(avail, alloc, before, done, r);
        }
        assert(can_finish(avail, alloc, need, m, done, order[k]));
    }
}

/// Having more of each resource free, and tasks waiting for less, never
/// makes a safe state unsafe.
pub proof fn lemma_more_free_less_need_stays_safe(
    avail: Seq<usize>,
    more: Seq<usize>,
    alloc: Seq<Seq<usize>>,
    need: Seq<Seq<usize>>,
    less: Seq<Seq<usize>>,
    m: int,
)
    requires
        0 <= m <= avail.len(),
        m <= more.len(),
        forall|r: int| 0 <= r < m ==> avail[r] <= #[trigger] more[r],
        forall|t: int, r: int| 0 <= t < alloc.len() && 0 <= r < m ==> #[trigger] less[t][r] <= need[t][r],
        is_safe_state(avail, alloc, need, m),
    ensures
        is_safe_state(more, alloc, less, m),
{
    let order = choose|order: Seq<int>| is_safe_order(avail, alloc, need, m, order);
    let n = alloc.len() as int;
    assert forall|k: int| 0 <= k < order.len() implies #[trigger] can_finish(
        more,
        alloc,
        less,
        m,
        finished_before(order, k, n),
        order[k],
    ) by {
        assert(can_finish(avail, alloc, need, m, finished_before(order, k, n), order[k]));
        assert(0 <= order[k] < n);
        assert forall|r: int| 0 <= r < m implies less[order[k]][r] <= #[trigger] work(
            more,
            alloc,
            finished_before(order, k, n),
            r,
        ) by {
            assert(need[order[k]][r] <= work(avail, alloc, finished_before(order, k, n), r));
            assert(less[order[k]][r] <= need[order[k]][r]);
        }
    }
    assert(is_safe_order(more, alloc, less, m, order));
}

/// When no task waits for anything, the state is safe.
pub proof fn lemma_no_waiting_is_safe(avail: Seq<usize>, alloc: Seq<Seq<usize>>, need: Seq<Seq<usize>>, m: int)
    requires
        well_shaped(avail, alloc, need, m),
        forall|t: int, r: int| 0 <= t < need.len() && 0 <= r < m ==> #[trigger] need[t][r] == 0,
    ensures
        is_safe_state(avail, alloc, need, m),
{
    let n = alloc.len() as int;
    let order = Seq::new(n as nat, |i: int| i);
    assert forall|t: int| 0 <= t < n implies #[trigger] order.contains(t) by {
        assert(order[t] == t);
    }
    assert forall|k: int| 0 <= k < order.len() implies #[trigger] can_finish(
        avail,
        alloc,
        need,
        m,
        finished_before(order, k, n),
        order[k],
    ) by {
        assert forall|r: int| 0 <= r < m implies need[order[k]][r] <= #[trigger] work(
            avail,
            alloc,
            finished_before(order, k, n),
            r,
        ) by {
            assert(need[order[k]][r] == 0);
            lemma_released_mono(alloc, Seq::new(n as nat, |t: int| false), finished_before(order, k, n), r, n);
            lemma_released_none(alloc, Seq::new(n as nat, |t: int| false), r, n);
        }
    }
    assert(is_safe_order(avail, alloc, need, m, order));
}

/// `need_row[..m]` fits pointwise under `available[..m]`.
fn fits(need_row: &Vec<usize>, available: &Vec<usize>, m: usize) -> (res: bool)
    requires
        m <= need_row.len(),
        m <= available.len(),
    ensures
        res == forall|r: int| 0 <= r < m ==> need_row@[r] <= available@[r],
{
    let mut mid: usize = 0;
    while mid < m
        invariant
            mid <= m,
            m <= need_row.len(),
            m <= available.len(),
            forall|r: int| 0 <= r < mid ==> need_row@[r] <= available@[r],
        decreases m - mid,
    {
        if need_row[mid] > available[mid] {
            return false;
        }
        mid = mid + 1;
    }
    true
}

/// Every entry of `flags` is set.
fn all_set(flags: &Vec<bool>) -> (res: bool)
    ensures
        res == forall|t: int| 0 <= t < flags.len() ==> flags@[t],
{
    let mut i: usize = 0;
    while i < flags.len()
        invariant
            i <= flags.len(),
            forall|t: int| 0 <= t < i ==> flags@[t],
        decreases flags.len() - i,
    {
        if !flags[i] {
            return false;
        }
        i = i + 1;
    }
    true
}

/// The banker's safety test: repeatedly lets any task whose demand can be met
/// finish and give back what it holds; the state is safe when all tasks
/// finish, unsafe when a whole sweep lets none finish.
pub fn is_safe(avail: &Vec<usize>, alloc: &Vec<Vec<usize>>, need: &Vec<Vec<usize>>, m: usize) -> (res:
    bool)
    requires
        well_shaped(avail@, rows(alloc@), rows(need@), m as int),
        totals_fit(avail@, rows(alloc@), m as int),
    ensures
        res == is_safe_state(avail@, rows(alloc@), rows(need@), m as int),
{
    let ghost a = rows(alloc@);
    let ghost nd = rows(need@);
    let task_count: usize = alloc.len();
    let mut available: Vec<usize> = Vec::new();
    let mut i: usize = 0;
    while i < avail.len()
        invariant
            i <= avail.len(),
            available@ == avail@.take(i as int),
        decreases avail.len() - i,
    {
        available.push(avail[i]);
        i = i + 1;
    }
    assert(available@ =~= avail@);
    let mut finished: Vec<bool> = Vec::new();
    let mut i: usize = 0;
    while i < task_count
        invariant
            i <= task_count,
            finished@.len() == i,
            forall|t: int| 0 <= t < i ==> !finished@[t],
        decreases task_count - i,
    {
        finished.push(false);
        i = i + 1;
    }
    let ghost mut order: Seq<int> = Seq::empty();
    proof {
        assert forall|r: int| 0 <= r < m implies available@[r] == #[trigger] work(
            avail@,
            a,
            finished@,
            r,
        ) by {
            lemma_released_none(a, finished@, r, task_count as int);
        }
    }
    loop
        invariant
            task_count == alloc.len(),
            well_shaped(avail@, a, nd, m as int),
            totals_fit(avail@, a, m as int),
            a == rows(alloc@),
            nd == rows(need@),
            finished@.len() == task_count,
            available@.len() == avail@.len(),
            forall|r: int| 0 <= r < m ==> available@[r] == #[trigger] work(avail@, a, finished@, r),
            order.no_duplicates(),
            forall|i: int| 0 <= i < order.len() ==> 0 <= #[trigger] order[i] < task_count,
            forall|t: int| 0 <= t < task_count ==> (finished@[t] <==> #[trigger] order.contains(t)),
            forall|k: int|
                0 <= k < order.len() ==> #[trigger] can_finish(
                    avail@,
                    a,
                    nd,
                    m as int,
                    finished_before(order, k, task_count as int),
                    order[k],
                ),
        decreases pending(finished@, task_count as int),
    {
        if all_set(&finished) {
            assert(is_safe_order(avail@, a, nd, m as int, order));
            return true;
        }
        let ghost start = finished@;
        let mut progress = false;
        let mut tid: usize = 0;
        while tid < task_count
            invariant
                tid <= task_count,
                task_count == alloc.len(),
                well_shaped(avail@, a, nd, m as int),
                totals_fit(avail@, a, m as int),
                a == rows(alloc@),
                nd == rows(need@),
                finished@.len() == task_count,
                available@.len() == avail@.len(),
                forall|r: int| 0 <= r < m ==> available@[r] == #[trigger] work(avail@, a, finished@, r),
                order.no_duplicates(),
                forall|i: int| 0 <= i < order.len() ==> 0 <= #[trigger] order[i] < task_count,
                forall|t: int| 0 <= t < task_count ==> (finished@[t] <==> #[trigger] order.contains(t)),
                forall|k: int|
                    0 <= k < order.len() ==> #[trigger] can_finish(
                        avail@,
                        a,
                        nd,
                        m as int,
                        finished_before(order, k, task_count as int),
                        order[k],
                    ),
                !progress ==> finished@ == start,
                progress ==> pending(finished@, task_count as int) < pending(start, task_count as int),
                pending(finished@, task_count as int) <= pending(start, task_count as int),
                !progress ==> forall|t: int|
                    0 <= t < tid && !#[trigger] finished@[t] ==> !can_finish(
                        avail@,
                        a,
                        nd,
                        m as int,
                        finished@,
                        t,
                    ),
            decreases task_count - tid,
        {
            if !finished[tid] {
                proof {
                    assert(nd[tid as int] == need@[tid as int]@);
                }
                let ok = fits(&need[tid], &available, m);
                if !ok {
                    proof {
                        let r = choose|r: int| 0 <= r < m && need@[tid as int]@[r] > available@[r];
                        assert(work(avail@, a, finished@, r) == available@[r]);
                        assert(!can_finish(avail@, a, nd, m as int, finished@, tid as int));
                    }
                }
                if ok {
                    proof {
                        assert(a[tid as int] == alloc@[tid as int]@);
                        assert(m <= a[tid as int].len());
                    }
                    let ghost before = finished@;
                    let ghost avail_before = available@;
                    proof {
                        assert(can_finish(avail@, a, nd, m as int, before, tid as int));
                        assert(finished_before(order.push(tid as int), order.len() as int, task_count as int) =~= before) by {
                            assert(order.push(tid as int).take(order.len() as int) =~= order);
                        }
                        lemma_pending_mark(before, tid as int, task_count as int);
                    }
                    finished.set(tid, true);
                    progress = true;
                    let mut mid: usize = 0;
                    while mid < m
                        invariant
                            mid <= m,
                            tid < task_count,
                            task_count == alloc.len(),
                            well_shaped(avail@, a, nd, m as int),
                            totals_fit(avail@, a, m as int),
                            a == rows(alloc@),
                            available@.len() == avail_before.len(),
                            avail_before.len() == avail@.len(),
                            m <= alloc@[tid as int]@.len(),
                            finished@ == before.update(tid as int, true),
                            !before[tid as int],
                            before.len() == task_count,
                            forall|r: int| 0 <= r < m ==> avail_before[r] == #[trigger] work(avail@, a, before, r),
                            forall|r: int| 0 <= r < mid ==> available@[r] == #[trigger] work(avail@, a, finished@, r),
                            forall|r: int| mid <= r < available@.len() ==> available@[r] == avail_before[r],
                        decreases m - mid,
                    {
                        proof {
                            lemma_released_mark(a, before, tid as int, mid as int, task_count as int);
                            assert(a[tid as int] == alloc@[tid as int]@);
                            assert(available@[mid as int] == avail_before[mid as int]);
                            assert(a.len() == task_count);
                            assert(work(avail@, a, finished@, mid as int) == work(avail@, a, before, mid as int) + a[tid as int][mid as int]);
                            assert(alloc@[tid as int]@[mid as int] == a[tid as int][mid as int]);
                            lemma_released_mono(a, finished@, all_tasks(task_count as int), mid as int, task_count as int);
                            assert(work(avail@, a, all_tasks(task_count as int), mid as int) <= usize::MAX);
                        }
                        available[mid] = available[mid] + alloc[tid][mid];
                        mid = mid + 1;
                    }
                    proof {
                        let new_order = order.push(tid as int);
                        assert(!order.contains(tid as int));
                        assert forall|i: int, j: int| 0 <= i < new_order.len() && 0 <= j < new_order.len() && i != j
                            implies new_order[i] != new_order[j] by {
                            if i < order.len() && j < order.len() {
                                assert(order[i] != order[j]);
                            } else if i < order.len() {
                                assert(order.contains(order[i]));
                            } else {
                                assert(order.contains(order[j]));
                            }
                        }
                        assert forall|k: int| 0 <= k < new_order.len() implies #[trigger] can_finish(
                            avail@,
                            a,
                            nd,
                            m as int,
                            finished_before(new_order, k, task_count as int),
                            new_order[k],
                        ) by {
                            if k < order.len() {
                                assert(new_order.take(k) =~= order.take(k));
                                assert(finished_before(new_order, k, task_count as int) =~= finished_before(order, k, task_count as int));
                            }
                        }
                        assert forall|t: int| 0 <= t < task_count implies (finished@[t] <==> #[trigger] new_order.contains(t)) by {
                            if t == tid as int {
                                assert(new_order[order.len() as int] == t);
                            } else if order.contains(t) {
                                let p = choose|p: int| 0 <= p < order.len() && order[p] == t;
                                assert(new_order[p] == t);
                            } else if new_order.contains(t) {
                                let p = choose|p: int| 0 <= p < new_order.len() && new_order[p] == t;
                                assert(order[p] == t);
                            }
                        }
                        order = new_order;
                    }
                }
            }
            tid = tid + 1;
        }
        if !progress {
            proof {
                lemma_stuck_is_unsafe(avail@, a, nd, m as int, finished@);
            }
            return false;
        }
    }
}

proof fn lemma_released_prefix(alloc: Seq<Seq<usize>>, mask: Seq<bool>, r: int, j: int, k: int)
    requires
        0 <= j <= k,
    ensures
        released(alloc, mask, r, j) <= released(alloc, mask, r, k),
    decreases k - j,
{
    if j < k {
        lemma_released_prefix(alloc, mask, r, j, k - 1);
    }
}

/// Whether adding up what is free and everything that is held, of each of
/// the first `m` resources, stays within `usize`.
pub fn totals_in_range(avail: &Vec<usize>, alloc: &Vec<Vec<usize>>, m: usize) -> (res: bool)
    requires
        m <= avail.len(),
        forall|t: int| 0 <= t < alloc.len() ==> m <= (#[trigger] alloc@[t])@.len(),
    ensures
        res == totals_fit(avail@, rows(alloc@), m as int),
{
    let ghost a = rows(alloc@);
    let n: usize = alloc.len();
    let ghost all = all_tasks(n as int);
    let mut r: usize = 0;
    while r < m
        invariant
            r <= m,
            m <= avail.len(),
            n == alloc.len(),
            a == rows(alloc@),
            all == all_tasks(n as int),
            forall|t: int| 0 <= t < alloc.len() ==> m <= (#[trigger] alloc@[t])@.len(),
            forall|q: int| 0 <= q < r ==> #[trigger] work(avail@, a, all, q) <= usize::MAX,
        decreases m - r,
    {
        let mut total: usize = avail[r];
        let mut t: usize = 0;
        while t < n
            invariant
                t <= n,
                r < m,
                m <= avail.len(),
                n == alloc.len(),
                a == rows(alloc@),
                all == all_tasks(n as int),
                forall|u: int| 0 <= u < alloc.len() ==> m <= (#[trigger] alloc@[u])@.len(),
                total == avail@[r as int] + released(a, all, r as int, t as int),
            decreases n - t,
        {
            proof {
                assert(a[t as int] == alloc@[t as int]@);
                assert(m <= alloc@[t as int]@.len());
            }
            match total.checked_add(alloc[t][r]) {
                Some(x) => {
                    total = x;
                },
                None => {
                    proof {
                        lemma_released_prefix(a, all, r as int, t + 1, n as int);
                        assert(a.len() == n);
                        assert(work(avail@, a, all, r as int) > usize::MAX);
                    }
                    return false;
                },
            }
            t = t + 1;
        }
        proof {
            assert(a.len() == n);
        }
        r = r + 1;
    }
    true
}

proof fn lemma_released_none(alloc: Seq<Seq<usize>>, mask: Seq<bool>, r: int, k: int)
    requires
        k <= mask.len(),
        forall|i: int| 0 <= i < k ==> !#[trigger] mask[i],
    ensures
        released(alloc, mask, r, k) == 0,
    decreases k,
{
    if k > 0 {
        lemma_released_none(alloc, mask, r, k - 1);
    }
}

} // verus!
