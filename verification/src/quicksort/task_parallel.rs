use vstd::prelude::*;
use crate::multisets::{permutes, all_below, all_at_least, all_at_most, lemma_permutes_bounds};
use crate::quicksort::{
    SortTask, SEQUENTIAL_CUTOFF, count_recursive_calls, pending_after, partition_range, sort_range,
    partitioned_at, permuted_within, sorted, lemma_permuted_within_widen, lemma_permuted_within_trans,
};

verus! {

/// The task that sorts a segment of `len` elements in place with the
/// task-parallel quicksort.
pub open spec fn create_task_spec(len: usize) -> SortTask {
    if len <= 1 {
        SortTask::Nothing
    } else if len < SEQUENTIAL_CUTOFF {
        SortTask::Sequential { copy: false }
    } else {
        SortTask::TaskParallel
    }
}

/// The task for a segment of `len` elements of the in-place quicksort:
/// nothing for fewer than two elements, a sequential sort in place below
/// 8192 elements, and the task-parallel sort from there on.
pub proof fn lemma_task_kinds(len: usize)
    ensures
        len <= 1 ==> create_task_spec(len) == SortTask::Nothing,
        2 <= len < 8192 ==> create_task_spec(len) == (SortTask::Sequential { copy: false }),
        len >= 8192 ==> create_task_spec(len) == SortTask::TaskParallel,
{
}

/// See `create_task_spec`.
pub fn create_task(len: usize) -> (task: SortTask)
    ensures
        task == create_task_spec(len),
{
    if len <= 1 {
        SortTask::Nothing
    } else if len < SEQUENTIAL_CUTOFF {
        SortTask::Sequential { copy: false }
    } else {
        SortTask::TaskParallel
    }
}

/// The parts `lo..p` and `p + 1..hi` left and right of a pivot at `p` that
/// hold at least two elements, in that order: those that get a task.
pub open spec fn split_parts(lo: usize, p: usize, hi: usize) -> Seq<(usize, usize)> {
    (if p - lo >= 2 { seq![(lo, p)] } else { Seq::empty() })
        + (if hi - p - 1 >= 2 { seq![((p + 1) as usize, hi)] } else { Seq::empty() })
}

/// The outcome of one step of the in-place parallel quicksort on a segment:
/// where the pivot landed, how many recursive tasks follow, the pending-task
/// counter after the step, whether the workers must be told to finish, and
/// the segments of the tasks to push.
pub struct SplitStep {
    pub pivot_index: usize,
    pub calls: usize,
    pub pending: u64,
    pub finish: bool,
    pub tasks: Vec<(usize, usize)>,
}

/// One task of the in-place parallel quicksort on `array[lo..hi]`, with
/// `pending` tasks pending (this one included): partitions the segment
/// around its first element, updates the pending counter as
/// `pending_after` does, and lists the parts that get a task of their own.
pub fn run_go(array: &mut Vec<u32>, lo: usize, hi: usize, pending: u64) -> (step: SplitStep)
    requires
        lo < hi <= old(array).len(),
        hi - lo > 1,
        1 <= pending < u64::MAX,
    ensures
        partitioned_at(final(array)@, lo as int, step.pivot_index as int, hi as int, old(array)@[lo as int]),
        permuted_within(old(array)@, final(array)@, lo as int, hi as int),
        step.calls == (if step.pivot_index - lo > 1 { 1int } else { 0int })
            + (if hi - step.pivot_index > 2 { 1int } else { 0int }),
        step.pending == pending + step.calls - 1,
        step.finish == (step.pending == 0),
        step.tasks@ == split_parts(lo, step.pivot_index, hi),
        step.tasks.len() == step.calls,
{
    let p = partition_range(array, lo, hi);
    let calls = count_recursive_calls(hi - lo, p - lo);
    let (new_pending, finish) = pending_after(pending, calls);
    let mut tasks: Vec<(usize, usize)> = Vec::new();
    let left_task = match create_task(p - lo) {
        SortTask::Nothing => false,
        _ => true,
    };
    if left_task {
        tasks.push((lo, p));
    }
    let right_task = match create_task(hi - p - 1) {
        SortTask::Nothing => false,
        _ => true,
    };
    if right_task {
        tasks.push((p + 1, hi));
    }
    assert(tasks@ =~= split_parts(lo, p, hi));
    SplitStep { pivot_index: p, calls, pending: new_pending, finish, tasks }
}


/// Position `i` lies in the segment `task`.
pub open spec fn in_task(task: (usize, usize), i: int) -> bool {
    task.0 <= i < task.1
}

/// Positions `i` and `j` lie in the same pending segment.
pub open spec fn same_task(tasks: Seq<(usize, usize)>, i: int, j: int) -> bool {
    exists|k: int| 0 <= k < tasks.len() && #[trigger] in_task(tasks[k], i) && in_task(tasks[k], j)
}

/// The array is in order except within the pending segments: every two
/// positions that do not share a pending segment are in order.
pub open spec fn ordered_except(a: Seq<u32>, tasks: Seq<(usize, usize)>) -> bool {
    forall|i: int, j: int| 0 <= i < j < a.len() && !same_task(tasks, i, j) ==> #[trigger] a[i] <= #[trigger] a[j]
}

/// The pending segments lie in the array, hold at least two elements each,
/// and do not overlap.
pub open spec fn tasks_wf(tasks: Seq<(usize, usize)>, n: int) -> bool {
    &&& forall|k: int| 0 <= k < tasks.len() ==> #[trigger] tasks[k].0 + 2 <= tasks[k].1 && tasks[k].1 <= n
    &&& forall|k1: int, k2: int, i: int| 0 <= k1 < tasks.len() && 0 <= k2 < tasks.len() && k1 != k2
            ==> !(#[trigger] in_task(tasks[k1], i) && #[trigger] in_task(tasks[k2], i))
}

/// The number of elements in the pending segments together.
pub open spec fn task_volume(tasks: Seq<(usize, usize)>) -> int
    decreases tasks.len(),
{
    if tasks.len() == 0 {
        0
    } else {
        task_volume(tasks.drop_last()) + (tasks.last().1 - tasks.last().0)
    }
}

pub(crate) proof fn lemma_volume_concat(a: Seq<(usize, usize)>, b: Seq<(usize, usize)>)
    ensures
        task_volume(a + b) == task_volume(a) + task_volume(b),
    decreases b.len(),
{
    if b.len() == 0 {
        assert(a + b =~= a);
    } else {
        lemma_volume_concat(a, b.drop_last());
        assert((a + b).drop_last() =~= a + b.drop_last());
    }
}

pub(crate) proof fn lemma_volume_at_least_twice(tasks: Seq<(usize, usize)>)
    requires
        forall|k: int| 0 <= k < tasks.len() ==> #[trigger] tasks[k].0 + 2 <= tasks[k].1,
    ensures
        task_volume(tasks) >= 2 * tasks.len(),
    decreases tasks.len(),
{
    if tasks.len() > 0 {
        assert forall|k: int| 0 <= k < tasks.drop_last().len() implies #[trigger] tasks.drop_last()[k].0 + 2 <= tasks.drop_last()[k].1 by {
            assert(tasks.drop_last()[k] == tasks[k]);
        }
        lemma_volume_at_least_twice(tasks.drop_last());
        assert(tasks[tasks.len() - 1] == tasks.last());
    }
}

pub(crate) proof fn lemma_tasks_wf_after(tasks: Seq<(usize, usize)>, parts: Seq<(usize, usize)>, n: int)
    requires
        tasks.len() > 0,
        tasks_wf(tasks, n),
        forall|k: int| 0 <= k < parts.len() ==> #[trigger] parts[k].0 >= tasks.last().0 && parts[k].1 <= tasks.last().1
            && parts[k].0 + 2 <= parts[k].1,
        forall|k1: int, k2: int, i: int| 0 <= k1 < parts.len() && 0 <= k2 < parts.len() && k1 != k2
            ==> !(#[trigger] in_task(parts[k1], i) && #[trigger] in_task(parts[k2], i)),
    ensures
        tasks_wf(tasks.drop_last() + parts, n),
{
    let rest = tasks.drop_last();
    let all = rest + parts;
    let last = tasks.len() - 1;
    assert(tasks[last] == tasks.last());
    assert forall|k: int| 0 <= k < all.len() implies #[trigger] all[k].0 + 2 <= all[k].1 && all[k].1 <= n by {
        if k < rest.len() {
            assert(all[k] == tasks[k]);
        } else {
            assert(all[k] == parts[k - rest.len()]);
        }
    }
    assert forall|k1: int, k2: int, i: int| 0 <= k1 < all.len() && 0 <= k2 < all.len() && k1 != k2
        implies !(#[trigger] in_task(all[k1], i) && #[trigger] in_task(all[k2], i)) by {
        if k1 < rest.len() && k2 < rest.len() {
            assert(all[k1] == tasks[k1] && all[k2] == tasks[k2]);
        } else if k1 >= rest.len() && k2 >= rest.len() {
            assert(all[k1] == parts[k1 - rest.len()] && all[k2] == parts[k2 - rest.len()]);
        } else if k1 < rest.len() {
            assert(all[k1] == tasks[k1] && all[k2] == parts[k2 - rest.len()]);
            if in_task(all[k1], i) && in_task(all[k2], i) {
                assert(in_task(tasks[last], i));
            }
        } else {
            assert(all[k2] == tasks[k2] && all[k1] == parts[k1 - rest.len()]);
            if in_task(all[k1], i) && in_task(all[k2], i) {
                assert(in_task(tasks[last], i));
            }
        }
    }
}

pub(crate) proof fn lemma_volume_parts(parts: Seq<(usize, usize)>, lo: int, hi: int)
    requires
        lo < hi,
        parts.len() <= 2,
        parts.len() == 2 ==> parts[0].1 < parts[1].0,
        forall|k: int| 0 <= k < parts.len() ==> #[trigger] parts[k].0 >= lo && parts[k].1 <= hi
            && parts[k].0 + 2 <= parts[k].1,
        parts.len() == 1 ==> parts[0].1 - parts[0].0 <= hi - lo - 1,
    ensures
        task_volume(parts) <= hi - lo - 1,
{
    if parts.len() == 2 {
        let first = parts.drop_last();
        assert(first.drop_last() =~= Seq::<(usize, usize)>::empty());
        assert(first.last() == parts[0]);
        assert(task_volume(first.drop_last()) == 0);
        assert(task_volume(first) == parts[0].1 - parts[0].0);
        assert(parts.last() == parts[1]);
    } else if parts.len() == 1 {
        assert(parts.drop_last() =~= Seq::<(usize, usize)>::empty());
        assert(task_volume(parts.drop_last()) == 0);
        assert(parts.last() == parts[0]);
    }
}

/// Replacing the last pending segment by the parts `parts` inside it, after
/// reordering inside it so that positions of it that do not share a part
/// are in order, keeps the array in order outside the pending segments.
pub(crate) proof fn lemma_replace_task(
    a: Seq<u32>,
    b: Seq<u32>,
    tasks: Seq<(usize, usize)>,
    parts: Seq<(usize, usize)>,
)
    requires
        tasks.len() > 0,
        tasks_wf(tasks, a.len() as int),
        ordered_except(a, tasks),
        permuted_within(a, b, tasks.last().0 as int, tasks.last().1 as int),
        forall|k: int| 0 <= k < parts.len() ==> #[trigger] parts[k].0 >= tasks.last().0 && parts[k].1 <= tasks.last().1,
        forall|i: int, j: int| tasks.last().0 <= i < j < tasks.last().1 && !same_task(parts, i, j)
            ==> #[trigger] b[i] <= #[trigger] b[j],
    ensures
        ordered_except(b, tasks.drop_last() + parts),
{
    let lo = tasks.last().0 as int;
    let hi = tasks.last().1 as int;
    let rest = tasks.drop_last();
    let all = rest + parts;
    let last = tasks.len() - 1;
    assert(tasks[last] == tasks.last());
    assert forall|i: int, j: int| 0 <= i < j < b.len() && !same_task(all, i, j) implies #[trigger] b[i] <= #[trigger] b[j] by {
        let ii = lo <= i < hi;
        let jj = lo <= j < hi;
        if ii && jj {
            if same_task(parts, i, j) {
                let k = choose|k: int| 0 <= k < parts.len() && #[trigger] in_task(parts[k], i) && in_task(parts[k], j);
                assert(all[rest.len() + k] == parts[k]);
                assert(in_task(all[rest.len() + k], i));
            }
        } else if !ii && !jj {
            assert(b[i] == a[i] && b[j] == a[j]);
            if same_task(tasks, i, j) {
                let k = choose|k: int| 0 <= k < tasks.len() && #[trigger] in_task(tasks[k], i) && in_task(tasks[k], j);
                assert(k != last);
                assert(all[k] == tasks[k]);
                assert(in_task(all[k], i));
            }
        } else if ii {
            // i inside the segment, j after it.
            assert(b[j] == a[j]);
            let seg_a = a.subrange(lo, hi);
            let seg_b = b.subrange(lo, hi);
            assert forall|x: int| lo <= x < hi implies #[trigger] a[x] <= a[j] by {
                if same_task(tasks, x, j) {
                    let k = choose|k: int| 0 <= k < tasks.len() && #[trigger] in_task(tasks[k], x) && in_task(tasks[k], j);
                    assert(in_task(tasks[last], x));
                    if k != last {
                        assert(!(in_task(tasks[k], x) && in_task(tasks[last], x)));
                    }
                }
            }
            assert(all_at_most(seg_a, a[j])) by {
                assert forall|k: int| 0 <= k < seg_a.len() implies #[trigger] seg_a[k] <= a[j] by {
                    assert(seg_a[k] == a[lo + k]);
                }
            }
            lemma_permutes_bounds(seg_b, seg_a, a[j]);
            assert(b[i] == seg_b[i - lo]);
        } else {
            // i before the segment, j inside it.
            assert(b[i] == a[i]);
            let seg_a = a.subrange(lo, hi);
            let seg_b = b.subrange(lo, hi);
            assert forall|x: int| lo <= x < hi implies a[i] <= #[trigger] a[x] by {
                if same_task(tasks, i, x) {
                    let k = choose|k: int| 0 <= k < tasks.len() && #[trigger] in_task(tasks[k], i) && in_task(tasks[k], x);
                    assert(in_task(tasks[last], x));
                    if k != last {
                        assert(!(in_task(tasks[k], x) && in_task(tasks[last], x)));
                    }
                }
            }
            assert(all_at_least(seg_a, a[i])) by {
                assert forall|k: int| 0 <= k < seg_a.len() implies #[trigger] seg_a[k] >= a[i] by {
                    assert(seg_a[k] == a[lo + k]);
                }
            }
            lemma_permutes_bounds(seg_b, seg_a, a[i]);
            assert(b[j] == seg_b[j - lo]);
        }
    }
}

/// The task-parallel quicksort of a whole array, its tasks run one after
/// the other by a single worker: every task sorts a segment of at least two
/// elements, short ones sequentially, long ones by partitioning in place
/// and starting a task for each part that still holds two elements or more.
/// A counter tracks the pending tasks; the workers are told to finish when
/// it drops to zero. Returns whether they were told so.
pub fn sort_with_tasks(array: &mut Vec<u32>) -> (finished: bool)
    requires
        old(array).len() >= 2,
    ensures
        sorted(final(array)@),
        permutes(final(array)@, old(array)@),
        finished,
{
    let n = array.len();
    let ghost a0 = array@;
    let mut pending: u64 = 1;
    let mut tasks: Vec<(usize, usize)> = Vec::new();
    tasks.push((0, n));
    let mut finished = false;
    proof {
        assert(tasks@.drop_last() =~= Seq::<(usize, usize)>::empty());
        assert(task_volume(tasks@.drop_last()) == 0);
        assert(tasks@.last() == (0usize, n));
        assert(task_volume(tasks@) == n);
        assert(array@.subrange(0, n as int) =~= a0.subrange(0, n as int));
        assert forall|i: int, j: int| 0 <= i < j < array@.len() implies same_task(tasks@, i, j) by {
            assert(in_task(tasks@[0], i) && in_task(tasks@[0], j));
        }
    }
    while tasks.len() > 0
        invariant
            array.len() == n,
            n >= 2,
            permuted_within(a0, array@, 0, n as int),
            tasks_wf(tasks@, n as int),
            ordered_except(array@, tasks@),
            pending == tasks.len(),
            task_volume(tasks@) <= n,
            finished ==> tasks.len() == 0,
            tasks.len() == 0 ==> finished,
        decreases task_volume(tasks@),
    {
        let ghost before = array@;
        let ghost old_tasks = tasks@;
        let (lo, hi) = tasks.pop().unwrap();
        proof {
            assert(old_tasks.last() == (lo, hi));
            assert(tasks@ == old_tasks.drop_last());
            assert(old_tasks[old_tasks.len() - 1] == old_tasks.last());
        }
        proof {
            assert(old_tasks =~= tasks@.push((lo, hi)));
            lemma_volume_concat(tasks@, seq![(lo, hi)]);
            assert(tasks@ + seq![(lo, hi)] =~= old_tasks);
            assert(task_volume(seq![(lo, hi)]) == hi - lo) by {
                assert(seq![(lo, hi)].drop_last() =~= Seq::<(usize, usize)>::empty());
            }
            lemma_volume_at_least_twice(tasks@);
            assert forall|k: int| 0 <= k < tasks@.len() implies #[trigger] tasks@[k].0 + 2 <= tasks@[k].1 by {
                assert(tasks@[k] == old_tasks[k]);
            }
            lemma_volume_at_least_twice(tasks@);
            assert(old_tasks[old_tasks.len() - 1].0 + 2 <= old_tasks[old_tasks.len() - 1].1);
        }
        let task = create_task(hi - lo);
        let calls: usize;
        let ghost parts: Seq<(usize, usize)>;
        let is_sequential = match task {
            SortTask::Sequential { .. } => true,
            _ => false,
        };
        if is_sequential {
            sort_range(array, lo, hi);
            calls = 0;
            proof {
                parts = Seq::empty();
                assert forall|i: int, j: int| lo <= i < j < hi && !same_task(parts, i, j) implies #[trigger] array@[i] <= #[trigger] array@[j] by {
                    let s = array@.subrange(lo as int, hi as int);
                    assert(s[i - lo] <= s[j - lo]);
                }
            }
        } else {
            let step = run_go(array, lo, hi, pending);
            let p = step.pivot_index;
            calls = step.calls;
            let ghost pivot = before[lo as int];
            if p - lo > 1 {
                tasks.push((lo, p));
            }
            if hi - p > 2 {
                tasks.push((p + 1, hi));
            }
            proof {
                parts = tasks@.subrange(old_tasks.len() - 1, tasks@.len() as int);
                assert(tasks@ =~= old_tasks.drop_last() + parts);
                let pu = (p + 1) as usize;
                if p - lo > 1 && hi - p > 2 {
                    assert(parts =~= seq![(lo, p), (pu, hi)]);
                } else if p - lo > 1 {
                    assert(parts =~= seq![(lo, p)]);
                } else if hi - p > 2 {
                    assert(parts =~= seq![(pu, hi)]);
                } else {
                    assert(parts =~= Seq::<(usize, usize)>::empty());
                }
                assert forall|i: int, j: int| lo <= i < j < hi && !same_task(parts, i, j) implies #[trigger] array@[i] <= #[trigger] array@[j] by {
                    if j < p {
                        // Both on the left: the left part is a pending task.
                        if p - lo > 1 {
                            assert(parts[0] == (lo, p));
                            assert(in_task(parts[0], i) && in_task(parts[0], j));
                        }
                    } else if i > p {
                        if hi - p > 2 {
                            let k = parts.len() - 1;
                            assert(parts[k] == ((p + 1) as usize, hi));
                            assert(in_task(parts[k], i) && in_task(parts[k], j));
                        }
                    }
                }
            }
        }
        proof {
            assert(parts.len() == calls);
            assert forall|k: int| 0 <= k < parts.len() implies #[trigger] parts[k].0 >= lo && parts[k].1 <= hi
                && parts[k].0 + 2 <= parts[k].1 by {
            }
            lemma_replace_task(before, array@, old_tasks, parts);
            assert(tasks@ =~= old_tasks.drop_last() + parts);
            lemma_permuted_within_widen(before, array@, 0, lo as int, hi as int, n as int);
            lemma_permuted_within_trans(a0, before, array@, 0, n as int);
            lemma_tasks_wf_after(old_tasks, parts, n as int);
            lemma_volume_concat(old_tasks.drop_last(), parts);
            assert(task_volume(parts) <= hi - lo - 1) by {
                lemma_volume_parts(parts, lo as int, hi as int);
            }
            assert(task_volume(old_tasks) == task_volume(old_tasks.drop_last()) + (hi - lo));
            assert(task_volume(tasks@) == task_volume(old_tasks.drop_last()) + task_volume(parts));
            assert(task_volume(tasks@) < task_volume(old_tasks));
            lemma_volume_at_least_twice(tasks@);
            assert(pending >= 1);
            assert(2 * pending <= n);
        }
        let (new_pending, finish) = pending_after(pending, calls);
        pending = new_pending;
        if finish {
            finished = true;
        }
    }
    proof {
        assert(pending == 0);
        assert forall|i: int, j: int| 0 <= i <= j < array@.len() implies array@[i] <= array@[j] by {
            if i < j {
                assert(!same_task(tasks@, i, j));
            }
        }
        assert(array@.subrange(0, n as int) =~= array@);
        assert(a0.subrange(0, n as int) =~= a0);
    }
    finished
}

/// One task of the in-place quicksort, run by whichever worker took it:
/// pending task `k` (segment `lo..hi`) is taken out of the list. Either its
/// segment is sorted right away (a short segment), or it is partitioned
/// around its first element, which lands at `p`, as `run_go` does, and the
/// parts that `run_go` lists join the pending tasks.
pub open spec fn sort_step(
    a: Seq<u32>,
    tasks: Seq<(usize, usize)>,
    k: int,
    p: int,
    partitions: bool,
    b: Seq<u32>,
    next: Seq<(usize, usize)>,
) -> bool {
    let lo = tasks[k].0 as int;
    let hi = tasks[k].1 as int;
    &&& 0 <= k < tasks.len()
    &&& permuted_within(a, b, lo, hi)
    &&& if partitions {
        &&& partitioned_at(b, lo, p, hi, a[lo])
        &&& next == tasks.remove(k) + split_parts(tasks[k].0, p as usize, tasks[k].1)
    } else {
        &&& sorted(b.subrange(lo, hi))
        &&& next == tasks.remove(k)
    }
}

/// A run of the in-place quicksort of an array of `n >= 2` elements: it
/// starts with one pending task for the whole array, and step `i` runs
/// pending task `picks[i]` (any of them, in whatever order the workers take
/// them) on `arrays[i]`, leaving `arrays[i + 1]` and the pending tasks
/// `pending[i + 1]`.
pub open spec fn sort_run(
    arrays: Seq<Seq<u32>>,
    pending: Seq<Seq<(usize, usize)>>,
    picks: Seq<int>,
    pivots: Seq<int>,
    partitions: Seq<bool>,
) -> bool {
    &&& arrays.len() == picks.len() + 1
    &&& pending.len() == picks.len() + 1
    &&& pivots.len() == picks.len()
    &&& partitions.len() == picks.len()
    &&& 2 <= arrays[0].len() <= usize::MAX
    &&& pending[0] == seq![(0usize, arrays[0].len() as usize)]
    &&& forall|i: int| 0 <= i < picks.len() ==> #[trigger] sort_step(arrays[i], pending[i], picks[i], pivots[i],
            partitions[i], arrays[i + 1], pending[i + 1])
}

/// Moving pending task `k` to the end of the list keeps the list's
/// well-formedness and what it says of the array's order.
pub(crate) proof fn lemma_move_to_end(a: Seq<u32>, tasks: Seq<(usize, usize)>, k: int, n: int)
    requires
        0 <= k < tasks.len(),
        tasks_wf(tasks, n),
        ordered_except(a, tasks),
    ensures
        tasks_wf(tasks.remove(k).push(tasks[k]), n),
        ordered_except(a, tasks.remove(k).push(tasks[k])),
        tasks.remove(k).push(tasks[k]).drop_last() == tasks.remove(k),
        tasks.remove(k).push(tasks[k]).last() == tasks[k],
{
    let t = tasks.remove(k).push(tasks[k]);
    let len = tasks.len() as int;
    let src = |m: int| if m == len - 1 { k } else if m < k { m } else { m + 1 };
    assert forall|m: int| 0 <= m < len implies #[trigger] t[m] == tasks[src(m)] by {}
    assert forall|m: int| 0 <= m < len implies #[trigger] t[m].0 + 2 <= t[m].1 && t[m].1 <= n by {
        assert(t[m] == tasks[src(m)]);
    }
    assert forall|k1: int, k2: int, i: int| 0 <= k1 < len && 0 <= k2 < len && k1 != k2
        implies !(#[trigger] in_task(t[k1], i) && #[trigger] in_task(t[k2], i)) by {
        assert(t[k1] == tasks[src(k1)] && t[k2] == tasks[src(k2)]);
        assert(src(k1) != src(k2));
    }
    assert forall|i: int, j: int| 0 <= i < j < a.len() && !same_task(t, i, j) implies #[trigger] a[i] <= #[trigger] a[j] by {
        if same_task(tasks, i, j) {
            let m = choose|m: int| 0 <= m < tasks.len() && #[trigger] in_task(tasks[m], i) && in_task(tasks[m], j);
            let m2 = if m == k { len - 1 } else if m < k { m } else { m - 1 };
            assert(t[m2] == tasks[src(m2)]);
            assert(in_task(t[m2], i) && in_task(t[m2], j));
        }
    }
    assert(t.drop_last() =~= tasks.remove(k));
}

proof fn lemma_sort_run_state(
    arrays: Seq<Seq<u32>>,
    pending: Seq<Seq<(usize, usize)>>,
    picks: Seq<int>,
    pivots: Seq<int>,
    partitions: Seq<bool>,
    i: int,
)
    requires
        sort_run(arrays, pending, picks, pivots, partitions),
        0 <= i <= picks.len(),
    ensures
        arrays[i].len() == arrays[0].len(),
        permuted_within(arrays[0], arrays[i], 0, arrays[0].len() as int),
        tasks_wf(pending[i], arrays[0].len() as int),
        ordered_except(arrays[i], pending[i]),
    decreases i,
{
    let n = arrays[0].len() as int;
    if i == 0 {
        let a = arrays[0];
        assert(a.subrange(0, n) =~= a);
        assert forall|x: int, y: int| 0 <= x < y < a.len() && !same_task(pending[0], x, y) implies #[trigger] a[x] <= #[trigger] a[y] by {
            assert(in_task(pending[0][0], x) && in_task(pending[0][0], y));
        }
    } else {
        let j = i - 1;
        lemma_sort_run_state(arrays, pending, picks, pivots, partitions, j);
        assert(sort_step(arrays[j], pending[j], picks[j], pivots[j], partitions[j], arrays[j + 1], pending[j + 1]));
        assert(j + 1 == i);
        let a = arrays[j];
        let b = arrays[i];
        let tasks = pending[j];
        let k = picks[j];
        let lo = tasks[k].0 as int;
        let hi = tasks[k].1 as int;
        let moved = tasks.remove(k).push(tasks[k]);
        lemma_move_to_end(a, tasks, k, n);
        let parts = if partitions[j] { split_parts(tasks[k].0, pivots[j] as usize, tasks[k].1) } else { Seq::empty() };
        assert(pending[i] == moved.drop_last() + parts);
        assert(tasks[k].0 + 2 <= tasks[k].1 && tasks[k].1 <= n);
        if partitions[j] {
            let p = pivots[j];
            let pu = (p + 1) as usize;
            assert forall|x: int, y: int| lo <= x < y < hi && !same_task(parts, x, y) implies #[trigger] b[x] <= #[trigger] b[y] by {
                if y < p {
                    if p - lo >= 2 {
                        assert(parts[0] == (tasks[k].0, p as usize));
                        assert(in_task(parts[0], x) && in_task(parts[0], y));
                    }
                } else if x > p {
                    if hi - p - 1 >= 2 {
                        let m = parts.len() - 1;
                        assert(parts[m] == (pu, tasks[k].1));
                        assert(in_task(parts[m], x) && in_task(parts[m], y));
                    }
                }
            }
            assert forall|m: int| 0 <= m < parts.len() implies #[trigger] parts[m].0 >= lo && parts[m].1 <= hi
                && parts[m].0 + 2 <= parts[m].1 by {}
            assert forall|k1: int, k2: int, x: int| 0 <= k1 < parts.len() && 0 <= k2 < parts.len() && k1 != k2
                implies !(#[trigger] in_task(parts[k1], x) && #[trigger] in_task(parts[k2], x)) by {}
        } else {
            assert forall|x: int, y: int| lo <= x < y < hi && !same_task(parts, x, y) implies #[trigger] b[x] <= #[trigger] b[y] by {
                let sb = b.subrange(lo, hi);
                assert(sb[x - lo] <= sb[y - lo]);
            }
        }
        lemma_replace_task(a, b, moved, parts);
        lemma_tasks_wf_after(moved, parts, n);
        lemma_permuted_within_widen(a, b, 0, lo, hi, n);
        lemma_permuted_within_trans(arrays[0], a, b, 0, n);
    }
}

/// However the workers order the pending tasks of the in-place quicksort,
/// once no task is pending the array is sorted and holds the elements it
/// started with.
pub proof fn lemma_sort_any_order(
    arrays: Seq<Seq<u32>>,
    pending: Seq<Seq<(usize, usize)>>,
    picks: Seq<int>,
    pivots: Seq<int>,
    partitions: Seq<bool>,
)
    requires
        sort_run(arrays, pending, picks, pivots, partitions),
        pending.last().len() == 0,
    ensures
        sorted(arrays.last()),
        permutes(arrays.last(), arrays[0]),
{
    let m = picks.len() as int;
    let n = arrays[0].len() as int;
    lemma_sort_run_state(arrays, pending, picks, pivots, partitions, m);
    let b = arrays[m];
    assert(arrays.last() == b && pending.last() == pending[m]);
    assert forall|x: int, y: int| 0 <= x <= y < b.len() implies b[x] <= b[y] by {
        if x < y {
            assert(!same_task(pending[m], x, y));
        }
    }
    assert(b.subrange(0, n) =~= b);
    assert(arrays[0].subrange(0, n) =~= arrays[0]);
}

} // verus!
