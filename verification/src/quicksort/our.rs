use vstd::prelude::*;
use crate::quicksort::{SortTask, BLOCK_SIZE, DATAPAR_CUTOFF, SEQUENTIAL_CUTOFF, count_recursive_calls};
use crate::quicksort::chunk::{left_of, right_of, data_parallel_partition};
use crate::quicksort::{sort_range, sorted, partitioned_at, permuted_within, pending_after, lemma_permuted_within_trans, lemma_permuted_within_widen};
use crate::quicksort::task_parallel::{
    in_task, same_task, ordered_except, tasks_wf, task_volume, lemma_volume_concat,
    lemma_volume_at_least_twice, lemma_tasks_wf_after, lemma_volume_parts, lemma_replace_task,
    lemma_move_to_end,
};
use crate::multisets::permutes;

verus! {

/// The task that sorts a segment of `len` elements with the fully parallel
/// quicksort, which partitions from one array into another. When
/// `input_output_flipped` the sorted elements must end up in the input
/// array, otherwise in the output array. Long segments are partitioned in
/// chunks of `BLOCK_SIZE / chunk_size` elements (the pivot, element 0, is
/// not part of any chunk).
pub open spec fn create_task_spec(len: usize, input_output_flipped: bool, chunk_size: usize) -> SortTask {
    if len == 0 {
        SortTask::Nothing
    } else if len == 1 {
        if input_output_flipped { SortTask::Nothing } else { SortTask::CopyOne }
    } else if len < SEQUENTIAL_CUTOFF {
        SortTask::Sequential { copy: !input_output_flipped }
    } else if len < DATAPAR_CUTOFF {
        if input_output_flipped { SortTask::TaskParallel } else { SortTask::TaskParallelWithCopy }
    } else {
        let block = BLOCK_SIZE / chunk_size;
        SortTask::DataParallel { chunks: ((len - 1 + block - 1) / block as int) as u32 }
    }
}

/// The task for a segment of `len` elements: nothing for an empty one; for
/// one element, a copy into the output unless the arrays are flipped;
/// below 8192 elements a sequential sort, which first copies the input to
/// the output unless flipped; below 32768 elements the task-parallel sort,
/// in place when flipped and after a copy otherwise; from 32768 elements on
/// a data-parallel partition in chunks of `4096 / chunk_size` elements
/// after the pivot, as many as cover the `len - 1` elements (stated for
/// segments whose chunk count fits the `u32` it is kept in).
pub proof fn lemma_task_kinds(len: usize, flipped: bool, chunk_size: usize)
    requires
        0 < chunk_size <= 4096,
    ensures
        len == 0 ==> create_task_spec(len, flipped, chunk_size) == SortTask::Nothing,
        len == 1 && flipped ==> create_task_spec(len, flipped, chunk_size) == SortTask::Nothing,
        len == 1 && !flipped ==> create_task_spec(len, flipped, chunk_size) == SortTask::CopyOne,
        2 <= len < 8192 ==> create_task_spec(len, flipped, chunk_size) == (SortTask::Sequential { copy: !flipped }),
        8192 <= len < 32768 && flipped ==> create_task_spec(len, flipped, chunk_size) == SortTask::TaskParallel,
        8192 <= len < 32768 && !flipped ==> create_task_spec(len, flipped, chunk_size) == SortTask::TaskParallelWithCopy,
        32768 <= len <= 0x1_0000_0000 ==> (create_task_spec(len, flipped, chunk_size) matches SortTask::DataParallel { chunks }
            && chunks as int * (4096int / (chunk_size as int)) >= len - 1
            && (chunks as int - 1) * (4096int / (chunk_size as int)) < len - 1),
{
    if 32768 <= len <= 0x1_0000_0000 {
        let b = 4096int / (chunk_size as int);
        let c = (len - 1 + b - 1) / b;
        assert(b >= 1) by (nonlinear_arith) requires b == 4096int / (chunk_size as int), 0 < chunk_size <= 4096;
        assert(c * b >= len - 1 && (c - 1) * b < len - 1) by (nonlinear_arith)
            requires c == (len - 1 + b - 1) / b, b >= 1, len >= 1;
        assert(0 <= c <= len - 1) by (nonlinear_arith) requires c == (len - 1 + b - 1) / b, b >= 1, len >= 2;
        assert(BLOCK_SIZE / chunk_size == b);
    }
}

/// See `create_task_spec`.
pub fn create_task(len: usize, input_output_flipped: bool, chunk_size: usize) -> (task: SortTask)
    requires
        0 < chunk_size <= BLOCK_SIZE,
        len as int - 1 + (BLOCK_SIZE / chunk_size) as int <= usize::MAX,
    ensures
        task == create_task_spec(len, input_output_flipped, chunk_size),
{
    if len == 0 {
        SortTask::Nothing
    } else if len == 1 {
        if input_output_flipped { SortTask::Nothing } else { SortTask::CopyOne }
    } else if len < SEQUENTIAL_CUTOFF {
        SortTask::Sequential { copy: !input_output_flipped }
    } else if len < DATAPAR_CUTOFF {
        if input_output_flipped { SortTask::TaskParallel } else { SortTask::TaskParallelWithCopy }
    } else {
        let block = BLOCK_SIZE / chunk_size;
        proof {
            assert(block >= 1) by (nonlinear_arith)
                requires block == BLOCK_SIZE / chunk_size, 0 < chunk_size <= BLOCK_SIZE;
            assert(block <= BLOCK_SIZE) by (nonlinear_arith)
                requires block == BLOCK_SIZE / chunk_size, 0 < chunk_size;
        }
        SortTask::DataParallel { chunks: ((len - 1 + block - 1) / block) as u32 }
    }
}

/// Creates the task that sorts `input` into `output` (into `input` itself
/// when `input_output_flipped`), as `create_task` decides its kind: no
/// task for fewer than two elements, where a single element is copied to
/// `output` at once unless the arrays are flipped.
pub fn create_task_on(input: &Vec<u32>, output: &mut Vec<u32>, input_output_flipped: bool, chunk_size: usize) -> (task: Option<SortTask>)
    requires
        input.len() == old(output).len(),
        0 < chunk_size <= BLOCK_SIZE,
        input.len() as int - 1 + (BLOCK_SIZE / chunk_size) as int <= usize::MAX,
    ensures
        task is None <==> input.len() <= 1,
        task matches Some(t) ==> t == create_task_spec(input.len(), input_output_flipped, chunk_size),
        final(output)@ == (if input.len() == 1 && !input_output_flipped {
            old(output)@.update(0, input@[0])
        } else {
            old(output)@
        }),
{
    let kind = create_task(input.len(), input_output_flipped, chunk_size);
    match kind {
        SortTask::Nothing => None,
        SortTask::CopyOne => {
            output.set(0, input[0]);
            None
        },
        _ => Some(kind),
    }
}

/// The parts `0..count_left` and `count_left + 1..len` around the pivot
/// that hold at least two elements, each with `flipped`: the tasks that
/// follow a data-parallel partition.
pub open spec fn finish_parts(count_left: usize, len: usize, flipped: bool) -> Seq<(usize, usize, bool)> {
    (if count_left >= 2 { seq![(0usize, count_left, flipped)] } else { Seq::empty() })
        + (if len - count_left - 1 >= 2 { seq![((count_left + 1) as usize, len, flipped)] } else { Seq::empty() })
}

/// The input array after a data-parallel partition ended: when flipped, the
/// pivot (element 0) is stored at `count_left`, and a part of a single
/// element is copied back from the output array.
pub open spec fn finished_input(input: Seq<u32>, output: Seq<u32>, count_left: int, flipped: bool) -> Seq<u32> {
    Seq::new(input.len(), |k: int|
        if flipped && k == count_left {
            input[0]
        } else if flipped && ((count_left == 1 && k == 0) || (input.len() - count_left - 1 == 1 && k == input.len() - 1)) {
            output[k]
        } else {
            input[k]
        })
}

/// The output array after a data-parallel partition ended: unless flipped,
/// the pivot (element 0 of the input) is stored at `count_left`.
pub open spec fn finished_output(input: Seq<u32>, output: Seq<u32>, count_left: int, flipped: bool) -> Seq<u32> {
    if flipped { output } else { output.update(count_left, input[0]) }
}

/// The array a task of the fully parallel quicksort sorts into: the output
/// array, or the input array when the task is flipped.
pub open spec fn destination_of(input: Seq<u32>, output: Seq<u32>, flipped: bool) -> Seq<u32> {
    if flipped { input } else { output }
}

/// After the finish of a data-parallel partition of `input.len()` elements,
/// whose chunks left the parts in `output` and whose pivot (element 0 of
/// the input) goes to `count_left`: the tasks that follow are exactly the
/// parts of at least two elements, each on the other array; their elements
/// stay where the chunks put them; the pivot, and the element of every part
/// of one element, are in place in the array the task sorts into (the input
/// array when flipped, else the output array), holding the value the
/// partition put there.
pub proof fn lemma_finish_places_parts(
    input: Seq<u32>,
    output: Seq<u32>,
    count_left: usize,
    flipped: bool,
    tasks: Seq<(usize, usize, bool)>,
    fin: Seq<u32>,
    fout: Seq<u32>,
)
    requires
        input.len() == output.len(),
        count_left < input.len() <= usize::MAX,
        tasks == finish_parts(count_left, input.len() as usize, !flipped),
        fin == finished_input(input, output, count_left as int, flipped),
        fout == finished_output(input, output, count_left as int, flipped),
    ensures
        ({
            let n = input.len() as int;
            let dest = destination_of(fin, fout, flipped);
            &&& fin.len() == n && fout.len() == n
            &&& forall|t: int| 0 <= t < tasks.len() ==> (#[trigger] tasks[t]).2 == !flipped
                && tasks[t].0 + 2 <= tasks[t].1 && tasks[t].1 <= n
            &&& forall|k: int| 0 <= k < n && k != count_left ==>
                (#[trigger] covered(segments(tasks), k) <==> (if k < count_left { count_left >= 2 } else { n - count_left - 1 >= 2 }))
            &&& forall|k: int| 0 <= k < n && covered(segments(tasks), k) ==> #[trigger] fout[k] == output[k]
            &&& dest[count_left as int] == input[0]
            &&& forall|k: int| 0 <= k < n && k != count_left && !covered(segments(tasks), k) ==> #[trigger] dest[k] == output[k]
            &&& !flipped ==> fin == input
        }),
{
    let n = input.len() as int;
    let l = count_left;
    let segs = segments(tasks);
    let left = (0usize, l, !flipped);
    let right = ((l + 1) as usize, n as usize, !flipped);
    if count_left >= 2 && n - count_left - 1 >= 2 {
        assert(tasks =~= seq![left, right]);
    } else if count_left >= 2 {
        assert(tasks =~= seq![left]);
    } else if n - count_left - 1 >= 2 {
        assert(tasks =~= seq![right]);
    } else {
        assert(tasks =~= Seq::<(usize, usize, bool)>::empty());
    }
    assert forall|k: int| 0 <= k < n && k != count_left implies
        (#[trigger] covered(segs, k) <==> (if k < count_left { count_left >= 2 } else { n - count_left - 1 >= 2 })) by {
        if k < count_left && count_left >= 2 {
            assert(segs[0] == (0usize, l));
            assert(in_task(segs[0], k));
        } else if k > count_left && n - count_left - 1 >= 2 {
            let t = tasks.len() - 1;
            assert(segs[t] == ((l + 1) as usize, n as usize));
            assert(in_task(segs[t], k));
        }
    }
    if !flipped {
        assert(fin =~= input);
    }
}

/// The step that ends a data-parallel partition: the counts of the two
/// parts, the number of recursive tasks, the pending-task counter after
/// the step, whether the workers must be told to finish, and the tasks to
/// push.
pub struct FinishStep {
    pub count_left: usize,
    pub count_right: usize,
    pub calls: usize,
    pub pending: u64,
    pub finish: bool,
    pub tasks: Vec<(usize, usize, bool)>,
}

/// Ends the data-parallel partition of `input` into `output` (of `output`
/// into `input` when `input_output_flipped`) from the final value of its
/// shared counter, with `pending` tasks pending (this one included): the
/// pivot goes to index `count_left` of the array the elements were
/// partitioned into, the pending counter changes as `pending_after` says,
/// and each part gets a task with the arrays' roles swapped, as
/// `create_task_on` would make it: a part of two or more elements is
/// listed, a part of one element is copied into place at once.
pub fn partition_finish(
    input: &mut Vec<u32>,
    output: &mut Vec<u32>,
    input_output_flipped: bool,
    counters: u64,
    pending: u64,
) -> (step: FinishStep)
    requires
        old(input).len() == old(output).len(),
        counters % 0x1_0000_0000 + counters / 0x1_0000_0000 + 1 == old(input).len(),
        1 <= pending < u64::MAX,
    ensures
        step.count_left == counters % 0x1_0000_0000,
        step.count_right == counters / 0x1_0000_0000,
        step.calls == (if step.count_left > 1 { 1int } else { 0int }) + (if old(input).len() - step.count_left > 2 { 1int } else { 0int }),
        step.pending == pending + step.calls - 1,
        step.finish == (step.pending == 0),
        step.tasks@ == finish_parts(step.count_left, old(input).len(), !input_output_flipped),
        step.tasks.len() == step.calls,
        final(input)@ == finished_input(old(input)@, old(output)@, step.count_left as int, input_output_flipped),
        final(output)@ == finished_output(old(input)@, old(output)@, step.count_left as int, input_output_flipped),
        forall|t: int| 0 <= t < step.tasks.len() ==> (#[trigger] step.tasks@[t]).2 == !input_output_flipped
            && step.tasks@[t].0 + 2 <= step.tasks@[t].1 && step.tasks@[t].1 <= old(input).len(),
        forall|k: int| 0 <= k < old(input).len() && k != step.count_left ==>
            (#[trigger] covered(segments(step.tasks@), k) <==> (if k < step.count_left {
                step.count_left >= 2
            } else {
                old(input).len() - step.count_left - 1 >= 2
            })),
        forall|k: int| 0 <= k < old(input).len() && covered(segments(step.tasks@), k)
            ==> #[trigger] final(output)@[k] == old(output)@[k],
        destination_of(final(input)@, final(output)@, input_output_flipped)[step.count_left as int] == old(input)@[0],
        forall|k: int| 0 <= k < old(input).len() && k != step.count_left && !covered(segments(step.tasks@), k)
            ==> #[trigger] destination_of(final(input)@, final(output)@, input_output_flipped)[k] == old(output)@[k],
        !input_output_flipped ==> final(input)@ == old(input)@,
{
    let n = input.len();
    let count_left = left_of(counters) as usize;
    let count_right = right_of(counters) as usize;
    let calls = count_recursive_calls(n, count_left);
    let pivot = input[0];
    if input_output_flipped {
        input.set(count_left, pivot);
    } else {
        output.set(count_left, pivot);
    }
    let (new_pending, finish) = pending_after(pending, calls);
    let flipped_next = !input_output_flipped;
    let mut tasks: Vec<(usize, usize, bool)> = Vec::new();
    if count_left >= 2 {
        tasks.push((0, count_left, flipped_next));
    } else if count_left == 1 && input_output_flipped {
        let value = output[0];
        input.set(0, value);
    }
    if n - count_left - 1 >= 2 {
        tasks.push((count_left + 1, n, flipped_next));
    } else if n - count_left - 1 == 1 && input_output_flipped {
        let value = output[n - 1];
        input.set(n - 1, value);
    }
    proof {
        assert(tasks@ =~= finish_parts(count_left, n, flipped_next));
        assert(input@ =~= finished_input(old(input)@, old(output)@, count_left as int, input_output_flipped));
        assert(output@ =~= finished_output(old(input)@, old(output)@, count_left as int, input_output_flipped));
        lemma_finish_places_parts(old(input)@, old(output)@, count_left, input_output_flipped, tasks@, input@, output@);
    }
    FinishStep { count_left, count_right, calls, pending: new_pending, finish, tasks }
}


/// A copy of `array[lo..hi]`.
fn segment(array: &Vec<u32>, lo: usize, hi: usize) -> (s: Vec<u32>)
    requires
        lo <= hi <= array.len(),
    ensures
        s@ == array@.subrange(lo as int, hi as int),
{
    let mut s: Vec<u32> = Vec::new();
    for i in lo..hi
        invariant
            lo <= hi <= array.len(),
            s@ == array@.subrange(lo as int, i as int),
    {
        s.push(array[i]);
        proof {
            assert(s@ =~= array@.subrange(lo as int, i + 1));
        }
    }
    s
}

/// Copies `values` into `array` from position `lo` on, except position
/// `lo + skip`.
fn write_segment_except(array: &mut Vec<u32>, lo: usize, values: &Vec<u32>, skip: usize)
    requires
        lo + values.len() <= old(array).len(),
    ensures
        final(array).len() == old(array).len(),
        forall|k: int| 0 <= k < old(array).len() ==> #[trigger] final(array)[k] == if lo <= k < lo + values.len() && k != lo + skip {
            values[k - lo]
        } else {
            old(array)[k]
        },
{
    for i in 0..values.len()
        invariant
            array.len() == old(array).len(),
            lo + values.len() <= array.len(),
            forall|k: int| 0 <= k < array.len() ==> #[trigger] array[k] == if lo <= k < lo + i && k != lo + skip {
                values[k - lo]
            } else {
                old(array)[k]
            },
    {
        if i != skip {
            array.set(lo + i, values[i]);
        }
    }
}

/// The array that holds the elements of a task of the fully parallel
/// quicksort while it waits: the input array, or for a flipped task the
/// output array.
pub open spec fn source_of(input: Seq<u32>, output: Seq<u32>, flipped: bool) -> Seq<u32> {
    if flipped { output } else { input }
}

/// A task of the fully parallel quicksort that sorts its segment without a
/// data-parallel partition: the elements end up sorted in the output array.
fn run_sorting_task(input: &mut Vec<u32>, output: &mut Vec<u32>, lo: usize, hi: usize, flipped: bool)
    requires
        lo <= hi <= old(input).len(),
        old(input).len() == old(output).len(),
    ensures
        final(input)@ == old(input)@,
        final(output).len() == old(output).len(),
        forall|k: int| 0 <= k < old(output).len() && !(lo <= k < hi) ==> #[trigger] final(output)[k] == old(output)[k],
        sorted(final(output)@.subrange(lo as int, hi as int)),
        permutes(final(output)@.subrange(lo as int, hi as int), source_of(old(input)@, old(output)@, flipped).subrange(lo as int, hi as int)),
{
    let ghost src = source_of(input@, output@, flipped);
    if !flipped {
        let values = segment(input, lo, hi);
        write_segment_except(output, lo, &values, hi - lo);
        proof {
            assert(output@.subrange(lo as int, hi as int) =~= src.subrange(lo as int, hi as int));
        }
    }
    let ghost before = output@;
    proof {
        assert(before.subrange(lo as int, hi as int) =~= src.subrange(lo as int, hi as int));
    }
    sort_range(output, lo, hi);
}

/// The outcome of the data-parallel partition task of a segment: the
/// partitioned elements and the pivot's index among them.
pub struct PartitionOutcome {
    pub pivot_index: usize,
    pub arranged: Vec<u32>,
}


/// A data-parallel partition task of the fully parallel quicksort on
/// `lo..hi`: the elements of the segment, taken from its source array, are
/// partitioned in chunks of `BLOCK_SIZE / chunk_size` around the first of
/// them into the other array. The pivot goes to the output array, and so
/// does the element of a part that holds a single element (the task
/// created for such a part copies it there).
fn run_partition_task(input: &mut Vec<u32>, output: &mut Vec<u32>, lo: usize, hi: usize, flipped: bool, chunk_size: usize) -> (r: PartitionOutcome)
    requires
        old(input).len() == old(output).len(),
        lo < hi <= old(input).len(),
        hi - lo >= 2,
        hi - lo <= 0x1_0000_0000,
        hi - lo + BLOCK_SIZE <= usize::MAX,
        0 < chunk_size <= BLOCK_SIZE,
    ensures
        partition_task_effect(old(input)@, old(output)@, lo as int, hi as int, flipped, r.pivot_index as int,
            r.arranged@, final(input)@, final(output)@),
{
    let len = hi - lo;
    let local_in = if flipped { segment(output, lo, hi) } else { segment(input, lo, hi) };
    let mut local_out: Vec<u32> = Vec::new();
    for i in 0..len
        invariant
            local_out.len() == i,
    {
        local_out.push(0);
    }
    let chunk_len = BLOCK_SIZE / chunk_size;
    proof {
        assert(1 <= chunk_len <= BLOCK_SIZE) by (nonlinear_arith)
            requires chunk_len == BLOCK_SIZE / chunk_size, 0 < chunk_size <= BLOCK_SIZE;
    }
    let p = data_parallel_partition(&local_in, &mut local_out, chunk_len);
    proof {
        assert(local_out@ =~= local_out@.subrange(0, len as int));
    }
    if flipped {
        write_segment_except(input, lo, &local_out, p);
    } else {
        write_segment_except(output, lo, &local_out, p);
    }
    let pivot = local_out[p];
    output.set(lo + p, pivot);
    // The task created for a part of one element copies it to the output.
    if let SortTask::CopyOne = create_task(p, !flipped, chunk_size) {
        let value = input[lo];
        output.set(lo, value);
    }
    if let SortTask::CopyOne = create_task(len - p - 1, !flipped, chunk_size) {
        let value = input[hi - 1];
        output.set(hi - 1, value);
    }
    PartitionOutcome { pivot_index: p, arranged: local_out }
}


/// The segments of a list of tasks.
pub open spec fn segments(tasks: Seq<(usize, usize, bool)>) -> Seq<(usize, usize)> {
    Seq::new(tasks.len(), |k: int| (tasks[k].0, tasks[k].1))
}

/// Position `i` lies in one of the segments.
pub open spec fn covered(segs: Seq<(usize, usize)>, i: int) -> bool {
    exists|k: int| 0 <= k < segs.len() && #[trigger] in_task(segs[k], i)
}

/// Where the elements are while tasks are pending: `v` is the array as it
/// stands, every position of a pending task holding its element in that
/// task's source array, every other position its final element in the
/// output array.
pub open spec fn placed(v: Seq<u32>, input: Seq<u32>, output: Seq<u32>, tasks: Seq<(usize, usize, bool)>) -> bool {
    &&& forall|k: int, i: int| 0 <= k < tasks.len() && tasks[k].0 <= i < tasks[k].1
            ==> #[trigger] source_of(input, output, tasks[k].2)[i] == #[trigger] v[i]
    &&& forall|i: int| 0 <= i < v.len() && !covered(segments(tasks), i) ==> #[trigger] v[i] == output[i]
}

proof fn lemma_placed_after(
    v: Seq<u32>,
    w: Seq<u32>,
    in0: Seq<u32>,
    out0: Seq<u32>,
    in1: Seq<u32>,
    out1: Seq<u32>,
    tasks: Seq<(usize, usize, bool)>,
    parts: Seq<(usize, usize, bool)>,
)
    requires
        tasks.len() > 0,
        placed(v, in0, out0, tasks),
        tasks_wf(segments(tasks), v.len() as int),
        v.len() == w.len() == in0.len() == out0.len() == in1.len() == out1.len(),
        forall|k: int| 0 <= k < v.len() && !(tasks.last().0 <= k < tasks.last().1)
            ==> #[trigger] w[k] == v[k] && in1[k] == in0[k] && out1[k] == out0[k],
        forall|k: int| 0 <= k < parts.len() ==> #[trigger] parts[k].0 >= tasks.last().0 && parts[k].1 <= tasks.last().1,
        forall|k: int, i: int| 0 <= k < parts.len() && parts[k].0 <= i < parts[k].1
            ==> #[trigger] source_of(in1, out1, parts[k].2)[i] == #[trigger] w[i],
        forall|i: int| tasks.last().0 <= i < tasks.last().1 && !covered(segments(parts), i) ==> #[trigger] w[i] == out1[i],
    ensures
        placed(w, in1, out1, tasks.drop_last() + parts),
{
    let rest = tasks.drop_last();
    let all = rest + parts;
    let last = tasks.len() - 1;
    let lo = tasks.last().0 as int;
    let hi = tasks.last().1 as int;
    assert(tasks[last] == tasks.last());
    assert(segments(tasks)[last] == (tasks.last().0, tasks.last().1));
    assert forall|k: int, i: int| 0 <= k < all.len() && all[k].0 <= i < all[k].1
        implies #[trigger] source_of(in1, out1, all[k].2)[i] == #[trigger] w[i] by {
        if k < rest.len() {
            assert(all[k] == tasks[k]);
            assert(in_task(segments(tasks)[k], i));
            if lo <= i < hi {
                assert(in_task(segments(tasks)[last], i));
                assert(!(in_task(segments(tasks)[k], i) && in_task(segments(tasks)[last], i)));
            }
            assert(source_of(in0, out0, tasks[k].2)[i] == v[i]);
            assert(w[i] == v[i] && in1[i] == in0[i] && out1[i] == out0[i]);
        } else {
            assert(all[k] == parts[k - rest.len()]);
        }
    }
    assert forall|i: int| 0 <= i < w.len() && !covered(segments(all), i) implies #[trigger] w[i] == out1[i] by {
        if lo <= i < hi {
            if covered(segments(parts), i) {
                let k = choose|k: int| 0 <= k < segments(parts).len() && #[trigger] in_task(segments(parts)[k], i);
                assert(segments(all)[rest.len() + k] == segments(parts)[k]);
                assert(in_task(segments(all)[rest.len() + k], i));
            }
        } else {
            if covered(segments(tasks), i) {
                let k = choose|k: int| 0 <= k < segments(tasks).len() && #[trigger] in_task(segments(tasks)[k], i);
                assert(k != last);
                assert(segments(all)[k] == segments(tasks)[k]);
                assert(in_task(segments(all)[k], i));
            }
        }
    }
}


proof fn lemma_segments_concat(a: Seq<(usize, usize, bool)>, b: Seq<(usize, usize, bool)>)
    ensures
        segments(a + b) == segments(a) + segments(b),
{
    assert(segments(a + b) =~= segments(a) + segments(b));
}

/// The fully parallel quicksort of `input`, its tasks run one after the
/// other by a single worker. A task either sorts its segment without a
/// data-parallel partition (the task-parallel sort of a mid-sized segment
/// counts as one such task here), or partitions it from its source array
/// into the other array and starts a task for every part of at least two
/// elements, on the other array and with the roles of the arrays swapped.
/// A counter tracks the pending tasks; the workers are told to finish when
/// it drops to zero. The sorted elements end up in `output`; `input` serves
/// as scratch space. Returns whether the workers were told to finish.
pub fn sort_data_parallel(input: &mut Vec<u32>, output: &mut Vec<u32>, chunk_size: usize) -> (finished: bool)
    requires
        old(input).len() == old(output).len(),
        2 <= old(input).len() <= 0x1_0000_0000,
        old(input).len() + BLOCK_SIZE <= usize::MAX,
        0 < chunk_size <= BLOCK_SIZE,
    ensures
        sorted(final(output)@),
        permutes(final(output)@, old(input)@),
        final(output).len() == old(output).len(),
        finished,
{
    let n = input.len();
    let ghost a0 = input@;
    let ghost mut v = input@;
    let mut pending: u64 = 1;
    let mut tasks: Vec<(usize, usize, bool)> = Vec::new();
    tasks.push((0, n, false));
    let mut finished = false;
    proof {
        assert(segments(tasks@) =~= seq![(0usize, n)]);
        assert(seq![(0usize, n)].drop_last() =~= Seq::<(usize, usize)>::empty());
        assert(task_volume(seq![(0usize, n)].drop_last()) == 0);
        assert(task_volume(segments(tasks@)) == n);
        assert(v.subrange(0, n as int) =~= a0.subrange(0, n as int));
        assert forall|i: int, j: int| 0 <= i < j < v.len() implies same_task(segments(tasks@), i, j) by {
            assert(in_task(segments(tasks@)[0], i) && in_task(segments(tasks@)[0], j));
        }
        assert forall|i: int| 0 <= i < v.len() implies covered(segments(tasks@), i) by {
            assert(in_task(segments(tasks@)[0], i));
        }
    }
    while tasks.len() > 0
        invariant
            input.len() == n,
            output.len() == n,
            2 <= n <= 0x1_0000_0000,
            n + BLOCK_SIZE <= usize::MAX,
            0 < chunk_size <= BLOCK_SIZE,
            v.len() == n,
            permuted_within(a0, v, 0, n as int),
            tasks_wf(segments(tasks@), n as int),
            ordered_except(v, segments(tasks@)),
            placed(v, input@, output@, tasks@),
            pending == tasks.len(),
            task_volume(segments(tasks@)) <= n,
            finished ==> tasks.len() == 0,
            tasks.len() == 0 ==> finished,
        decreases task_volume(segments(tasks@)),
    {
        let ghost old_tasks = tasks@;
        let ghost segs_old = segments(old_tasks);
        let ghost in0 = input@;
        let ghost out0 = output@;
        let (lo, hi, flipped) = tasks.pop().unwrap();
        proof {
            let last = old_tasks.len() - 1;
            assert(old_tasks[last] == old_tasks.last());
            assert(old_tasks.last() == (lo, hi, flipped));
            assert(tasks@ == old_tasks.drop_last());
            assert(segs_old[last] == (lo, hi));
            assert(segs_old.last() == (lo, hi));
            assert(segments(tasks@) =~= segs_old.drop_last());
            assert(lo + 2 <= hi && hi <= n);
            lemma_volume_concat(segs_old.drop_last(), seq![(lo, hi)]);
            assert(segs_old.drop_last() + seq![(lo, hi)] =~= segs_old);
            assert(task_volume(seq![(lo, hi)]) == hi - lo) by {
                assert(seq![(lo, hi)].drop_last() =~= Seq::<(usize, usize)>::empty());
            }
            assert forall|k: int| 0 <= k < segments(tasks@).len() implies #[trigger] segments(tasks@)[k].0 + 2 <= segments(tasks@)[k].1 by {
                assert(segments(tasks@)[k] == segs_old[k]);
            }
            lemma_volume_at_least_twice(segments(tasks@));
        }
        let len = hi - lo;
        let calls: usize;
        let ghost mut w: Seq<u32> = v;
        let ghost mut parts: Seq<(usize, usize, bool)> = Seq::empty();
        let task = create_task(len, flipped, chunk_size);
        let is_partition = match task {
            SortTask::DataParallel { .. } => true,
            _ => false,
        };
        if is_partition {
            let outcome = run_partition_task(input, output, lo, hi, flipped, chunk_size);
            let p = outcome.pivot_index;
            calls = count_recursive_calls(len, p);
            if p > 1 {
                tasks.push((lo, lo + p, !flipped));
            }
            if len - p > 2 {
                tasks.push((lo + p + 1, hi, !flipped));
            }
            proof {
                parts = tasks@.subrange(old_tasks.len() - 1, tasks@.len() as int);
                assert(tasks@ =~= old_tasks.drop_last() + parts);
                let nf = !flipped;
                let left = (lo, (lo + p) as usize, nf);
                let right = ((lo + p + 1) as usize, hi, nf);
                if p > 1 && len - p > 2 {
                    assert(parts =~= seq![left, right]);
                } else if p > 1 {
                    assert(parts =~= seq![left]);
                } else if len - p > 2 {
                    assert(parts =~= seq![right]);
                } else {
                    assert(parts =~= Seq::<(usize, usize, bool)>::empty());
                }
                assert(parts =~= partition_parts(lo, p as int, hi, flipped));
                w = lemma_parallel_task(v, in0, out0, input@, output@, old_tasks, p as int, outcome.arranged@, true);
                assert forall|k: int| 0 <= k < segments(parts).len() implies #[trigger] segments(parts)[k].0 >= lo
                    && segments(parts)[k].1 <= hi && segments(parts)[k].0 + 2 <= segments(parts)[k].1 by {
                }
                lemma_volume_parts(segments(parts), lo as int, hi as int);
            }
        } else {
            run_sorting_task(input, output, lo, hi, flipped);
            calls = 0;
            proof {
                parts = Seq::empty();
                assert(tasks@ =~= old_tasks.drop_last() + parts);
                w = lemma_parallel_task(v, in0, out0, input@, output@, old_tasks, 0, Seq::empty(), false);
                assert(segments(parts) =~= Seq::<(usize, usize)>::empty());
                assert(task_volume(segments(parts)) == 0);
            }
        }
        proof {
            lemma_segments_concat(old_tasks.drop_last(), parts);
            assert(segments(old_tasks.drop_last()) =~= segs_old.drop_last());
            assert(segments(tasks@) == segs_old.drop_last() + segments(parts));
            lemma_permuted_within_trans(a0, v, w, 0, n as int);
            lemma_volume_concat(segs_old.drop_last(), segments(parts));
            assert(task_volume(segments(tasks@)) < task_volume(segs_old));
            lemma_volume_at_least_twice(segments(tasks@));
            assert(parts.len() == calls);
            v = w;
        }
        let (new_pending, finish) = pending_after(pending, calls);
        pending = new_pending;
        if finish {
            finished = true;
        }
    }
    proof {
        assert forall|i: int| 0 <= i < n implies #[trigger] output@[i] == v[i] by {
            assert(!covered(segments(tasks@), i));
        }
        assert(output@ =~= v);
        assert forall|i: int, j: int| 0 <= i <= j < output@.len() implies output@[i] <= output@[j] by {
            if i < j {
                assert(!same_task(segments(tasks@), i, j));
            }
        }
        assert(v.subrange(0, n as int) =~= v);
        assert(a0.subrange(0, n as int) =~= a0);
    }
    finished
}

/// What a data-parallel partition task on `lo..hi` leaves (the contract of
/// the task as `sort_data_parallel` runs it): the segment's elements,
/// taken from the source array, partitioned into `arranged` around the
/// first of them, which lands at `p`, and written to the other array; the
/// pivot, and a part of a single element, in the output array.
pub open spec fn partition_task_effect(
    in0: Seq<u32>,
    out0: Seq<u32>,
    lo: int,
    hi: int,
    flipped: bool,
    p: int,
    arranged: Seq<u32>,
    in1: Seq<u32>,
    out1: Seq<u32>,
) -> bool {
    let src = source_of(in0, out0, flipped);
    let len = hi - lo;
    let a = arranged;
    &&& a.len() == len
    &&& 0 <= p < len
    &&& partitioned_at(a, 0, p, len, src[lo])
    &&& permutes(a, src.subrange(lo, hi))
    &&& in1.len() == in0.len()
    &&& out1.len() == out0.len()
    &&& forall|i: int| 0 <= i < len && i != p ==> (if flipped { in1 } else { out1 })[lo + i] == #[trigger] a[i]
    &&& out1[lo + p] == a[p]
    &&& p == 1 ==> out1[lo] == a[0]
    &&& len - p - 1 == 1 ==> out1[hi - 1] == a[len - 1]
    &&& forall|k: int| 0 <= k < in0.len() && !(lo <= k < hi) ==> #[trigger] in1[k] == in0[k]
    &&& forall|k: int| 0 <= k < out0.len() && !(lo <= k < hi) ==> #[trigger] out1[k] == out0[k]
}

/// What a task that sorts its segment `lo..hi` without a data-parallel
/// partition leaves: the segment sorted in the output array.
pub open spec fn sorting_task_effect(in0: Seq<u32>, out0: Seq<u32>, lo: int, hi: int, flipped: bool, in1: Seq<u32>, out1: Seq<u32>) -> bool {
    &&& in1 == in0
    &&& out1.len() == out0.len()
    &&& forall|k: int| 0 <= k < out0.len() && !(lo <= k < hi) ==> #[trigger] out1[k] == out0[k]
    &&& sorted(out1.subrange(lo, hi))
    &&& permutes(out1.subrange(lo, hi), source_of(in0, out0, flipped).subrange(lo, hi))
}

/// The tasks a data-parallel partition of `lo..hi` with the pivot at
/// `lo + p` starts: one for each part of at least two elements, with the
/// arrays' roles swapped.
pub open spec fn partition_parts(lo: usize, p: int, hi: usize, flipped: bool) -> Seq<(usize, usize, bool)> {
    (if p > 1 { seq![(lo, (lo + p) as usize, !flipped)] } else { Seq::empty() })
        + (if hi - lo - p > 2 { seq![((lo + p + 1) as usize, hi, !flipped)] } else { Seq::empty() })
}

/// One task of the fully parallel quicksort, run by whichever worker took
/// it: pending task `k` is taken out of the list and either sorts its
/// segment or partitions it (pivot at offset `p`, arrangement `arranged`),
/// in which case its parts join the pending tasks.
pub open spec fn parallel_sort_step(
    in0: Seq<u32>,
    out0: Seq<u32>,
    tasks: Seq<(usize, usize, bool)>,
    k: int,
    p: int,
    arranged: Seq<u32>,
    partitions: bool,
    in1: Seq<u32>,
    out1: Seq<u32>,
    next: Seq<(usize, usize, bool)>,
) -> bool {
    let lo = tasks[k].0;
    let hi = tasks[k].1;
    let flipped = tasks[k].2;
    &&& 0 <= k < tasks.len()
    &&& if partitions {
        &&& partition_task_effect(in0, out0, lo as int, hi as int, flipped, p, arranged, in1, out1)
        &&& next == tasks.remove(k) + partition_parts(lo, p, hi, flipped)
    } else {
        &&& sorting_task_effect(in0, out0, lo as int, hi as int, flipped, in1, out1)
        &&& next == tasks.remove(k)
    }
}

/// A run of the fully parallel quicksort of an array of `n >= 2` elements:
/// one pending task for the whole array at the start, and step `i` runs
/// pending task `picks[i]`, any of them, in whatever order the workers take
/// them. The elements start in `inputs[0]`, or in `outputs[0]` when the
/// first task is flipped; either way the sorted elements end up in the
/// outputs. (A task created on arrays `a` and `b` with the roles flipped,
/// which sorts `a` in place with `b` as scratch space, is the run with
/// `outputs[0] == a` and `inputs[0] == b`.)
pub open spec fn parallel_sort_run(
    inputs: Seq<Seq<u32>>,
    outputs: Seq<Seq<u32>>,
    pending: Seq<Seq<(usize, usize, bool)>>,
    picks: Seq<int>,
    pivots: Seq<int>,
    arranged: Seq<Seq<u32>>,
    partitions: Seq<bool>,
) -> bool {
    &&& inputs.len() == picks.len() + 1
    &&& outputs.len() == picks.len() + 1
    &&& pending.len() == picks.len() + 1
    &&& pivots.len() == picks.len()
    &&& arranged.len() == picks.len()
    &&& partitions.len() == picks.len()
    &&& 2 <= inputs[0].len() <= usize::MAX
    &&& outputs[0].len() == inputs[0].len()
    &&& pending[0].len() == 1
    &&& pending[0][0].0 == 0
    &&& pending[0][0].1 == inputs[0].len()
    &&& forall|i: int| 0 <= i < picks.len() ==> #[trigger] parallel_sort_step(inputs[i], outputs[i], pending[i], picks[i],
            pivots[i], arranged[i], partitions[i], inputs[i + 1], outputs[i + 1], pending[i + 1])
}

proof fn lemma_segments_move(tasks: Seq<(usize, usize, bool)>, k: int)
    requires
        0 <= k < tasks.len(),
    ensures
        segments(tasks.remove(k).push(tasks[k])) == segments(tasks).remove(k).push(segments(tasks)[k]),
        segments(tasks.remove(k)) == segments(tasks).remove(k),
{
    assert(segments(tasks.remove(k).push(tasks[k])) =~= segments(tasks).remove(k).push(segments(tasks)[k]));
    assert(segments(tasks.remove(k)) =~= segments(tasks).remove(k));
}

proof fn lemma_placed_moved(v: Seq<u32>, input: Seq<u32>, output: Seq<u32>, tasks: Seq<(usize, usize, bool)>, k: int)
    requires
        0 <= k < tasks.len(),
        placed(v, input, output, tasks),
    ensures
        placed(v, input, output, tasks.remove(k).push(tasks[k])),
{
    let t = tasks.remove(k).push(tasks[k]);
    let len = tasks.len() as int;
    let src = |m: int| if m == len - 1 { k } else if m < k { m } else { m + 1 };
    assert forall|m: int| 0 <= m < len implies #[trigger] t[m] == tasks[src(m)] by {}
    assert forall|m: int, i: int| 0 <= m < t.len() && t[m].0 <= i < t[m].1
        implies #[trigger] source_of(input, output, t[m].2)[i] == #[trigger] v[i] by {
        assert(t[m] == tasks[src(m)]);
    }
    lemma_segments_move(tasks, k);
    assert forall|i: int| 0 <= i < v.len() && !covered(segments(t), i) implies #[trigger] v[i] == output[i] by {
        if covered(segments(tasks), i) {
            let m = choose|m: int| 0 <= m < segments(tasks).len() && #[trigger] in_task(segments(tasks)[m], i);
            let m2 = if m == k { len - 1 } else if m < k { m } else { m - 1 };
            assert(t[m2] == tasks[src(m2)]);
            assert(segments(t)[m2] == segments(tasks)[m]);
            assert(in_task(segments(t)[m2], i));
        }
    }
}

/// Running the last pending task: the array as the sort sees it (`w`) and
/// the list with the task replaced by its parts keep the invariants.
#[verifier::rlimit(90)]
#[verifier::spinoff_prover]
proof fn lemma_parallel_task(
    v: Seq<u32>,
    in0: Seq<u32>,
    out0: Seq<u32>,
    in1: Seq<u32>,
    out1: Seq<u32>,
    tasks: Seq<(usize, usize, bool)>,
    p: int,
    a: Seq<u32>,
    partitions: bool,
) -> (w: Seq<u32>)
    requires
        tasks.len() > 0,
        v.len() == in0.len() == out0.len(),
        tasks_wf(segments(tasks), v.len() as int),
        ordered_except(v, segments(tasks)),
        placed(v, in0, out0, tasks),
        partitions ==> partition_task_effect(in0, out0, tasks.last().0 as int, tasks.last().1 as int, tasks.last().2, p, a, in1, out1),
        !partitions ==> sorting_task_effect(in0, out0, tasks.last().0 as int, tasks.last().1 as int, tasks.last().2, in1, out1),
    ensures
        ({
            let lo = tasks.last().0;
            let hi = tasks.last().1;
            let parts = if partitions { partition_parts(lo, p, hi, tasks.last().2) } else { Seq::empty() };
            let all = tasks.drop_last() + parts;
            &&& w.len() == v.len() == in1.len() == out1.len()
            &&& permuted_within(v, w, 0, v.len() as int)
            &&& tasks_wf(segments(all), v.len() as int)
            &&& ordered_except(w, segments(all))
            &&& placed(w, in1, out1, all)
        }),
{
    let n = v.len() as int;
    let last = tasks.len() - 1;
    let (lo, hi, flipped) = tasks.last();
    let segs_old = segments(tasks);
    let src = source_of(in0, out0, flipped);
    assert(tasks[last] == tasks.last());
    assert(segs_old[last] == (lo, hi));
    assert(segs_old.last() == (lo, hi));
    assert(segs_old[last].0 + 2 <= segs_old[last].1);
    assert(segs_old[last].1 <= n);
    assert(lo + 2 <= hi && hi <= n);
    assert(v.subrange(lo as int, hi as int) =~= src.subrange(lo as int, hi as int)) by {
        assert forall|i: int| lo <= i < hi implies #[trigger] v[i] == src[i] by {
            assert(tasks[last].0 <= i < tasks[last].1);
            assert(source_of(in0, out0, tasks[last].2)[i] == v[i]);
        }
    }
    let len = hi - lo;
    let parts = if partitions { partition_parts(lo, p, hi, flipped) } else { Seq::empty() };
    let w = if partitions {
        Seq::new(n as nat, |i: int| if lo <= i < hi { a[i - lo] } else { v[i] })
    } else {
        Seq::new(n as nat, |i: int| if lo <= i < hi { out1[i] } else { v[i] })
    };
    if partitions {
        let nf = !flipped;
        let left = (lo, (lo + p) as usize, nf);
        let right = ((lo + p + 1) as usize, hi, nf);
        if p > 1 && len - p > 2 {
            assert(parts =~= seq![left, right]);
        } else if p > 1 {
            assert(parts =~= seq![left]);
        } else if len - p > 2 {
            assert(parts =~= seq![right]);
        } else {
            assert(parts =~= Seq::<(usize, usize, bool)>::empty());
        }
        assert(w.subrange(lo as int, hi as int) =~= a);
        assert forall|i: int, j: int| lo <= i < j < hi && !same_task(segments(parts), i, j)
            implies #[trigger] w[i] <= #[trigger] w[j] by {
            assert(w[i] == a[i - lo] && w[j] == a[j - lo]);
            if j < lo + p {
                if p > 1 {
                    assert(segments(parts)[0] == (lo, (lo + p) as usize));
                    assert(in_task(segments(parts)[0], i) && in_task(segments(parts)[0], j));
                }
            } else if i > lo + p {
                if len - p > 2 {
                    let k = parts.len() - 1;
                    assert(segments(parts)[k] == ((lo + p + 1) as usize, hi));
                    assert(in_task(segments(parts)[k], i) && in_task(segments(parts)[k], j));
                }
            }
        }
        assert forall|k: int, i: int| 0 <= k < parts.len() && parts[k].0 <= i < parts[k].1
            implies #[trigger] source_of(in1, out1, parts[k].2)[i] == #[trigger] w[i] by {
            assert(i != lo + p);
            assert(w[i] == a[i - lo]);
        }
        assert forall|i: int| lo <= i < hi && !covered(segments(parts), i) implies #[trigger] w[i] == out1[i] by {
            if i < lo + p {
                if p > 1 {
                    assert(segments(parts)[0] == (lo, (lo + p) as usize));
                    assert(in_task(segments(parts)[0], i));
                }
                assert(i == lo);
            } else if i > lo + p {
                if len - p > 2 {
                    let k = parts.len() - 1;
                    assert(segments(parts)[k] == ((lo + p + 1) as usize, hi));
                    assert(in_task(segments(parts)[k], i));
                }
                assert(i == hi - 1);
            }
        }
        assert forall|k: int| 0 <= k < segments(parts).len() implies #[trigger] segments(parts)[k].0 >= lo
            && segments(parts)[k].1 <= hi && segments(parts)[k].0 + 2 <= segments(parts)[k].1 by {
        }
        assert forall|k1: int, k2: int, i: int| 0 <= k1 < segments(parts).len() && 0 <= k2 < segments(parts).len() && k1 != k2
            implies !(#[trigger] in_task(segments(parts)[k1], i) && #[trigger] in_task(segments(parts)[k2], i)) by {
        }
    } else {
        assert(w.subrange(lo as int, hi as int) =~= out1.subrange(lo as int, hi as int));
        assert forall|i: int, j: int| lo <= i < j < hi && !same_task(segments(parts), i, j)
            implies #[trigger] w[i] <= #[trigger] w[j] by {
            let s = out1.subrange(lo as int, hi as int);
            assert(s[i - lo] <= s[j - lo]);
        }
        assert(segments(parts) =~= Seq::<(usize, usize)>::empty());
    }
    assert(permuted_within(v, w, lo as int, hi as int));
    lemma_replace_task(v, w, segs_old, segments(parts));
    lemma_segments_concat(tasks.drop_last(), parts);
    assert(segments(tasks.drop_last()) =~= segs_old.drop_last());
    lemma_placed_after(v, w, in0, out0, in1, out1, tasks, parts);
    lemma_tasks_wf_after(segs_old, segments(parts), n);
    lemma_permuted_within_widen(v, w, 0, lo as int, hi as int, n);
    w
}

proof fn lemma_parallel_run_state(
    inputs: Seq<Seq<u32>>,
    outputs: Seq<Seq<u32>>,
    pending: Seq<Seq<(usize, usize, bool)>>,
    picks: Seq<int>,
    pivots: Seq<int>,
    arranged: Seq<Seq<u32>>,
    partitions: Seq<bool>,
    i: int,
) -> (v: Seq<u32>)
    requires
        parallel_sort_run(inputs, outputs, pending, picks, pivots, arranged, partitions),
        0 <= i <= picks.len(),
    ensures
        v.len() == inputs[0].len() == inputs[i].len() == outputs[i].len(),
        permuted_within(source_of(inputs[0], outputs[0], pending[0][0].2), v, 0, v.len() as int),
        tasks_wf(segments(pending[i]), v.len() as int),
        ordered_except(v, segments(pending[i])),
        placed(v, inputs[i], outputs[i], pending[i]),
    decreases i,
{
    let n = inputs[0].len() as int;
    if i == 0 {
        let t = pending[0];
        let v = source_of(inputs[0], outputs[0], t[0].2);
        assert(segments(t) =~= seq![(0usize, n as usize)]);
        assert(v.subrange(0, n) =~= v);
        assert forall|x: int, y: int| 0 <= x < y < v.len() && !same_task(segments(t), x, y) implies #[trigger] v[x] <= #[trigger] v[y] by {
            assert(in_task(segments(t)[0], x) && in_task(segments(t)[0], y));
        }
        assert forall|x: int| 0 <= x < v.len() && !covered(segments(t), x) implies #[trigger] v[x] == outputs[0][x] by {
            assert(in_task(segments(t)[0], x));
        }
        assert forall|m: int, x: int| 0 <= m < t.len() && t[m].0 <= x < t[m].1
            implies #[trigger] source_of(inputs[0], outputs[0], t[m].2)[x] == #[trigger] v[x] by {
            assert(m == 0);
        }
        v
    } else {
        let j = i - 1;
        let v = lemma_parallel_run_state(inputs, outputs, pending, picks, pivots, arranged, partitions, j);
        assert(parallel_sort_step(inputs[j], outputs[j], pending[j], picks[j], pivots[j], arranged[j], partitions[j],
            inputs[j + 1], outputs[j + 1], pending[j + 1]));
        assert(j + 1 == i);
        let tasks = pending[j];
        let k = picks[j];
        let moved = tasks.remove(k).push(tasks[k]);
        lemma_segments_move(tasks, k);
        lemma_move_to_end(v, segments(tasks), k, n);
        lemma_placed_moved(v, inputs[j], outputs[j], tasks, k);
        assert(moved.drop_last() =~= tasks.remove(k));
        assert(moved.last() == tasks[k]);
        let w = lemma_parallel_task(v, inputs[j], outputs[j], inputs[i], outputs[i], moved, pivots[j], arranged[j], partitions[j]);
        lemma_permuted_within_trans(source_of(inputs[0], outputs[0], pending[0][0].2), v, w, 0, n);
        w
    }
}

/// However the workers order the pending tasks of the fully parallel
/// quicksort, once no task is pending the output array is sorted and holds
/// the elements the run started with: those of the input array, or of the
/// output array when the first task is flipped.
pub proof fn lemma_parallel_sort_any_order(
    inputs: Seq<Seq<u32>>,
    outputs: Seq<Seq<u32>>,
    pending: Seq<Seq<(usize, usize, bool)>>,
    picks: Seq<int>,
    pivots: Seq<int>,
    arranged: Seq<Seq<u32>>,
    partitions: Seq<bool>,
)
    requires
        parallel_sort_run(inputs, outputs, pending, picks, pivots, arranged, partitions),
        pending.last().len() == 0,
    ensures
        sorted(outputs.last()),
        permutes(outputs.last(), source_of(inputs[0], outputs[0], pending[0][0].2)),
{
    let m = picks.len() as int;
    let v = lemma_parallel_run_state(inputs, outputs, pending, picks, pivots, arranged, partitions, m);
    let n = v.len() as int;
    let o = outputs[m];
    assert(outputs.last() == o && pending.last() == pending[m]);
    assert forall|i: int| 0 <= i < n implies #[trigger] o[i] == v[i] by {
        assert(!covered(segments(pending[m]), i));
    }
    assert(o =~= v);
    assert forall|x: int, y: int| 0 <= x <= y < o.len() implies o[x] <= o[y] by {
        if x < y {
            assert(!same_task(segments(pending[m]), x, y));
        }
    }
    assert(v.subrange(0, n) =~= v);
    let start = source_of(inputs[0], outputs[0], pending[0][0].2);
    assert(start.subrange(0, n) =~= start);
}

} // verus!
