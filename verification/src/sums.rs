use vstd::prelude::*;
use rayon::iter::IntoParallelIterator;
use rayon::iter::ParallelIterator;
use crate::claims::chunks_upto;

verus! {

/// Number of array elements in one chunk of the array sum.
pub const ARRAY_BLOCK_SIZE: usize = 2048;

/// Number of function values in one block of the function sum.
pub const FUNCTION_BLOCK_SIZE: u64 = 512;

/// The first argument of the function sum.
pub const START: u64 = 1073741824;

/// The sum of a sequence of `u64`, as an unbounded integer.
pub open spec fn seq_sum(s: Seq<u64>) -> int
    decreases s.len(),
{
    if s.len() == 0 {
        0
    } else {
        seq_sum(s.drop_last()) + s.last()
    }
}

proof fn lemma_seq_sum_push(s: Seq<u64>, v: u64)
    ensures
        seq_sum(s.push(v)) == seq_sum(s) + v,
{
    assert(s.push(v).drop_last() =~= s);
}

proof fn lemma_seq_sum_split(s: Seq<u64>, k: int)
    requires
        0 <= k <= s.len(),
    ensures
        seq_sum(s) == seq_sum(s.take(k)) + seq_sum(s.skip(k)),
        seq_sum(s.take(k)) >= 0,
        seq_sum(s.skip(k)) >= 0,
    decreases s.len(),
{
    if k == s.len() {
        assert(s.take(k) =~= s);
        assert(s.skip(k) =~= Seq::<u64>::empty());
        lemma_seq_sum_nonneg(s);
    } else {
        lemma_seq_sum_split(s.drop_last(), k);
        assert(s.drop_last().take(k) =~= s.take(k));
        assert(s.skip(k) =~= s.drop_last().skip(k).push(s.last()));
        lemma_seq_sum_push(s.drop_last().skip(k), s.last());
    }
}

proof fn lemma_seq_sum_nonneg(s: Seq<u64>)
    ensures
        seq_sum(s) >= 0,
    decreases s.len(),
{
    if s.len() > 0 {
        lemma_seq_sum_nonneg(s.drop_last());
    }
}

/// The sum of `array[from..to]`.
pub open spec fn range_sum(array: Seq<u64>, from: int, to: int) -> int {
    seq_sum(array.subrange(from, to))
}

proof fn lemma_range_sum_le(array: Seq<u64>, from: int, mid: int, to: int)
    requires
        0 <= from <= mid <= to <= array.len(),
    ensures
        range_sum(array, from, to) == range_sum(array, from, mid) + range_sum(array, mid, to),
        range_sum(array, from, mid) >= 0,
        range_sum(array, mid, to) >= 0,
{
    let s = array.subrange(from, to);
    lemma_seq_sum_split(s, mid - from);
    assert(s.take(mid - from) =~= array.subrange(from, mid));
    assert(s.skip(mid - from) =~= array.subrange(mid, to));
}

/// Adds up `array[from..to]`.
pub fn sum_range(array: &[u64], from: usize, to: usize) -> (r: u64)
    requires
        from <= to <= array@.len(),
        range_sum(array@, from as int, to as int) <= u64::MAX,
    ensures
        r == range_sum(array@, from as int, to as int),
{
    let mut sum: u64 = 0;
    let mut i = from;
    proof {
        assert(array@.subrange(from as int, from as int) =~= Seq::<u64>::empty());
    }
    while i < to
        invariant
            from <= i <= to <= array@.len(),
            range_sum(array@, from as int, to as int) <= u64::MAX,
            sum == range_sum(array@, from as int, i as int),
        decreases to - i,
    {
        proof {
            lemma_range_sum_le(array@, from as int, i as int + 1, to as int);
            assert(array@.subrange(from as int, i + 1) =~= array@.subrange(from as int, i as int).push(array@[i as int]));
            lemma_seq_sum_push(array@.subrange(from as int, i as int), array@[i as int]);
        }
        sum = sum + array[i];
        i = i + 1;
    }
    sum
}

/// The sequential reference of the array sum: adds up all elements.
pub fn reference_sequential_single(array: &[u64]) -> (r: u64)
    requires
        seq_sum(array@) <= u64::MAX,
    ensures
        r == seq_sum(array@),
{
    proof {
        assert(array@.subrange(0, array@.len() as int) =~= array@);
    }
    sum_range(array, 0, array.len())
}

/// Sums the slice with rayon's parallel iterator (`into_par_iter().sum()`).
/// Claimed: the result is the sum of the elements when that sum fits in a
/// `u64` (rayon adds the elements in an unspecified grouping, and every
/// partial sum of non-negative values is at most the total).
#[verifier::external_body]
fn par_sum(array: &[u64]) -> (r: u64)
    requires
        seq_sum(array@) <= u64::MAX,
    ensures
        r == seq_sum(array@),
{
    array.into_par_iter().sum()
}

/// The rayon reference of the array sum.
pub fn reference_parallel(array: &[u64]) -> (r: u64)
    requires
        seq_sum(array@) <= u64::MAX,
    ensures
        r == seq_sum(array@),
{
    par_sum(array)
}

/// The number of chunks of the array sum: the array in blocks of
/// `ARRAY_BLOCK_SIZE`, as a `u32`.
pub fn array_chunk_count(len: usize) -> (r: u32)
    requires
        len + ARRAY_BLOCK_SIZE <= usize::MAX,
    ensures
        r == (((len + ARRAY_BLOCK_SIZE - 1) / ARRAY_BLOCK_SIZE as int) as u32),
{
    ((len + ARRAY_BLOCK_SIZE - 1) / ARRAY_BLOCK_SIZE) as u32
}

/// The elements of chunk `block_index` of the array sum:
/// `array[block_index * ARRAY_BLOCK_SIZE..]`, at most `ARRAY_BLOCK_SIZE`
/// of them.
pub open spec fn block_bounds(len: int, block_index: int) -> (int, int) {
    let from = block_index * ARRAY_BLOCK_SIZE;
    let to = from + ARRAY_BLOCK_SIZE;
    (from, if to < len { to } else { len })
}

/// The sum of the elements of chunk `block_index` (nothing when the chunk
/// lies past the end).
pub open spec fn block_sum_spec(array: Seq<u64>, block_index: int) -> int {
    let (from, to) = block_bounds(array.len() as int, block_index);
    if from < to { range_sum(array, from, to) } else { 0 }
}

/// Adds up chunk `block_index` of the array.
pub fn block_sum(array: &[u64], block_index: u32) -> (r: u64)
    requires
        (block_index + 1) * ARRAY_BLOCK_SIZE <= usize::MAX,
        block_sum_spec(array@, block_index as int) <= u64::MAX,
    ensures
        r == block_sum_spec(array@, block_index as int),
{
    let from = block_index as usize * ARRAY_BLOCK_SIZE;
    let to = from + ARRAY_BLOCK_SIZE;
    let end = if to < array.len() { to } else { array.len() };
    if from < end {
        sum_range(array, from, end)
    } else {
        0
    }
}


/// The sum of the chunks `chunks` of the array.
pub open spec fn chunks_total(array: Seq<u64>, chunks: Seq<u32>) -> int
    decreases chunks.len(),
{
    if chunks.len() == 0 {
        0
    } else {
        chunks_total(array, chunks.drop_last()) + block_sum_spec(array, chunks.last() as int)
    }
}

proof fn lemma_block_sum_nonneg(array: Seq<u64>, b: int)
    ensures
        block_sum_spec(array, b) >= 0,
{
    let (from, to) = block_bounds(array.len() as int, b);
    if from < to {
        lemma_seq_sum_nonneg(array.subrange(from, to));
    }
}

proof fn lemma_chunks_total_prefix(array: Seq<u64>, chunks: Seq<u32>, k: int)
    requires
        0 <= k <= chunks.len(),
    ensures
        0 <= chunks_total(array, chunks.take(k)) <= chunks_total(array, chunks),
    decreases chunks.len(),
{
    if k == chunks.len() {
        assert(chunks.take(k) =~= chunks);
        lemma_chunks_total_nonneg(array, chunks);
    } else {
        lemma_chunks_total_prefix(array, chunks.drop_last(), k);
        assert(chunks.drop_last().take(k) =~= chunks.take(k));
        lemma_block_sum_nonneg(array, chunks.last() as int);
    }
}

proof fn lemma_chunks_total_nonneg(array: Seq<u64>, chunks: Seq<u32>)
    ensures
        chunks_total(array, chunks) >= 0,
    decreases chunks.len(),
{
    if chunks.len() > 0 {
        lemma_chunks_total_nonneg(array, chunks.drop_last());
        lemma_block_sum_nonneg(array, chunks.last() as int);
    }
}

/// A worker's part of the array sum: the sum of the chunks it was handed.
pub fn work(array: &[u64], chunks: &Vec<u32>) -> (r: u64)
    requires
        forall|k: int| 0 <= k < chunks.len() ==> (#[trigger] chunks[k] + 1) * ARRAY_BLOCK_SIZE <= usize::MAX,
        chunks_total(array@, chunks@) <= u64::MAX,
    ensures
        r == chunks_total(array@, chunks@),
{
    let mut local_count: u64 = 0;
    for k in 0..chunks.len()
        invariant
            forall|j: int| 0 <= j < chunks.len() ==> (#[trigger] chunks[j] + 1) * ARRAY_BLOCK_SIZE <= usize::MAX,
            chunks_total(array@, chunks@) <= u64::MAX,
            local_count == chunks_total(array@, chunks@.take(k as int)),
    {
        proof {
            assert(chunks@.take(k + 1).drop_last() =~= chunks@.take(k as int));
            lemma_chunks_total_prefix(array@, chunks@, k + 1);
            lemma_block_sum_nonneg(array@, chunks[k as int] as int);
        }
        let b = block_sum(array, chunks[k]);
        local_count = local_count + b;
    }
    proof {
        assert(chunks@.take(chunks.len() as int) =~= chunks@);
    }
    local_count
}

proof fn lemma_upto_total(array: Seq<u64>, n: int)
    requires
        0 <= n,
        n <= u32::MAX + 1,
    ensures
        chunks_total(array, chunks_upto(n)) == range_sum(array, 0,
            if n * ARRAY_BLOCK_SIZE < array.len() { n * ARRAY_BLOCK_SIZE } else { array.len() as int }),
    decreases n,
{
    if n == 0 {
        assert(array.subrange(0, 0) =~= Seq::<u64>::empty());
        assert(chunks_upto(0) =~= Seq::<u32>::empty());
    } else {
        lemma_upto_total(array, n - 1);
        assert(chunks_upto(n).drop_last() =~= chunks_upto(n - 1));
        assert(chunks_upto(n).last() == n - 1);
        let len = array.len() as int;
        let prev = if (n - 1) * ARRAY_BLOCK_SIZE < len { (n - 1) * ARRAY_BLOCK_SIZE } else { len };
        let next = if n * ARRAY_BLOCK_SIZE < len { n * ARRAY_BLOCK_SIZE } else { len };
        assert(n * ARRAY_BLOCK_SIZE == (n - 1) * ARRAY_BLOCK_SIZE + ARRAY_BLOCK_SIZE);
        lemma_range_sum_le(array, 0, prev, next);
        if prev == next {
            assert(array.subrange(prev, next) =~= Seq::<u64>::empty());
        }
    }
}

/// The chunks `0..n` of the array sum, with `n` the chunk count of the
/// array, add up to the sum of the whole array: one worker that is handed
/// every chunk once computes the sequential sum.
pub proof fn lemma_all_chunks_sum(array: Seq<u64>, n: int)
    requires
        n == (array.len() + ARRAY_BLOCK_SIZE - 1) / ARRAY_BLOCK_SIZE as int,
        n <= u32::MAX,
    ensures
        chunks_total(array, chunks_upto(n)) == seq_sum(array),
{
    assert(n * ARRAY_BLOCK_SIZE >= array.len()) by (nonlinear_arith)
        requires n == (array.len() + ARRAY_BLOCK_SIZE - 1) / ARRAY_BLOCK_SIZE as int, ARRAY_BLOCK_SIZE == 2048;
    lemma_upto_total(array, n);
    assert(array.subrange(0, array.len() as int) =~= array);
}


/// Where the part of thread `t` of `thread_count` starts in the static split
/// of `len` elements.
pub open spec fn static_start(len: int, t: int, thread_count: int) -> int {
    t * len / thread_count
}

/// The part `start..end` of `0..len` that thread `thread_index` handles when
/// the work is split statically over `thread_count` threads.
pub fn static_range(len: usize, thread_index: usize, thread_count: usize) -> (r: (usize, usize))
    requires
        thread_index < thread_count,
        (thread_index + 1) * len <= usize::MAX,
    ensures
        r.0 == static_start(len as int, thread_index as int, thread_count as int),
        r.1 == static_start(len as int, thread_index + 1, thread_count as int),
        r.0 <= r.1 <= len,
{
    proof {
        assert(thread_index * len <= (thread_index + 1) * len) by (nonlinear_arith);
        lemma_static_start_monotone(len as int, thread_index as int, thread_count as int);
        lemma_static_start_bounded(len as int, thread_index + 1, thread_count as int);
    }
    let start = thread_index * len / thread_count;
    let end = (thread_index + 1) * len / thread_count;
    (start, end)
}

proof fn lemma_static_start_monotone(len: int, t: int, thread_count: int)
    requires
        0 <= t,
        0 <= len,
        0 < thread_count,
    ensures
        static_start(len, t, thread_count) <= static_start(len, t + 1, thread_count),
        0 <= static_start(len, t, thread_count),
{
    assert(t * len <= (t + 1) * len) by (nonlinear_arith)
        requires 0 <= len;
    assert(0 <= t * len) by (nonlinear_arith)
        requires 0 <= len, 0 <= t;
    vstd::arithmetic::div_mod::lemma_div_is_ordered(t * len, (t + 1) * len, thread_count);
    vstd::arithmetic::div_mod::lemma_div_pos_is_pos(t * len, thread_count);
}

proof fn lemma_static_start_bounded(len: int, t: int, thread_count: int)
    requires
        0 <= t <= thread_count,
        0 <= len,
        0 < thread_count,
    ensures
        static_start(len, t, thread_count) <= len,
        static_start(len, thread_count, thread_count) == len,
{
    assert(t * len <= thread_count * len) by (nonlinear_arith)
        requires 0 <= len, t <= thread_count;
    vstd::arithmetic::div_mod::lemma_div_is_ordered(t * len, thread_count * len, thread_count);
    vstd::arithmetic::div_mod::lemma_div_by_multiple(len, thread_count);
    assert(thread_count * len == len * thread_count) by (nonlinear_arith);
}

/// The parts of a static split cover the array: their sums add up to the
/// sum of the whole array.
pub proof fn lemma_static_split_sum(array: Seq<u64>, thread_count: int, k: int)
    requires
        0 < thread_count,
        0 <= k <= thread_count,
    ensures
        static_parts_total(array, thread_count, k) == range_sum(array, 0, static_start(array.len() as int, k, thread_count)),
        k == thread_count ==> static_parts_total(array, thread_count, k) == seq_sum(array),
    decreases k,
{
    let len = array.len() as int;
    lemma_static_start_bounded(len, k, thread_count);
    if k == 0 {
        assert(0 * len == 0);
        vstd::arithmetic::div_mod::lemma_div_of0(thread_count);
        assert(static_start(len, 0, thread_count) == 0);
        assert(array.subrange(0, 0) =~= Seq::<u64>::empty());
    } else {
        lemma_static_split_sum(array, thread_count, k - 1);
        lemma_static_start_monotone(len, k - 1, thread_count);
        lemma_static_start_bounded(len, k - 1, thread_count);
        lemma_range_sum_le(array, 0, static_start(len, k - 1, thread_count), static_start(len, k, thread_count));
    }
    if k == thread_count {
        assert(array.subrange(0, len) =~= array);
    }
}

/// The sum of the parts of threads `0..k` in the static split.
pub open spec fn static_parts_total(array: Seq<u64>, thread_count: int, k: int) -> int
    decreases k,
{
    if k <= 0 {
        0
    } else {
        static_parts_total(array, thread_count, k - 1) + range_sum(
            array,
            static_start(array.len() as int, k - 1, thread_count),
            static_start(array.len() as int, k, thread_count),
        )
    }
}

/// The number of chunks of a sum over `length` consecutive arguments in
/// blocks of `block_size`, as a `u32`.
pub fn chunk_count(length: u64, block_size: u64) -> (r: u32)
    requires
        block_size > 0,
        length + block_size <= u64::MAX,
    ensures
        r == (((length + block_size - 1) / block_size as int) as u32),
{
    ((length + block_size - 1) / block_size) as u32
}

/// The arguments `from..to` that chunk `chunk_index` of a sum over
/// `first..first + length` covers, in blocks of `block_size`.
pub fn chunk_range(first: u64, length: u64, block_size: u64, chunk_index: u32) -> (r: (u64, u64))
    requires
        first + length <= u64::MAX,
        first + (chunk_index + 1) * block_size <= u64::MAX,
    ensures
        r.0 == first + chunk_index * block_size,
        r.1 == (if first + (chunk_index + 1) * block_size < first + length {
            first + (chunk_index + 1) * block_size
        } else {
            first + length
        }),
{
    proof {
        assert(chunk_index * block_size <= (chunk_index + 1) * block_size) by (nonlinear_arith);
        assert((chunk_index + 1) * block_size == chunk_index * block_size + block_size) by (nonlinear_arith);
    }
    let from = first + chunk_index as u64 * block_size;
    let to = from + block_size;
    let limit = first + length;
    (from, if to < limit { to } else { limit })
}

} // verus!
