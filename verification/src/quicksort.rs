pub mod chunk;
pub mod our;
pub mod task_parallel;

use vstd::prelude::*;
use crate::multisets::{permutes, all_below, all_at_least, lemma_swap_permutes, lemma_permutes_bounds};
use vstd::seq_lib::lemma_multiset_commutative;

verus! {

/// Number of elements handled by one chunk of the data-parallel partition.
pub const BLOCK_SIZE: usize = 4096;

/// Arrays at least this long are partitioned with data parallelism.
pub const DATAPAR_CUTOFF: usize = 32768;

/// Arrays shorter than this are sorted sequentially.
pub const SEQUENTIAL_CUTOFF: usize = 8192;

/// The offset that `random` adds to its seed before mixing.
pub const RANDOM_OFFSET: u64 = 876998787696;

/// The value that `random` returns for `seed`: an xorshift mix of
/// `seed + RANDOM_OFFSET`, truncated to its low 32 bits.
pub open spec fn random_spec(seed: u64) -> u32 {
    let s0: u64 = (seed + RANDOM_OFFSET) as u64;
    let s1: u64 = s0.wrapping_mul(35334534876231u64);
    let s2: u64 = s1 ^ (s1 << 19u64);
    let s3: u64 = s2 ^ (s2 >> 23u64);
    let s4: u64 = s3 ^ (s3 << 13u64);
    let s5: u64 = s4 ^ (s4 >> 17u64);
    let s6: u64 = s5 ^ (s5 << 5u64);
    (s6 & 0xFFFF_FFFFu64) as u32
}

/// Pseudo-random value used to fill the arrays that are sorted.
pub fn random(seed: u64) -> (r: u32)
    requires
        seed + RANDOM_OFFSET <= u64::MAX,
    ensures
        r == random_spec(seed),
{
    let mut seed = seed + RANDOM_OFFSET;
    seed = seed.wrapping_mul(35334534876231);
    seed ^= seed << 19u64;
    seed ^= seed >> 23u64;
    seed ^= seed << 13u64;
    seed ^= seed >> 17u64;
    seed ^= seed << 5u64;
    (seed & 0xFFFF_FFFF) as u32
}

/// The number of recursive sort tasks that a partition with the pivot at
/// index `pivot` of an array of length `len` needs: one for the left part
/// when it holds at least two elements, one for the right part when it holds
/// at least two elements.
pub fn count_recursive_calls(len: usize, pivot: usize) -> (count: usize)
    requires
        pivot <= len,
    ensures
        count == (if pivot > 1 { 1int } else { 0int }) + (if len - pivot > 2 { 1int } else { 0int }),
{
    let mut count: usize = 0;
    if pivot > 1 {
        count += 1;
    }
    if len - pivot > 2 {
        count += 1;
    }
    count
}


/// The array segment `a[lo..hi]` after a partition around `pivot` with the
/// pivot at index `p`: everything before it is smaller, everything after it
/// is at least as large.
pub open spec fn partitioned_at(a: Seq<u32>, lo: int, p: int, hi: int, pivot: u32) -> bool {
    &&& lo <= p < hi
    &&& a[p] == pivot
    &&& forall|k: int| lo <= k < p ==> #[trigger] a[k] < pivot
    &&& forall|k: int| p < k < hi ==> #[trigger] a[k] >= pivot
}

/// `b` equals `a` outside the segment `lo..hi`, and holds the same elements
/// as `a` inside it.
pub open spec fn permuted_within(a: Seq<u32>, b: Seq<u32>, lo: int, hi: int) -> bool {
    &&& a.len() == b.len()
    &&& 0 <= lo <= hi <= a.len()
    &&& forall|k: int| 0 <= k < a.len() && !(lo <= k < hi) ==> #[trigger] b[k] == a[k]
    &&& permutes(b.subrange(lo, hi), a.subrange(lo, hi))
}

proof fn lemma_swap_within(a: Seq<u32>, lo: int, hi: int, i: int, j: int)
    requires
        0 <= lo <= i < hi <= a.len(),
        lo <= j < hi,
    ensures
        permuted_within(a, a.update(i, a[j]).update(j, a[i]), lo, hi),
{
    let b = a.update(i, a[j]).update(j, a[i]);
    let sa = a.subrange(lo, hi);
    assert(b.subrange(lo, hi) =~= sa.update(i - lo, sa[j - lo]).update(j - lo, sa[i - lo]));
    lemma_swap_permutes(sa, i - lo, j - lo);
}

pub(crate) proof fn lemma_permuted_within_trans(a: Seq<u32>, b: Seq<u32>, c: Seq<u32>, lo: int, hi: int)
    requires
        permuted_within(a, b, lo, hi),
        permuted_within(b, c, lo, hi),
    ensures
        permuted_within(a, c, lo, hi),
{
}

/// Partitions `array[lo..hi]` in place around its first element and returns
/// the index where that pivot ends up; the rest of the array is untouched.
pub fn partition_range(array: &mut Vec<u32>, lo: usize, hi: usize) -> (p: usize)
    requires
        lo < hi <= old(array).len(),
        hi - lo > 1,
    ensures
        partitioned_at(final(array)@, lo as int, p as int, hi as int, old(array)@[lo as int]),
        permuted_within(old(array)@, final(array)@, lo as int, hi as int),
{
    let ghost a0 = array@;
    let pivot = array[lo];
    let mut left: usize = lo + 1;
    let mut right: usize = hi - 1;
    proof {
        assert(array@.subrange(lo as int, hi as int) =~= a0.subrange(lo as int, hi as int));
    }
    loop
        invariant
            lo + 1 <= left <= right + 1,
            lo <= right < hi,
            hi <= array.len(),
            array[lo as int] == pivot,
            pivot == a0[lo as int],
            forall|k: int| lo + 1 <= k < left ==> #[trigger] array[k] < pivot,
            forall|k: int| right < k < hi ==> #[trigger] array[k] >= pivot,
            permuted_within(a0, array@, lo as int, hi as int),
        ensures
            left == right + 1,
        decreases right + 1 - left,
    {
        while left < hi && array[left] < pivot
            invariant
                lo + 1 <= left <= right + 1,
                lo <= right < hi,
                hi <= array.len(),
                forall|k: int| lo + 1 <= k < left ==> #[trigger] array[k] < pivot,
                forall|k: int| right < k < hi ==> #[trigger] array[k] >= pivot,
            decreases hi - left,
        {
            left += 1;
        }
        while right > lo && array[right] >= pivot
            invariant
                lo + 1 <= left,
                left <= hi,
                lo <= right < hi,
                left <= right + 1,
                hi <= array.len(),
                forall|k: int| lo + 1 <= k < left ==> #[trigger] array[k] < pivot,
                forall|k: int| right < k < hi ==> #[trigger] array[k] >= pivot,
            decreases right,
        {
            right -= 1;
        }
        if left >= right {
            break;
        }
        let left_value = array[left];
        let right_value = array[right];
        proof {
            lemma_swap_within(array@, lo as int, hi as int, left as int, right as int);
            lemma_permuted_within_trans(
                a0,
                array@,
                array@.update(left as int, right_value).update(right as int, left_value),
                lo as int,
                hi as int,
            );
        }
        array.set(left, right_value);
        array.set(right, left_value);
        left += 1;
        right -= 1;
    }
    // The pivot goes between the two parts.
    let ghost a1 = array@;
    let moved = array[right];
    array.set(lo, moved);
    array.set(right, pivot);
    proof {
        assert(array@ == a1.update(lo as int, a1[right as int]).update(right as int, a1[lo as int]));
        lemma_swap_within(a1, lo as int, hi as int, lo as int, right as int);
        lemma_permuted_within_trans(a0, a1, array@, lo as int, hi as int);
    }
    right
}


/// The sequence is in non-decreasing order.
pub open spec fn sorted(s: Seq<u32>) -> bool {
    forall|i: int, j: int| 0 <= i <= j < s.len() ==> s[i] <= s[j]
}

pub(crate) proof fn lemma_permuted_within_widen(a: Seq<u32>, b: Seq<u32>, lo: int, mlo: int, mhi: int, hi: int)
    requires
        permuted_within(a, b, mlo, mhi),
        0 <= lo <= mlo <= mhi <= hi <= a.len(),
    ensures
        permuted_within(a, b, lo, hi),
{
    assert(a.subrange(lo, hi) =~= a.subrange(lo, mlo) + a.subrange(mlo, mhi) + a.subrange(mhi, hi));
    assert(b.subrange(lo, hi) =~= b.subrange(lo, mlo) + b.subrange(mlo, mhi) + b.subrange(mhi, hi));
    assert(a.subrange(lo, mlo) =~= b.subrange(lo, mlo));
    assert(a.subrange(mhi, hi) =~= b.subrange(mhi, hi));
    lemma_multiset_commutative(a.subrange(lo, mlo) + a.subrange(mlo, mhi), a.subrange(mhi, hi));
    lemma_multiset_commutative(a.subrange(lo, mlo), a.subrange(mlo, mhi));
    lemma_multiset_commutative(b.subrange(lo, mlo) + b.subrange(mlo, mhi), b.subrange(mhi, hi));
    lemma_multiset_commutative(b.subrange(lo, mlo), b.subrange(mlo, mhi));
}

/// Sorts `array[lo..hi]` by recursive partitioning; the rest of the array is
/// untouched.
pub fn sort_range(array: &mut Vec<u32>, lo: usize, hi: usize)
    requires
        lo <= hi <= old(array).len(),
    ensures
        sorted(final(array)@.subrange(lo as int, hi as int)),
        permuted_within(old(array)@, final(array)@, lo as int, hi as int),
    decreases hi - lo,
{
    let ghost a0 = array@;
    if hi - lo <= 1 {
        proof {
            assert(array@.subrange(lo as int, hi as int) =~= a0.subrange(lo as int, hi as int));
        }
        return;
    }
    let p = partition_range(array, lo, hi);
    let ghost a1 = array@;
    let ghost pivot = a0[lo as int];
    sort_range(array, lo, p);
    let ghost a2 = array@;
    sort_range(array, p + 1, hi);
    let ghost a3 = array@;
    proof {
        lemma_permuted_within_widen(a1, a2, lo as int, lo as int, p as int, hi as int);
        lemma_permuted_within_widen(a2, a3, lo as int, p as int + 1, hi as int, hi as int);
        lemma_permuted_within_trans(a0, a1, a2, lo as int, hi as int);
        lemma_permuted_within_trans(a0, a2, a3, lo as int, hi as int);
        // The left part still holds only elements below the pivot.
        assert(all_below(a1.subrange(lo as int, p as int), pivot));
        lemma_permutes_bounds(a2.subrange(lo as int, p as int), a1.subrange(lo as int, p as int), pivot);
        assert(a3.subrange(lo as int, p as int) =~= a2.subrange(lo as int, p as int));
        // The right part still holds only elements at least the pivot.
        assert(a2.subrange(p as int + 1, hi as int) =~= a1.subrange(p as int + 1, hi as int));
        assert(all_at_least(a1.subrange(p as int + 1, hi as int), pivot));
        lemma_permutes_bounds(a3.subrange(p as int + 1, hi as int), a2.subrange(p as int + 1, hi as int), pivot);
        let s = a3.subrange(lo as int, hi as int);
        assert forall|i: int, j: int| 0 <= i <= j < s.len() implies s[i] <= s[j] by {
            let l = a3.subrange(lo as int, p as int);
            let r = a3.subrange(p as int + 1, hi as int);
            let pi = p - lo;
            if j < pi {
                assert(s[i] == l[i] && s[j] == l[j]);
            } else if i > pi {
                assert(s[i] == r[i - pi - 1] && s[j] == r[j - pi - 1]);
            } else {
                if i < pi {
                    assert(s[i] == l[i]);
                    assert(l[i] < pivot);
                }
                if j > pi {
                    assert(s[j] == r[j - pi - 1]);
                    assert(r[j - pi - 1] >= pivot);
                }
                assert(s[pi] == pivot);
            }
        }
    }
}

/// Sorts the whole array.
pub fn sort(array: &mut Vec<u32>)
    ensures
        sorted(final(array)@),
        permutes(final(array)@, old(array)@),
        final(array).len() == old(array).len(),
{
    let n = array.len();
    sort_range(array, 0, n);
    proof {
        assert(array@.subrange(0, n as int) =~= array@);
        assert(old(array)@.subrange(0, n as int) =~= old(array)@);
    }
}


/// The checksum that the benchmark reads off a sorted array: five elements
/// at fixed positions, added up.
pub open spec fn output_spec(a: Seq<u32>) -> u64 {
    (a[0] as int + a[478] as int + a[a.len() as int / 2] as int + a[a.len() - 324] as int
        + a[a.len() - 1] as int) as u64
}

/// Checksum of a sorted array (see `output_spec`).
pub fn output(array: &Vec<u32>) -> (r: u64)
    requires
        array.len() > 478,
    ensures
        r == output_spec(array@),
{
    let n = array.len();
    array[0] as u64 + array[478] as u64 + array[n / 2] as u64 + array[n - 324] as u64
        + array[n - 1] as u64
}

/// The array of length `n` whose element `i` is `random(i)`.
pub open spec fn random_array(n: nat) -> Seq<u32> {
    Seq::new(n, |i: int| random_spec(i as u64))
}

/// Fills `array` with `random(i)` at every index `i`.
pub fn fill_random(array: &mut Vec<u32>)
    requires
        old(array).len() + RANDOM_OFFSET <= u64::MAX,
    ensures
        final(array)@ == random_array(old(array).len() as nat),
{
    let n = array.len();
    for i in 0..n
        invariant
            n == array.len(),
            n + RANDOM_OFFSET <= u64::MAX,
            forall|k: int| 0 <= k < i ==> #[trigger] array[k] == random_spec(k as u64),
    {
        let r = random(i as u64);
        array.set(i, r);
    }
    proof {
        assert(array@ =~= random_array(n as nat));
    }
}

/// The sequential reference: fills the array with pseudo-random values,
/// sorts it and returns its checksum.
pub fn reference_sequential_single(array: &mut Vec<u32>) -> (r: u64)
    requires
        old(array).len() > 478,
        old(array).len() + RANDOM_OFFSET <= u64::MAX,
    ensures
        final(array).len() == old(array).len(),
        permutes(final(array)@, random_array(old(array).len() as nat)),
        sorted(final(array)@),
        r == output_spec(final(array)@),
{
    fill_random(array);
    sort(array);
    output(array)
}

/// How the pending-task counter of a sort changes when a task that owned
/// one pending slot ends and starts `calls` recursive tasks: the counter
/// after the update, and whether it has reached zero so that the workers
/// must be told to finish.
pub fn pending_after(pending: u64, calls: usize) -> (r: (u64, bool))
    requires
        calls <= 2,
        calls == 2 ==> pending < u64::MAX,
        pending >= 1,
    ensures
        r.0 == pending + calls - 1,
        r.1 == (r.0 == 0),
{
    if calls == 2 {
        (pending + 1, false)
    } else if calls == 0 {
        let before = pending;
        (pending - 1, before == 1)
    } else {
        (pending, false)
    }
}


/// The kind of task that sorts a segment.
#[derive(PartialEq, Eq, Copy, Clone, Debug)]
pub enum SortTask {
    /// Nothing to do.
    Nothing,
    /// A single element, copied from the input to the output.
    CopyOne,
    /// Sorted sequentially; with `copy`, after copying the input to the
    /// output.
    Sequential { copy: bool },
    /// Sorted in place: sequential partitions, the parts in parallel.
    TaskParallel,
    /// The same, after copying the input to the output.
    TaskParallelWithCopy,
    /// Partitioned with data parallelism, in `chunks` chunks.
    DataParallel { chunks: u32 },
}

} // verus!
