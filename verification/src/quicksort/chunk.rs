use vstd::prelude::*;
use vstd::multiset::Multiset;
use vstd::seq_lib::lemma_multiset_commutative;
use crate::multisets::{permutes, all_below, all_at_least, lemma_permutes_bounds};

verus! {

broadcast use vstd::seq_lib::group_to_multiset_ensures;

/// The elements of `s` below `pivot`, in order.
pub open spec fn below(s: Seq<u32>, pivot: u32) -> Seq<u32>
    decreases s.len(),
{
    if s.len() == 0 {
        Seq::empty()
    } else if s.last() < pivot {
        below(s.drop_last(), pivot).push(s.last())
    } else {
        below(s.drop_last(), pivot)
    }
}

/// The elements of `s` at least `pivot`, in order.
pub open spec fn at_least(s: Seq<u32>, pivot: u32) -> Seq<u32>
    decreases s.len(),
{
    if s.len() == 0 {
        Seq::empty()
    } else if s.last() >= pivot {
        at_least(s.drop_last(), pivot).push(s.last())
    } else {
        at_least(s.drop_last(), pivot)
    }
}

/// The first element of chunk `chunk_index` of an array whose element 0 is
/// the pivot, with chunks of `chunk_len` elements.
pub open spec fn chunk_start(chunk_index: int, chunk_len: int) -> int {
    1 + chunk_index * chunk_len
}

/// The number of elements of that chunk: `chunk_len`, or what is left of the
/// array for the last chunk.
pub open spec fn chunk_length(len: int, chunk_index: int, chunk_len: int) -> int {
    let start = chunk_start(chunk_index, chunk_len);
    if start + chunk_len <= len { chunk_len } else { len - start }
}

/// The elements of that chunk.
pub open spec fn chunk_of(input: Seq<u32>, chunk_index: int, chunk_len: int) -> Seq<u32> {
    let start = chunk_start(chunk_index, chunk_len);
    input.subrange(start, start + chunk_length(input.len() as int, chunk_index, chunk_len))
}

proof fn lemma_split_lengths(s: Seq<u32>, pivot: u32)
    ensures
        below(s, pivot).len() + at_least(s, pivot).len() == s.len(),
        all_below(below(s, pivot), pivot),
        all_at_least(at_least(s, pivot), pivot),
        below(s, pivot).to_multiset().add(at_least(s, pivot).to_multiset()) == s.to_multiset(),
    decreases s.len(),
{
    broadcast use vstd::multiset::group_multiset_axioms;
    if s.len() > 0 {
        lemma_split_lengths(s.drop_last(), pivot);
        assert(s =~= s.drop_last().push(s.last()));
        assert(s.to_multiset() =~= s.drop_last().to_multiset().insert(s.last()));
        let b = below(s.drop_last(), pivot);
        let a = at_least(s.drop_last(), pivot);
        if s.last() < pivot {
            assert(below(s, pivot).to_multiset() =~= b.to_multiset().insert(s.last()));
            assert(b.to_multiset().insert(s.last()).add(a.to_multiset())
                =~= b.to_multiset().add(a.to_multiset()).insert(s.last()));
        } else {
            assert(at_least(s, pivot).to_multiset() =~= a.to_multiset().insert(s.last()));
            assert(b.to_multiset().add(a.to_multiset().insert(s.last()))
                =~= b.to_multiset().add(a.to_multiset()).insert(s.last()));
        }
    } else {
        assert(s.to_multiset() =~= vstd::multiset::Multiset::empty());
    }
}

/// Where chunk `chunk_index` starts and how many elements it holds, for an
/// array of `len` elements whose element 0 is the pivot.
pub fn chunk_bounds(len: usize, chunk_index: usize, chunk_len: usize) -> (r: (usize, usize))
    requires
        chunk_start(chunk_index as int, chunk_len as int) <= len,
    ensures
        r.0 == chunk_start(chunk_index as int, chunk_len as int),
        r.1 == chunk_length(len as int, chunk_index as int, chunk_len as int),
{
    proof {
        assert(chunk_index * chunk_len <= len) by (nonlinear_arith)
            requires 1 + chunk_index * chunk_len <= len;
    }
    let start = 1 + chunk_index * chunk_len;
    let length = if chunk_len <= len - start { chunk_len } else { len - start };
    (start, length)
}

/// Partitions one chunk locally: the elements below the pivot in order,
/// then the others in reverse order. Returns the partitioned chunk and the
/// number of elements below the pivot.
pub fn partition_chunk(input: &Vec<u32>, pivot: u32, chunk_index: usize, chunk_len: usize) -> (r: (Vec<u32>, u64))
    requires
        chunk_start(chunk_index as int, chunk_len as int) <= input.len(),
    ensures
        r.0@ == below(chunk_of(input@, chunk_index as int, chunk_len as int), pivot)
            + at_least(chunk_of(input@, chunk_index as int, chunk_len as int), pivot).reverse(),
        r.1 == below(chunk_of(input@, chunk_index as int, chunk_len as int), pivot).len(),
{
    proof {
        assert(chunk_index * chunk_len <= input.len()) by (nonlinear_arith)
            requires 1 + chunk_index * chunk_len <= input.len();
    }
    let start = 1 + chunk_index * chunk_len;
    let end: usize = if chunk_len <= input.len() - start { chunk_len } else { input.len() - start };
    let ghost seg = chunk_of(input@, chunk_index as int, chunk_len as int);
    assert(seg =~= input@.subrange(start as int, start + end));
    let mut values: Vec<u32> = Vec::new();
    for k in 0..end
        invariant
            values.len() == k,
    {
        values.push(0);
    }
    let mut left_count: u64 = 0;
    for i in 0..end
        invariant
            start + end <= input.len(),
            seg == input@.subrange(start as int, start + end),
            values.len() == end,
            left_count == below(seg.take(i as int), pivot).len(),
            left_count + at_least(seg.take(i as int), pivot).len() == i,
            values@.subrange(0, left_count as int) == below(seg.take(i as int), pivot),
            values@.subrange(end - (i - left_count), end as int) == at_least(seg.take(i as int), pivot).reverse(),
    {
        proof {
            lemma_split_lengths(seg.take(i as int), pivot);
            assert(seg.take(i as int + 1) =~= seg.take(i as int).push(seg[i as int]));
            assert(seg.take(i as int + 1).drop_last() =~= seg.take(i as int));
        }
        let value = input[start + i];
        if value < pivot {
            let ghost old_values = values@;
            values.set(left_count as usize, value);
            proof {
                assert(values@.subrange(0, left_count + 1) =~= old_values.subrange(0, left_count as int).push(value));
                assert(values@.subrange(end - (i - left_count), end as int)
                    =~= old_values.subrange(end - (i - left_count), end as int));
            }
            left_count += 1;
        } else {
            let ghost old_values = values@;
            let ghost a = at_least(seg.take(i as int), pivot);
            let position = end - (i - left_count as usize) - 1;
            values.set(position, value);
            proof {
                assert(values@.subrange(0, left_count as int) =~= old_values.subrange(0, left_count as int));
                assert(a.push(value).reverse() =~= seq![value] + a.reverse());
                assert(values@.subrange(position as int, end as int)
                    =~= seq![value] + old_values.subrange(position + 1, end as int));
            }
        }
    }
    proof {
        assert(seg.take(end as int) =~= seg);
        lemma_split_lengths(seg, pivot);
        assert(values@ =~= values@.subrange(0, left_count as int) + values@.subrange(left_count as int, end as int));
    }
    (values, left_count)
}


/// The shared counter of a data-parallel partition holds two counts: the
/// elements placed on the left in its low 32 bits, the elements placed on
/// the right in its high 32 bits.
pub open spec fn packed(left: int, right: int) -> int {
    right * 0x1_0000_0000 + left
}

/// The counter increment for a chunk with `left` elements below the pivot
/// and `right` others.
pub fn pack_counts(left: u64, right: u64) -> (r: u64)
    requires
        left < 0x1_0000_0000,
        right < 0x1_0000_0000,
    ensures
        r == packed(left as int, right as int),
{
    assert((right << 32u64) | left == right * 0x1_0000_0000 + left) by (bit_vector)
        requires left < 0x1_0000_0000u64, right < 0x1_0000_0000u64;
    (right << 32u64) | left
}

/// The left count held by a counter value.
pub fn left_of(counters: u64) -> (r: u64)
    ensures
        r == counters % 0x1_0000_0000,
{
    assert(counters & 0xFFFF_FFFFu64 == counters % 0x1_0000_0000) by (bit_vector);
    counters & 0xFFFF_FFFF
}

/// The right count held by a counter value.
pub fn right_of(counters: u64) -> (r: u64)
    ensures
        r == counters / 0x1_0000_0000,
{
    assert(counters >> 32u64 == counters / 0x1_0000_0000) by (bit_vector);
    counters >> 32u64
}

/// Where a chunk puts its elements, given the counter value from before
/// it added its own counts: the small ones right after the small ones
/// placed so far, the large ones right before the large ones placed so far
/// at the end of the output.
pub fn chunk_offsets(counters: u64, len: usize, right_count: u64) -> (r: (usize, usize))
    requires
        right_count + counters / 0x1_0000_0000 <= len,
    ensures
        r.0 == counters % 0x1_0000_0000,
        r.1 == len - right_count - counters / 0x1_0000_0000,
{
    let left_offset = left_of(counters) as usize;
    let right_offset = len - right_count as usize - right_of(counters) as usize;
    (left_offset, right_offset)
}

/// Copies the partitioned chunk into the output: its first `left_count`
/// elements to `left_offset`, the rest to `right_offset`.
pub fn place_chunk(output: &mut Vec<u32>, values: &Vec<u32>, left_count: usize, left_offset: usize, right_offset: usize)
    requires
        left_count <= values.len(),
        left_offset + left_count <= old(output).len(),
        right_offset + (values.len() - left_count) <= old(output).len(),
        left_offset + left_count <= right_offset || right_offset + (values.len() - left_count) <= left_offset,
    ensures
        final(output).len() == old(output).len(),
        forall|k: int| 0 <= k < old(output).len() ==> #[trigger] final(output)[k] == if left_offset <= k < left_offset + left_count {
            values[k - left_offset]
        } else if right_offset <= k < right_offset + (values.len() - left_count) {
            values[k - right_offset + left_count]
        } else {
            old(output)[k]
        },
{
    let right_count = values.len() - left_count;
    for k in 0..left_count
        invariant
            output.len() == old(output).len(),
            left_count <= values.len(),
            right_count == values.len() - left_count,
            left_offset + left_count <= output.len(),
            forall|j: int| 0 <= j < output.len() ==> #[trigger] output[j] == if left_offset <= j < left_offset + k {
                values[j - left_offset]
            } else {
                old(output)[j]
            },
    {
        output.set(left_offset + k, values[k]);
    }
    for k in 0..right_count
        invariant
            output.len() == old(output).len(),
            left_count <= values.len(),
            right_count == values.len() - left_count,
            left_offset + left_count <= output.len(),
            right_offset + right_count <= output.len(),
            left_offset + left_count <= right_offset || right_offset + right_count <= left_offset,
            forall|j: int| 0 <= j < output.len() ==> #[trigger] output[j] == if left_offset <= j < left_offset + left_count {
                values[j - left_offset]
            } else if right_offset <= j < right_offset + k {
                values[j - right_offset + left_count]
            } else {
                old(output)[j]
            },
    {
        output.set(right_offset + k, values[left_count + k]);
    }
}


/// One worker's handling of chunk `chunk_index` of a data-parallel
/// partition: it partitions the chunk locally, reserves room for both parts
/// by adding its counts to the shared counter, and copies the parts into the
/// output. Returns the counter value from before its addition.
pub fn parallel_partition_chunk(
    input: &Vec<u32>,
    output: &mut Vec<u32>,
    pivot: u32,
    counters: &mut u64,
    chunk_index: usize,
    chunk_len: usize,
) -> (before: u64)
    requires
        input.len() == old(output).len(),
        chunk_start(chunk_index as int, chunk_len as int) <= input.len(),
        ({
            let seg = chunk_of(input@, chunk_index as int, chunk_len as int);
            let l = *old(counters) % 0x1_0000_0000;
            let r = *old(counters) / 0x1_0000_0000;
            &&& l + r + seg.len() <= input.len()
            &&& l + r + seg.len() < 0x1_0000_0000
        }),
    ensures
        ({
            let seg = chunk_of(input@, chunk_index as int, chunk_len as int);
            let lc = below(seg, pivot).len() as int;
            let rc = at_least(seg, pivot).len() as int;
            let l = before % 0x1_0000_0000;
            let r = before / 0x1_0000_0000;
            let values = below(seg, pivot) + at_least(seg, pivot).reverse();
            &&& before == *old(counters)
            &&& *final(counters) == packed(l + lc, r + rc)
            &&& final(output).len() == old(output).len()
            &&& forall|k: int| 0 <= k < input.len() ==> #[trigger] final(output)[k] == if l <= k < l + lc {
                values[k - l]
            } else if input.len() - r - rc <= k < input.len() - r {
                values[k - (input.len() - r - rc) + lc]
            } else {
                old(output)[k]
            }
        }),
{
    let ghost seg = chunk_of(input@, chunk_index as int, chunk_len as int);
    let (values, left_count) = partition_chunk(input, pivot, chunk_index, chunk_len);
    proof {
        lemma_split_lengths(seg, pivot);
    }
    let right_count = values.len() as u64 - left_count;
    let before = *counters;
    let l = left_of(before);
    let r = right_of(before);
    proof {
        assert(before == packed(l as int, r as int));
        assert(l < 0x1_0000_0000 && r < 0x1_0000_0000);
    }
    let increment = pack_counts(left_count, right_count);
    *counters = before + increment;
    let (left_offset, right_offset) = chunk_offsets(before, input.len(), right_count);
    place_chunk(output, &values, left_count as usize, left_offset, right_offset);
    before
}

/// The elements `input[1..1 + n]` that follow the pivot.
pub open spec fn after_pivot(input: Seq<u32>, n: int) -> Seq<u32> {
    input.subrange(1, 1 + n)
}

/// The data-parallel partition of a whole array, its chunks handled one
/// after the other, followed by the step that ends it: the pivot (element
/// 0) goes between the elements below it and the others. Returns the
/// pivot's index.
pub fn data_parallel_partition(input: &Vec<u32>, output: &mut Vec<u32>, chunk_len: usize) -> (p: usize)
    requires
        input.len() == old(output).len(),
        2 <= input.len() <= 0x1_0000_0000,
        chunk_len >= 1,
        input.len() + chunk_len <= usize::MAX,
    ensures
        final(output).len() == input.len(),
        p < input.len(),
        final(output)[p as int] == input[0],
        forall|k: int| 0 <= k < p ==> #[trigger] final(output)[k] < input[0],
        forall|k: int| p < k < input.len() ==> #[trigger] final(output)[k] >= input[0],
        permutes(final(output)@, input@),
{
    let n = input.len();
    let pivot = input[0];
    let mut counters: u64 = 0;
    let mut start: usize = 1;
    let mut chunk_index: usize = 0;
    proof {
        assert(after_pivot(input@, 0) =~= Seq::<u32>::empty());
        assert(output@.subrange(0, 0) + output@.subrange(n as int, n as int) =~= Seq::<u32>::empty());
    }
    while start < n
        invariant
            n == input.len(),
            n == output.len(),
            2 <= n <= 0x1_0000_0000,
            chunk_len >= 1,
            n + chunk_len <= usize::MAX,
            pivot == input[0],
            start == chunk_start(chunk_index as int, chunk_len as int),
            1 <= start,
            chunk_index < start,
            ({
                let l = (counters % 0x1_0000_0000) as int;
                let r = (counters / 0x1_0000_0000) as int;
                let done = if start <= n { start - 1 } else { n - 1 };
                &&& l + r == done
                &&& all_below(output@.subrange(0, l), pivot)
                &&& all_at_least(output@.subrange(n - r, n as int), pivot)
                &&& (output@.subrange(0, l) + output@.subrange(n - r, n as int)).to_multiset()
                    == after_pivot(input@, done).to_multiset()
            }),
        decreases n + chunk_len - start,
    {
        let ghost o = output@;
        let ghost l = (counters % 0x1_0000_0000) as int;
        let ghost r = (counters / 0x1_0000_0000) as int;
        let ghost seg = chunk_of(input@, chunk_index as int, chunk_len as int);
        proof {
            lemma_split_lengths(seg, pivot);
            assert(seg.len() == chunk_length(n as int, chunk_index as int, chunk_len as int));
        }
        let before = parallel_partition_chunk(input, output, pivot, &mut counters, chunk_index, chunk_len);
        proof {
            let lc = below(seg, pivot).len() as int;
            let rc = at_least(seg, pivot).len() as int;
            let values = below(seg, pivot) + at_least(seg, pivot).reverse();
            let done = start - 1;
            let new_done = done + seg.len();
            assert(counters % 0x1_0000_0000 == l + lc && counters / 0x1_0000_0000 == r + rc) by {
                assert(l + lc < 0x1_0000_0000);
                assert((r + rc) * 0x1_0000_0000 + (l + lc) == counters);
                vstd::arithmetic::div_mod::lemma_fundamental_div_mod_converse(
                    counters as int, 0x1_0000_0000, r + rc, l + lc);
            }
            let new_left = output@.subrange(0, l + lc);
            let new_right = output@.subrange(n - r - rc, n as int);
            assert(new_left =~= o.subrange(0, l) + below(seg, pivot));
            assert(new_right =~= at_least(seg, pivot).reverse() + o.subrange(n - r, n as int));
            assert(after_pivot(input@, new_done) =~= after_pivot(input@, done) + seg);
            at_least(seg, pivot).lemma_reverse_to_multiset();
            lemma_multiset_commutative(o.subrange(0, l), below(seg, pivot));
            lemma_multiset_commutative(at_least(seg, pivot).reverse(), o.subrange(n - r, n as int));
            lemma_multiset_commutative(new_left, new_right);
            lemma_multiset_commutative(o.subrange(0, l), o.subrange(n - r, n as int));
            lemma_multiset_commutative(after_pivot(input@, done), seg);
            assert((new_left + new_right).to_multiset() =~= after_pivot(input@, new_done).to_multiset());
            assert forall|k: int| 0 <= k < new_left.len() implies #[trigger] new_left[k] < pivot by {
                if k >= l {
                    assert(new_left[k] == below(seg, pivot)[k - l]);
                } else {
                    assert(new_left[k] == o.subrange(0, l)[k]);
                }
            }
            assert forall|k: int| 0 <= k < new_right.len() implies #[trigger] new_right[k] >= pivot by {
                if k >= rc {
                    assert(new_right[k] == o.subrange(n - r, n as int)[k - rc]);
                } else {
                    assert(new_right[k] == at_least(seg, pivot)[rc - 1 - k]);
                }
            }
            if start + chunk_len > n {
                assert(new_done == n - 1);
            }
            assert(chunk_index * chunk_len >= chunk_index) by (nonlinear_arith)
                requires chunk_len >= 1, chunk_index >= 0;
        }
        start = start + chunk_len;
        chunk_index = chunk_index + 1;
        proof {
            assert(chunk_start(chunk_index as int, chunk_len as int) == chunk_start(chunk_index - 1, chunk_len as int) + chunk_len) by (nonlinear_arith);
        }
    }
    let count_left = left_of(counters) as usize;
    let ghost o = output@;
    proof {
        let l = (counters % 0x1_0000_0000) as int;
        let r = (counters / 0x1_0000_0000) as int;
        assert(l + r == n - 1);
        assert(n - r == l + 1);
    }
    output.set(count_left, pivot);
    proof {
        broadcast use vstd::multiset::group_multiset_axioms;
        let l = count_left as int;
        assert(o.subrange(0, l) =~= output@.subrange(0, l));
        assert(o.subrange(l + 1, n as int) =~= output@.subrange(l + 1, n as int));
        assert(output@ =~= o.subrange(0, l) + seq![pivot] + o.subrange(l + 1, n as int));
        assert(input@ =~= seq![pivot] + after_pivot(input@, n - 1));
        lemma_multiset_commutative(o.subrange(0, l) + seq![pivot], o.subrange(l + 1, n as int));
        lemma_multiset_commutative(o.subrange(0, l), seq![pivot]);
        lemma_multiset_commutative(seq![pivot], after_pivot(input@, n - 1));
        lemma_multiset_commutative(o.subrange(0, l), o.subrange(l + 1, n as int));
        assert(output@.to_multiset() =~= input@.to_multiset());
        assert forall|k: int| 0 <= k < l implies #[trigger] output@[k] < pivot by {
            assert(output@[k] == o.subrange(0, l)[k]);
        }
        assert forall|k: int| l < k < n implies #[trigger] output@[k] >= pivot by {
            assert(output@[k] == o.subrange(l + 1, n as int)[k - l - 1]);
        }
    }
    count_left
}

/// The number of chunks of a data-parallel partition of `n` elements (the
/// pivot, element 0, belongs to none) in chunks of `chunk_len`.
pub open spec fn chunk_total(n: int, chunk_len: int) -> int {
    (n - 1 + chunk_len - 1) / chunk_len
}

/// One call of `parallel_partition_chunk` on chunk `c`, as its contract
/// states it: from state `before`/`o` it leaves `after`/`o2`. (That the
/// counts fit, which the call requires, follows within a run of distinct
/// chunks: see `lemma_partition_any_order`.)
pub open spec fn chunk_call(input: Seq<u32>, pivot: u32, chunk_len: int, c: int, before: u64, o: Seq<u32>, after: u64, o2: Seq<u32>) -> bool {
    let n = input.len() as int;
    let seg = chunk_of(input, c, chunk_len);
    let l = before % 0x1_0000_0000;
    let r = before / 0x1_0000_0000;
    let lc = below(seg, pivot).len() as int;
    let rc = at_least(seg, pivot).len() as int;
    let values = below(seg, pivot) + at_least(seg, pivot).reverse();
    &&& o.len() == n
    &&& after == packed(l + lc, r + rc)
    &&& o2.len() == n
    &&& forall|k: int| 0 <= k < n ==> #[trigger] o2[k] == if l <= k < l + lc {
            values[k - l]
        } else if n - r - rc <= k < n - r {
            values[k - (n - r - rc) + lc]
        } else {
            o[k]
        }
}

/// The multiset union of `f(c)` over the chunk indices `cs`.
pub open spec fn chunk_union(cs: Seq<int>, f: spec_fn(int) -> Multiset<u32>) -> Multiset<u32>
    decreases cs.len(),
{
    if cs.len() == 0 {
        Multiset::empty()
    } else {
        chunk_union(cs.drop_last(), f).add(f(cs.last()))
    }
}

proof fn lemma_chunk_union_remove(cs: Seq<int>, f: spec_fn(int) -> Multiset<u32>, pos: int)
    requires
        0 <= pos < cs.len(),
    ensures
        chunk_union(cs, f) == chunk_union(cs.remove(pos), f).add(f(cs[pos])),
    decreases cs.len(),
{
    broadcast use vstd::multiset::group_multiset_axioms;
    if pos == cs.len() - 1 {
        assert(cs.remove(pos) =~= cs.drop_last());
    } else {
        lemma_chunk_union_remove(cs.drop_last(), f, pos);
        assert(cs.remove(pos).drop_last() =~= cs.drop_last().remove(pos));
        assert(cs.remove(pos).last() == cs.last());
        assert(chunk_union(cs.drop_last().remove(pos), f).add(f(cs[pos])).add(f(cs.last()))
            =~= chunk_union(cs.drop_last().remove(pos), f).add(f(cs.last())).add(f(cs[pos])));
    }
}

/// The elements of each chunk of `input`, as a multiset.
pub open spec fn chunk_elements(input: Seq<u32>, chunk_len: int) -> spec_fn(int) -> Multiset<u32> {
    |c: int| chunk_of(input, c, chunk_len).to_multiset()
}

/// The chunk indices `0..k` in order.
pub open spec fn chunk_indices(k: int) -> Seq<int> {
    Seq::new(k as nat, |i: int| i)
}

proof fn lemma_chunk_union_any_order(cs: Seq<int>, f: spec_fn(int) -> Multiset<u32>, k: int)
    requires
        k >= 0,
        forall|i: int| 0 <= i < cs.len() ==> 0 <= #[trigger] cs[i] < k,
        forall|i: int, j: int| 0 <= i < j < cs.len() ==> #[trigger] cs[i] != #[trigger] cs[j],
        forall|c: int| 0 <= c < k ==> #[trigger] cs.contains(c),
    ensures
        chunk_union(cs, f) == chunk_union(chunk_indices(k), f),
    decreases k,
{
    if k == 0 {
        if cs.len() > 0 {
            assert(0 <= cs[0] < k);
        }
        assert(chunk_indices(0) =~= Seq::<int>::empty());
    } else {
        assert(cs.contains(k - 1));
        let pos = choose|i: int| 0 <= i < cs.len() && #[trigger] cs[i] == k - 1;
        let rest = cs.remove(pos);
        assert forall|i: int| 0 <= i < rest.len() implies 0 <= #[trigger] rest[i] < k - 1 by {
            if i < pos {
                assert(rest[i] == cs[i]);
            } else {
                assert(rest[i] == cs[i + 1]);
            }
        }
        assert forall|i: int, j: int| 0 <= i < j < rest.len() implies rest[i] != rest[j] by {
            let ii = if i < pos { i } else { i + 1 };
            let jj = if j < pos { j } else { j + 1 };
            assert(rest[i] == cs[ii] && rest[j] == cs[jj]);
        }
        assert(cs.contains(k - 1));
        assert forall|c: int| 0 <= c < k - 1 implies #[trigger] rest.contains(c) by {
            assert(cs.contains(c));
            let i = choose|i: int| 0 <= i < cs.len() && #[trigger] cs[i] == c;
            if i < pos {
                assert(rest[i] == c);
            } else {
                assert(i != pos);
                assert(rest[i - 1] == c);
            }
        }
        lemma_chunk_union_any_order(rest, f, k - 1);
        lemma_chunk_union_remove(cs, f, pos);
        assert(chunk_indices(k).drop_last() =~= chunk_indices(k - 1));
    }
}

/// The elements of the chunks `0..k`, in order, are `input[1..1 + done]`.
proof fn lemma_chunks_in_order(input: Seq<u32>, chunk_len: int, k: int)
    requires
        input.len() >= 1,
        chunk_len >= 1,
        0 <= k <= chunk_total(input.len() as int, chunk_len),
    ensures
        chunk_union(chunk_indices(k), chunk_elements(input, chunk_len))
            == after_pivot(input, if k * chunk_len <= input.len() - 1 { k * chunk_len } else { input.len() - 1 }).to_multiset(),
    decreases k,
{
    let n = input.len() as int;
    let f = chunk_elements(input, chunk_len);
    if k == 0 {
        assert(after_pivot(input, 0) =~= Seq::<u32>::empty());
        assert(chunk_indices(0) =~= Seq::<int>::empty());
    } else {
        lemma_chunks_in_order(input, chunk_len, k - 1);
        assert(chunk_indices(k).drop_last() =~= chunk_indices(k - 1));
        assert(chunk_indices(k).last() == k - 1);
        assert(chunk_union(chunk_indices(k), f) == chunk_union(chunk_indices(k - 1), f).add(f(k - 1)));
        let c = k - 1;
        assert(c * chunk_len < n - 1) by (nonlinear_arith)
            requires
                c == k - 1,
                k <= (n - 1 + chunk_len - 1) / chunk_len,
                chunk_len >= 1,
                n >= 1;
        assert((k - 1) * chunk_len + chunk_len == k * chunk_len) by (nonlinear_arith);
        let done = c * chunk_len;
        let new_done = if k * chunk_len <= n - 1 { k * chunk_len } else { n - 1 };
        assert(after_pivot(input, new_done) =~= after_pivot(input, done) + chunk_of(input, c, chunk_len));
        lemma_multiset_commutative(after_pivot(input, done), chunk_of(input, c, chunk_len));
    }
}

/// However the threads take the chunks of a data-parallel partition, when
/// every chunk `0..chunk_total` has been passed to `parallel_partition_chunk`
/// exactly once, in any order, the shared counter counts all elements but
/// the pivot, the left part of the output holds exactly the elements below
/// the pivot and the right part, past the pivot's place, exactly the
/// others.
pub proof fn lemma_partition_any_order(
    input: Seq<u32>,
    chunk_len: int,
    order: Seq<int>,
    counters: Seq<u64>,
    outputs: Seq<Seq<u32>>,
)
    requires
        2 <= input.len() <= 0x1_0000_0000,
        chunk_len >= 1,
        forall|i: int| 0 <= i < order.len() ==> 0 <= #[trigger] order[i] < chunk_total(input.len() as int, chunk_len),
        forall|i: int, j: int| 0 <= i < j < order.len() ==> #[trigger] order[i] != #[trigger] order[j],
        forall|c: int| 0 <= c < chunk_total(input.len() as int, chunk_len) ==> #[trigger] order.contains(c),
        counters.len() == order.len() + 1,
        outputs.len() == order.len() + 1,
        counters[0] == 0,
        outputs[0].len() == input.len(),
        forall|i: int| 0 <= i < order.len() ==> #[trigger] chunk_call(input, input[0], chunk_len, order[i],
            counters[i], outputs[i], counters[i + 1], outputs[i + 1]),
    ensures
        ({
            let n = input.len() as int;
            let l = counters.last() % 0x1_0000_0000;
            let r = counters.last() / 0x1_0000_0000;
            let o = outputs.last();
            &&& l + r + 1 == n
            &&& permutes(o.subrange(0, l as int), below(input.subrange(1, n), input[0]))
            &&& permutes(o.subrange(l + 1, n), at_least(input.subrange(1, n), input[0]))
        }),
{
    broadcast use vstd::multiset::group_multiset_axioms;
    let n = input.len() as int;
    let pivot = input[0];
    let m = order.len() as int;
    let f = chunk_elements(input, chunk_len);
    lemma_chunk_union_any_order(order, f, chunk_total(n, chunk_len));
    lemma_chunks_in_order(input, chunk_len, chunk_total(n, chunk_len));
    assert(order.take(m) =~= order);
    let k = chunk_total(n, chunk_len);
    assert(k * chunk_len >= n - 1) by (nonlinear_arith)
        requires k == (n - 1 + chunk_len - 1) / chunk_len, chunk_len >= 1;
    let rest = input.subrange(1, n);
    assert(after_pivot(input, n - 1) =~= rest);
    assert(chunk_union(order, f).len() == n - 1);
    lemma_partition_run(input, chunk_len, order, counters, outputs, m);
    let l = (counters[m] % 0x1_0000_0000) as int;
    let r = (counters[m] / 0x1_0000_0000) as int;
    let o = outputs[m];
    assert(outputs.last() == o && counters.last() == counters[m]);
    let left = o.subrange(0, l);
    let right = o.subrange(n - r, n);
    lemma_multiset_commutative(left, right);
    assert((left + right).to_multiset().len() == l + r);
    assert(rest.to_multiset().len() == n - 1);
    assert(n - r == l + 1);
    lemma_split_lengths(rest, pivot);
    lemma_filter_parts(left, right, rest, pivot);
}

/// The multiset of a sequence whose elements are all below `pivot`, joined
/// with one whose elements are all at least `pivot`, splits `s` the way
/// `below` and `at_least` do.
proof fn lemma_filter_parts(left: Seq<u32>, right: Seq<u32>, s: Seq<u32>, pivot: u32)
    requires
        all_below(left, pivot),
        all_at_least(right, pivot),
        left.to_multiset().add(right.to_multiset()) == s.to_multiset(),
        all_below(below(s, pivot), pivot),
        all_at_least(at_least(s, pivot), pivot),
        below(s, pivot).to_multiset().add(at_least(s, pivot).to_multiset()) == s.to_multiset(),
    ensures
        permutes(left, below(s, pivot)),
        permutes(right, at_least(s, pivot)),
{
    broadcast use vstd::multiset::group_multiset_axioms;
    let b = below(s, pivot);
    let a = at_least(s, pivot);
    assert forall|v: u32| left.to_multiset().count(v) == b.to_multiset().count(v)
        && right.to_multiset().count(v) == a.to_multiset().count(v) by {
        assert(s.to_multiset().count(v) == left.to_multiset().count(v) + right.to_multiset().count(v));
        assert(s.to_multiset().count(v) == b.to_multiset().count(v) + a.to_multiset().count(v));
        if v < pivot {
            if right.to_multiset().count(v) > 0 {
                assert(right.contains(v));
                let i = choose|i: int| 0 <= i < right.len() && right[i] == v;
                assert(right[i] >= pivot);
            }
            if a.to_multiset().count(v) > 0 {
                assert(a.contains(v));
                let i = choose|i: int| 0 <= i < a.len() && a[i] == v;
                assert(a[i] >= pivot);
            }
        } else {
            if left.to_multiset().count(v) > 0 {
                assert(left.contains(v));
                let i = choose|i: int| 0 <= i < left.len() && left[i] == v;
                assert(left[i] < pivot);
            }
            if b.to_multiset().count(v) > 0 {
                assert(b.contains(v));
                let i = choose|i: int| 0 <= i < b.len() && b[i] == v;
                assert(b[i] < pivot);
            }
        }
    }
    assert(left.to_multiset() =~= b.to_multiset());
    assert(right.to_multiset() =~= a.to_multiset());
}

proof fn lemma_chunk_union_prefix_len(cs: Seq<int>, f: spec_fn(int) -> Multiset<u32>, j: int, m: int)
    requires
        0 <= j <= m <= cs.len(),
    ensures
        chunk_union(cs.take(j), f).len() <= chunk_union(cs.take(m), f).len(),
    decreases m - j,
{
    broadcast use vstd::multiset::group_multiset_axioms;
    if j < m {
        lemma_chunk_union_prefix_len(cs, f, j, m - 1);
        assert(cs.take(m).drop_last() =~= cs.take(m - 1));
    }
}

/// After the first `k` calls of a run: the counts add up, the two filled
/// ends of the output hold the elements of the chunks taken so far, the
/// left end only elements below the pivot, the right end only the others.
proof fn lemma_partition_run(
    input: Seq<u32>,
    chunk_len: int,
    order: Seq<int>,
    counters: Seq<u64>,
    outputs: Seq<Seq<u32>>,
    k: int,
)
    requires
        2 <= input.len() <= 0x1_0000_0000,
        chunk_len >= 1,
        forall|i: int| 0 <= i < order.len() ==> 0 <= #[trigger] order[i] < chunk_total(input.len() as int, chunk_len),
        chunk_union(order, chunk_elements(input, chunk_len)).len() == input.len() - 1,
        counters.len() == order.len() + 1,
        outputs.len() == order.len() + 1,
        counters[0] == 0,
        outputs[0].len() == input.len(),
        forall|i: int| 0 <= i < order.len() ==> #[trigger] chunk_call(input, input[0], chunk_len, order[i],
            counters[i], outputs[i], counters[i + 1], outputs[i + 1]),
        0 <= k <= order.len(),
    ensures
        ({
            let n = input.len() as int;
            let l = (counters[k] % 0x1_0000_0000) as int;
            let r = (counters[k] / 0x1_0000_0000) as int;
            let o = outputs[k];
            &&& o.len() == n
            &&& l + r == chunk_union(order.take(k), chunk_elements(input, chunk_len)).len()
            &&& l + r <= n - 1
            &&& all_below(o.subrange(0, l), input[0])
            &&& all_at_least(o.subrange(n - r, n), input[0])
            &&& (o.subrange(0, l) + o.subrange(n - r, n)).to_multiset()
                == chunk_union(order.take(k), chunk_elements(input, chunk_len))
        }),
    decreases k,
{
    broadcast use vstd::multiset::group_multiset_axioms;
    let n = input.len() as int;
    let pivot = input[0];
    let f = chunk_elements(input, chunk_len);
    if k == 0 {
        assert(order.take(0) =~= Seq::<int>::empty());
        assert(outputs[0].subrange(0, 0) + outputs[0].subrange(n, n) =~= Seq::<u32>::empty());
    } else {
        let j = k - 1;
        lemma_partition_run(input, chunk_len, order, counters, outputs, j);
        assert(chunk_call(input, pivot, chunk_len, order[j], counters[j], outputs[j], counters[j + 1], outputs[j + 1]));
        assert(j + 1 == k);
        let o = outputs[j];
        let o2 = outputs[k];
        let l = (counters[j] % 0x1_0000_0000) as int;
        let r = (counters[j] / 0x1_0000_0000) as int;
        let seg = chunk_of(input, order[j], chunk_len);
        let c = order[j];
        assert(c * chunk_len < n - 1) by (nonlinear_arith)
            requires
                0 <= c < (n - 1 + chunk_len - 1) / chunk_len,
                chunk_len >= 1;
        lemma_split_lengths(seg, pivot);
        let lc = below(seg, pivot).len() as int;
        let rc = at_least(seg, pivot).len() as int;
        assert(order.take(k).drop_last() =~= order.take(j));
        assert(order.take(k).last() == order[j]);
        assert(chunk_union(order.take(k), f) == chunk_union(order.take(j), f).add(f(order[j])));
        assert(f(order[j]) == seg.to_multiset());
        lemma_chunk_union_prefix_len(order, f, k, order.len() as int);
        assert(order.take(order.len() as int) =~= order);
        assert(l + r + seg.len() <= n - 1);
        assert(counters[k] % 0x1_0000_0000 == l + lc && counters[k] / 0x1_0000_0000 == r + rc) by {
            assert(l + lc < 0x1_0000_0000);
            assert((r + rc) * 0x1_0000_0000 + (l + lc) == counters[k]);
            vstd::arithmetic::div_mod::lemma_fundamental_div_mod_converse(
                counters[k] as int, 0x1_0000_0000, r + rc, l + lc);
        }
        let new_left = o2.subrange(0, l + lc);
        let new_right = o2.subrange(n - r - rc, n);
        assert(new_left =~= o.subrange(0, l) + below(seg, pivot));
        assert(new_right =~= at_least(seg, pivot).reverse() + o.subrange(n - r, n));
        at_least(seg, pivot).lemma_reverse_to_multiset();
        lemma_multiset_commutative(o.subrange(0, l), below(seg, pivot));
        lemma_multiset_commutative(at_least(seg, pivot).reverse(), o.subrange(n - r, n));
        lemma_multiset_commutative(new_left, new_right);
        lemma_multiset_commutative(o.subrange(0, l), o.subrange(n - r, n));
        assert(order.take(k).drop_last() =~= order.take(j));
        assert(order.take(k).last() == order[j]);
        assert(chunk_union(order.take(k), f) == chunk_union(order.take(j), f).add(f(order[j])));
        assert(f(order[j]) == seg.to_multiset());
        assert((new_left + new_right).to_multiset() =~= chunk_union(order.take(k), f));
        assert forall|i: int| 0 <= i < new_left.len() implies #[trigger] new_left[i] < pivot by {
            if i >= l {
                assert(new_left[i] == below(seg, pivot)[i - l]);
            } else {
                assert(new_left[i] == o.subrange(0, l)[i]);
            }
        }
        assert forall|i: int| 0 <= i < new_right.len() implies #[trigger] new_right[i] >= pivot by {
            if i >= rc {
                assert(new_right[i] == o.subrange(n - r, n)[i - rc]);
            } else {
                assert(new_right[i] == at_least(seg, pivot)[rc - 1 - i]);
            }
        }
    }
}

} // verus!
