use vstd::prelude::*;
use crate::distribution::{total, share, distribute, lemma_distribute_total};
use rand::Rng;

verus! {

/// The chunk counters of a data-parallel task. The chunks `0..work_size` are
/// cut into consecutive ranges `starts[i]..ends[i]`; counter `i` hands out
/// the chunks of range `i` one by one (`next[i]` is the next one it hands
/// out), and `rotation` picks the range that a worker helps with next.
pub struct ChunkCounters {
    pub starts: Vec<u32>,
    pub next: Vec<u32>,
    pub ends: Vec<u32>,
    pub rotation: u32,
}

impl ChunkCounters {
    /// The number of ranges.
    pub open spec fn ranges(&self) -> nat {
        self.ends@.len()
    }

    /// The number of chunks of the task.
    pub open spec fn work_size(&self) -> int {
        if self.ends.len() == 0 {
            0
        } else {
            self.ends@.last() as int
        }
    }

    /// The ranges are consecutive, start at chunk 0, and every counter has
    /// reached at least the start of its range.
    pub open spec fn wf(&self) -> bool {
        &&& self.starts.len() == self.ends.len()
        &&& self.next.len() == self.ends.len()
        &&& self.ends.len() > 0 ==> self.starts[0] == 0
        &&& forall|i: int| 0 <= i < self.ends.len() ==> #[trigger] self.starts[i] <= self.ends[i]
        &&& forall|i: int| 0 <= i < self.ends.len() ==> #[trigger] self.starts[i] <= self.next[i]
        &&& forall|i: int| 0 < i < self.ends.len() ==> #[trigger] self.starts[i] == self.ends[i - 1]
        &&& forall|i: int, j: int| 0 <= i < j < self.ends.len() ==> self.ends[i] <= self.starts[j]
    }

    /// Chunk `c` has been handed out by its counter.
    pub open spec fn is_claimed(&self, c: int) -> bool {
        exists|i: int|
            0 <= i < self.ends.len() && #[trigger] self.starts[i] <= c && c < self.ends[i] && c < self.next[i]
    }

    /// No counter holds chunks any more.
    pub open spec fn exhausted(&self) -> bool {
        forall|i: int| 0 <= i < self.ends.len() ==> #[trigger] self.next[i] >= self.ends[i]
    }

    /// Counters as they are right after construction: nothing handed out.
    pub open spec fn fresh(&self) -> bool {
        &&& self.rotation == 0
        &&& self.next@ == self.starts@
    }

    /// Cuts the chunks into consecutive ranges of the given sizes; every
    /// counter starts at the first chunk of its range.
    pub fn from_sizes(sizes: &Vec<u32>) -> (c: ChunkCounters)
        requires
            total(sizes@) <= u32::MAX,
        ensures
            c.wf(),
            c.fresh(),
            c.ranges() == sizes.len(),
            forall|i: int| 0 <= i < sizes.len() ==> #[trigger] c.starts[i] == total(sizes@.take(i)),
            forall|i: int| 0 <= i < sizes.len() ==> #[trigger] c.ends[i] == c.starts[i] + sizes[i],
            c.work_size() == total(sizes@),
    {
        let n = sizes.len();
        let mut starts: Vec<u32> = Vec::new();
        let mut ends: Vec<u32> = Vec::new();
        let mut index: u32 = 0;
        for i in 0..n
            invariant
                n == sizes.len(),
                total(sizes@) <= u32::MAX,
                starts.len() == i,
                ends.len() == i,
                index == total(sizes@.take(i as int)),
                forall|k: int| 0 <= k < i ==> #[trigger] starts[k] == total(sizes@.take(k)),
                forall|k: int| 0 <= k < i ==> #[trigger] ends[k] == starts[k] + sizes[k],
        {
            proof {
                lemma_total_take_monotone(sizes@, i as int + 1, n as int);
                assert(sizes@.take(i as int + 1) =~= sizes@.take(i as int).push(sizes[i as int]));
                lemma_total_push(sizes@.take(i as int), sizes[i as int]);
                assert(sizes@.take(n as int) =~= sizes@);
            }
            starts.push(index);
            index = index + sizes[i];
            ends.push(index);
        }
        proof {
            assert(sizes@.take(n as int) =~= sizes@);
            assert forall|i: int| 0 < i < n implies #[trigger] starts[i] == ends[i - 1] by {
                assert(sizes@.take(i) =~= sizes@.take(i - 1).push(sizes[i - 1]));
                lemma_total_push(sizes@.take(i - 1), sizes[i - 1]);
            }
            assert forall|i: int, j: int| 0 <= i < j < n implies ends[i] <= starts[j] by {
                assert(sizes@.take(i + 1) =~= sizes@.take(i).push(sizes[i]));
                lemma_total_push(sizes@.take(i), sizes[i]);
                lemma_total_take_monotone(sizes@, i + 1, j);
            }
            if n > 0 {
                assert(sizes@.take(0) =~= Seq::<u32>::empty());
                assert(sizes@.take(n as int) =~= sizes@.take(n - 1).push(sizes[n - 1]));
                lemma_total_push(sizes@.take(n - 1), sizes[n - 1]);
            }
        }
        let next = starts.clone();
        ChunkCounters { starts, next, ends, rotation: 0 }
    }

    /// Hands out the next chunk of range `i`: returns the counter's value and
    /// moves the counter on by one. The value is a chunk of the task only
    /// when it is below `ends[i]`; such a chunk was not handed out before.
    pub fn fetch_chunk(&mut self, i: usize) -> (r: u32)
        requires
            old(self).wf(),
            i < old(self).ranges(),
            old(self).next[i as int] < u32::MAX,
        ensures
            final(self).wf(),
            r == old(self).next[i as int],
            final(self).next@ == old(self).next@.update(i as int, (r + 1) as u32),
            final(self).starts@ == old(self).starts@,
            final(self).ends@ == old(self).ends@,
            final(self).rotation == old(self).rotation,
            r < old(self).ends[i as int] ==> !old(self).is_claimed(r as int),
            forall|c: int| #[trigger] final(self).is_claimed(c) <==> old(self).is_claimed(c)
                || (c == r && r < old(self).ends[i as int]),
    {
        let r = self.next[i];
        proof {
            let o = *old(self);
            if r < o.ends[i as int] {
                if o.is_claimed(r as int) {
                    let j = choose|j: int| 0 <= j < o.ends.len() && #[trigger] o.starts[j] <= r
                        && r < o.ends[j] && r < o.next[j];
                    if j < i {
                        assert(o.ends[j] <= o.starts[i as int]);
                    } else if j > i {
                        assert(o.ends[i as int] <= o.starts[j]);
                    }
                }
            }
        }
        self.next.set(i, r + 1);
        proof {
            let o = *old(self);
            let s = *self;
            assert forall|c: int| #[trigger] s.is_claimed(c) <==> o.is_claimed(c)
                || (c == r && r < o.ends[i as int]) by {
                if s.is_claimed(c) {
                    let j = choose|j: int| 0 <= j < s.ends.len() && #[trigger] s.starts[j] <= c
                        && c < s.ends[j] && c < s.next[j];
                    if j != i || c < r {
                        assert(o.starts[j] <= c && c < o.ends[j] && c < o.next[j]);
                    }
                }
                if o.is_claimed(c) {
                    let j = choose|j: int| 0 <= j < o.ends.len() && #[trigger] o.starts[j] <= c
                        && c < o.ends[j] && c < o.next[j];
                    assert(s.starts[j] <= c && c < s.ends[j] && c < s.next[j]);
                }
                if c == r && r < o.ends[i as int] {
                    assert(s.starts[i as int] <= c && c < s.ends[i as int] && c < s.next[i as int]);
                }
            }
        }
        r
    }
}

/// The number of counters of a multi-counter task: the number of chunks
/// divided by the minimum number of chunks per counter, at most
/// `atomics_max`, and at least one.
pub open spec fn atomics_count_spec(atomics_max: usize, min_chunks: usize, work_size: u32) -> int {
    let q = (work_size / (min_chunks as u32)) as int;
    let m = if atomics_max < q { atomics_max as int } else { q };
    if m < 1 { 1 } else { m }
}

/// See `atomics_count_spec`.
pub fn atomics_count(atomics_max: usize, min_chunks: usize, work_size: u32) -> (n: usize)
    requires
        (min_chunks as u32) > 0,
    ensures
        n == atomics_count_spec(atomics_max, min_chunks, work_size),
        1 <= n <= u32::MAX,
{
    let q = (work_size / (min_chunks as u32)) as usize;
    let m = if atomics_max < q { atomics_max } else { q };
    if m < 1 { 1 } else { m }
}

impl ChunkCounters {
    /// The counters of a data-parallel task of the scheduler with several
    /// counters per task: `work_size` chunks spread evenly over
    /// `atomics_count(atomics_max, min_chunks, work_size)` ranges.
    pub fn new_dataparallel(atomics_max: usize, min_chunks: usize, work_size: u32) -> (c: ChunkCounters)
        requires
            (min_chunks as u32) > 0,
        ensures
            c.wf(),
            c.fresh(),
            c.ranges() == atomics_count_spec(atomics_max, min_chunks, work_size),
            c.work_size() == work_size,
            forall|i: int| 0 <= i < c.ranges() ==> #[trigger] c.ends[i] - c.starts[i]
                == share(work_size, c.ranges() as u32, i),
    {
        let atomics = atomics_count(atomics_max, min_chunks, work_size);
        let sizes = distribute(work_size, atomics);
        proof {
            lemma_distribute_total(sizes@, work_size, atomics as u32);
        }
        ChunkCounters::from_sizes(&sizes)
    }

    /// The counters of a data-parallel task of the scheduler that keeps at
    /// most 64 counters, one per chunk at most. The first chunk belongs to
    /// the worker that starts the task, so the first counter starts one
    /// further.
    pub fn new_dataparallel_bounded(work_size: u32) -> (c: ChunkCounters)
        requires
            work_size > 0,
        ensures
            c.wf(),
            c.rotation == 0,
            c.ranges() == (if work_size < 64 { work_size as int } else { 64 }),
            c.work_size() == work_size,
            c.next[0] == 1,
            forall|i: int| 0 < i < c.ranges() ==> #[trigger] c.next[i] == c.starts[i],
            forall|i: int| 0 <= i < c.ranges() ==> #[trigger] c.ends[i] - c.starts[i]
                == share(work_size, c.ranges() as u32, i),
    {
        let atomics32: u32 = if work_size < 64 { work_size } else { 64 };
        let atomics = atomics32 as usize;
        let sizes = distribute(work_size, atomics);
        proof {
            lemma_distribute_total(sizes@, work_size, atomics32);
            lemma_div_at_least_one(work_size as int, atomics32 as int);
            assert(sizes[0] >= 1);
        }
        let c = ChunkCounters::from_sizes(&sizes);
        proof {
            assert(c.ends[0] >= 1);
        }
        c.with_first_chunk_taken()
    }

    /// The same counters with the first chunk already handed out.
    fn with_first_chunk_taken(self) -> (c: ChunkCounters)
        requires
            self.wf(),
            self.ranges() > 0,
            self.ends[0] >= 1,
        ensures
            c.wf(),
            c.rotation == self.rotation,
            c.starts@ == self.starts@,
            c.ends@ == self.ends@,
            c.next@ == self.next@.update(0, 1),
    {
        let mut c = self;
        c.next.set(0, 1);
        proof {
            assert forall|i: int| 0 <= i < c.ends.len() implies #[trigger] c.starts[i] <= c.next[i] by {
                if i > 0 {
                    assert(c.next[i] == self.next[i]);
                }
            }
        }
        c
    }

    /// The counter of a data-parallel task of the scheduler with one counter
    /// per task. The first chunk belongs to the worker that starts the task,
    /// so the counter starts at one.
    pub fn new_dataparallel_single(work_size: u32) -> (c: ChunkCounters)
        ensures
            c.wf(),
            c.rotation == 0,
            c.ranges() == 1,
            c.starts[0] == 0,
            c.ends[0] == work_size,
            c.next[0] == 1,
    {
        ChunkCounters { starts: vec![0], next: vec![1], ends: vec![work_size], rotation: 0 }
    }

    /// The counters of a task without data parallelism: there are none.
    pub fn new_single() -> (c: ChunkCounters)
        ensures
            c.wf(),
            c.fresh(),
            c.ranges() == 0,
            c.work_size() == 0,
    {
        ChunkCounters { starts: Vec::new(), next: Vec::new(), ends: Vec::new(), rotation: 0 }
    }

    /// Picks the range to work on next: the rotation counter modulo the
    /// number of ranges; the rotation counter moves on by one (wrapping).
    pub fn next_range(&mut self) -> (r: usize)
        requires
            old(self).wf(),
            old(self).ranges() > 0,
        ensures
            final(self).wf(),
            r == old(self).rotation as int % old(self).ranges() as int,
            final(self).rotation == old(self).rotation.wrapping_add(1),
            final(self).starts@ == old(self).starts@,
            final(self).next@ == old(self).next@,
            final(self).ends@ == old(self).ends@,
    {
        let r = self.rotation;
        self.rotation = r.wrapping_add(1);
        r as usize % self.ends.len()
    }
}

proof fn lemma_div_at_least_one(x: int, d: int)
    requires
        0 < d <= x,
    ensures
        x / d >= 1,
{
    vstd::arithmetic::div_mod::lemma_div_is_ordered(d, x, d);
    vstd::arithmetic::div_mod::lemma_div_basics(d);
}

proof fn lemma_claimed_same_counters(a: ChunkCounters, b: ChunkCounters)
    requires
        a.starts@ == b.starts@,
        a.next@ == b.next@,
        a.ends@ == b.ends@,
    ensures
        forall|x: int| #![trigger a.is_claimed(x)] #![trigger b.is_claimed(x)] a.is_claimed(x) == b.is_claimed(x),
{
    assert forall|x: int| #[trigger] a.is_claimed(x) == b.is_claimed(x) by {
        if a.is_claimed(x) {
            let i = choose|i: int| 0 <= i < a.ends.len() && #[trigger] a.starts[i] <= x && x < a.ends[i] && x < a.next[i];
            assert(b.starts[i] <= x && x < b.ends[i] && x < b.next[i]);
        }
        if b.is_claimed(x) {
            let i = choose|i: int| 0 <= i < b.ends.len() && #[trigger] b.starts[i] <= x && x < b.ends[i] && x < b.next[i];
            assert(a.starts[i] <= x && x < a.ends[i] && x < a.next[i]);
        }
    }
}

/// `c` occurs in `s`.
pub open spec fn occurs(s: Seq<u32>, c: int) -> bool {
    exists|k: int| 0 <= k < s.len() && s[k] == c
}

proof fn lemma_occurs_push(s: Seq<u32>, x: u32, c: int)
    ensures
        occurs(s.push(x), c) <==> occurs(s, c) || c == x,
{
    if occurs(s, c) {
        let k = choose|k: int| 0 <= k < s.len() && s[k] == c;
        assert(s.push(x)[k] == c);
    }
    if c == x {
        assert(s.push(x)[s.len() as int] == c);
    }
    if occurs(s.push(x), c) {
        let k = choose|k: int| 0 <= k < s.push(x).len() && s.push(x)[k] == c;
        if k < s.len() {
            assert(s[k] == c);
        }
    }
}

/// The chunks `from..to` in increasing order (none when `to <= from`).
pub open spec fn chunks_between(from: int, to: int) -> Seq<u32> {
    Seq::new(if to > from { (to - from) as nat } else { 0 }, |i: int| (from + i) as u32)
}

/// The chunks `0..n` in increasing order.
pub open spec fn chunks_upto(n: int) -> Seq<u32> {
    Seq::new(n as nat, |i: int| i as u32)
}

impl ChunkCounters {
    /// One worker's part of a data-parallel task on the scheduler with
    /// several counters per task: the worker takes a range from the
    /// rotation counter, handles chunks from that range's counter until it
    /// hands out a value past the range, and does so once for every range.
    /// Returns the chunks the worker handles, in the order it handles them.
    pub fn work_loop(&mut self) -> (chunks: Vec<u32>)
        requires
            old(self).wf(),
            forall|i: int| 0 <= i < old(self).ranges() ==> #[trigger] old(self).next[i] + old(self).ranges() < u32::MAX,
            forall|i: int| 0 <= i < old(self).ranges() ==> #[trigger] old(self).ends[i] + old(self).ranges() < u32::MAX,
        ensures
            final(self).wf(),
            final(self).starts@ == old(self).starts@,
            final(self).ends@ == old(self).ends@,
            forall|c: int| #[trigger] final(self).is_claimed(c) <==> old(self).is_claimed(c) || occurs(chunks@, c),
            forall|k: int| 0 <= k < chunks.len() ==> !old(self).is_claimed(#[trigger] chunks[k] as int),
            forall|k1: int, k2: int| 0 <= k1 < k2 < chunks.len() ==> chunks[k1] != chunks[k2],
            old(self).fresh() ==> chunks@ == chunks_upto(old(self).work_size()),
            old(self).rotation + old(self).ranges() <= u32::MAX ==> final(self).exhausted(),
    {
        let n = self.ends.len();
        let ghost o = *self;
        let mut chunks: Vec<u32> = Vec::new();
        for k in 0..n
            invariant
                n == self.ends.len(),
                self.wf(),
                self.starts@ == o.starts@,
                self.ends@ == o.ends@,
                forall|i: int| 0 <= i < n ==> #[trigger] self.next[i] <= (if o.next[i] < o.ends[i] { o.ends[i] as int } else { o.next[i] as int }) + k,
                forall|i: int| 0 <= i < n ==> #[trigger] o.next[i] + n < u32::MAX,
                forall|i: int| 0 <= i < n ==> #[trigger] o.ends[i] + n < u32::MAX,
                forall|c: int| #[trigger] self.is_claimed(c) <==> o.is_claimed(c) || occurs(chunks@, c),
                forall|j: int| 0 <= j < chunks.len() ==> !o.is_claimed(#[trigger] chunks[j] as int),
                forall|j1: int, j2: int| 0 <= j1 < j2 < chunks.len() ==> chunks[j1] != chunks[j2],
                o.fresh() ==> self.rotation == k,
                o.fresh() ==> forall|i: int| k <= i < n ==> #[trigger] self.next[i] == self.starts[i],
                o.fresh() ==> chunks@ == chunks_upto(if k == 0 { 0 } else { self.ends[k - 1] as int }),
                o.rotation + n <= u32::MAX ==> self.rotation == o.rotation + k,
                o.rotation + n <= u32::MAX ==> forall|j: int| 0 <= j < k ==>
                    #[trigger] self.next[(o.rotation + j) % (n as int)] >= self.ends[(o.rotation + j) % (n as int)],
        {
            let ghost before = *self;
            let cur = self.next_range();
            proof {
                if o.fresh() {
                    vstd::arithmetic::div_mod::lemma_small_mod(k as nat, n as nat);
                    assert(cur == k);
                }
                lemma_claimed_same_counters(before, *self);
            }
            let ghost before_fetch = *self;
            let mut c = self.fetch_chunk(cur);
            proof {
                if o.fresh() {
                    assert(c == self.starts[cur as int]);
                    if k > 0 {
                        assert(self.starts[k as int] == self.ends[k - 1]);
                    } else {
                        assert(self.starts[0] == 0);
                    }
                }
            }
            while c < self.ends[cur]
                invariant
                    n == self.ends.len(),
                    cur < n,
                    self.wf(),
                    self.starts@ == o.starts@,
                    self.ends@ == o.ends@,
                    before.ends@ == o.ends@,
                    before.starts@ == o.starts@,
                    self.next[cur as int] == c + 1,
                    c + 1 <= (if before.next[cur as int] < before.ends[cur as int] { before.ends[cur as int] as int } else { before.next[cur as int] as int }) + 1,
                    forall|i: int| 0 <= i < n && i != cur ==> #[trigger] self.next[i] == before.next[i],
                    forall|i: int| 0 <= i < n ==> #[trigger] before.next[i] <= (if o.next[i] < o.ends[i] { o.ends[i] as int } else { o.next[i] as int }) + k,
                    forall|i: int| 0 <= i < n ==> #[trigger] o.next[i] + n < u32::MAX,
                    forall|i: int| 0 <= i < n ==> #[trigger] o.ends[i] + n < u32::MAX,
                    c < self.ends[cur as int] ==> !(o.is_claimed(c as int) || occurs(chunks@, c as int)),
                    forall|x: int| #[trigger] self.is_claimed(x) <==> o.is_claimed(x) || occurs(chunks@, x)
                        || (x == c && c < self.ends[cur as int]),
                    forall|j: int| 0 <= j < chunks.len() ==> !o.is_claimed(#[trigger] chunks[j] as int),
                    forall|j1: int, j2: int| 0 <= j1 < j2 < chunks.len() ==> chunks[j1] != chunks[j2],
                    o.fresh() ==> self.rotation == k + 1,
                    o.fresh() ==> forall|i: int| k < i < n ==> #[trigger] self.next[i] == self.starts[i],
                    o.fresh() ==> cur == k,
                    o.fresh() ==> chunks@ == chunks_upto(c as int),
                    o.fresh() ==> self.starts[cur as int] <= c <= self.ends[cur as int],
                    o.rotation + n <= u32::MAX ==> self.rotation == o.rotation + k + 1,
                    o.rotation + n <= u32::MAX ==> cur == (o.rotation + k) % (n as int),
                    forall|i: int| 0 <= i < n ==> #[trigger] self.next[i] >= before.next[i],
                    o.rotation + n <= u32::MAX ==> forall|j: int| 0 <= j < k ==>
                        #[trigger] before.next[(o.rotation + j) % (n as int)] >= before.ends[(o.rotation + j) % (n as int)],
                decreases self.ends[cur as int] - c,
            {
                proof {
                    assert forall|j: int| 0 <= j < chunks.len() implies chunks[j] != c by {
                        assert(occurs(chunks@, chunks[j] as int));
                    }
                    assert forall|x: int| occurs(chunks@.push(c), x) <==> occurs(chunks@, x) || x == c by {
                        lemma_occurs_push(chunks@, c, x);
                    }
                }
                chunks.push(c);
                proof {
                    if o.fresh() {
                        assert(chunks@ =~= chunks_upto(c as int + 1));
                    }
                }
                c = self.fetch_chunk(cur);
            }
            proof {
                if o.fresh() {
                    assert(c == self.ends[cur as int]);
                }
                if o.rotation + n <= u32::MAX {
                    assert forall|j: int| 0 <= j < k + 1 implies
                        #[trigger] self.next[(o.rotation + j) % (n as int)] >= self.ends[(o.rotation + j) % (n as int)] by {
                        let i = (o.rotation + j) % (n as int);
                        vstd::arithmetic::div_mod::lemma_mod_bound(o.rotation + j, n as int);
                        if j < k {
                            assert(before.next[i] >= before.ends[i]);
                        }
                    }
                }
            }
        }
        proof {
            if o.rotation + n <= u32::MAX {
                assert forall|i: int| 0 <= i < n implies #[trigger] self.next[i] >= self.ends[i] by {
                    let j = (i - o.rotation) % (n as int);
                    vstd::arithmetic::div_mod::lemma_mod_bound(i - o.rotation, n as int);
                    vstd::arithmetic::div_mod::lemma_add_mod_noop_right(o.rotation as int, i - o.rotation, n as int);
                    vstd::arithmetic::div_mod::lemma_small_mod(i as nat, n as nat);
                    assert((o.rotation + j) % (n as int) == i);
                }
            }
            if o.fresh() && n > 0 {
                assert(o.work_size() == self.ends[n - 1]);
            }
            if o.fresh() && n == 0 {
                assert(chunks@ =~= chunks_upto(0));
            }
        }
        chunks
    }
}

impl ChunkCounters {
    /// One worker's part of a data-parallel task on the scheduler with one
    /// counter per task: starting from the chunk `first_index` it was given,
    /// the worker handles chunks and takes the next one from the counter
    /// until the counter hands out a value past the last chunk. Returns the
    /// chunks the worker handles, in order.
    pub fn work_loop_single(&mut self, first_index: u32) -> (chunks: Vec<u32>)
        requires
            old(self).wf(),
            old(self).ranges() == 1,
            first_index < old(self).ends[0] ==> old(self).is_claimed(first_index as int),
            first_index < old(self).next[0] < u32::MAX,
            old(self).ends[0] < u32::MAX,
        ensures
            final(self).wf(),
            final(self).starts@ == old(self).starts@,
            final(self).ends@ == old(self).ends@,
            final(self).exhausted(),
            forall|c: int| #[trigger] final(self).is_claimed(c) <==> old(self).is_claimed(c) || occurs(chunks@, c),
            forall|k: int| 1 <= k < chunks.len() ==> !old(self).is_claimed(#[trigger] chunks[k] as int),
            chunks.len() > 0 ==> chunks[0] == first_index,
            forall|k1: int, k2: int| 0 <= k1 < k2 < chunks.len() ==> chunks[k1] != chunks[k2],
            old(self).next[0] == 1 && first_index == 0 ==> chunks@ == chunks_upto(old(self).ends[0] as int),
            first_index >= old(self).ends[0] ==> chunks.len() == 0,
            first_index < old(self).ends[0] ==> chunks@ == seq![first_index] + chunks_between(old(self).next[0] as int, old(self).ends[0] as int),
    {
        let ghost o = *self;
        let mut chunks: Vec<u32> = Vec::new();
        let mut c = first_index;
        let ghost fresh = o.next[0] == 1 && first_index == 0;
        proof {
            if fresh {
                assert(chunks@ =~= chunks_upto(0));
            }
        }
        while c < self.ends[0]
            invariant
                self.wf(),
                self.ranges() == 1,
                self.starts@ == o.starts@,
                self.ends@ == o.ends@,
                self.ends[0] < u32::MAX,
                chunks.len() > 0 ==> self.next[0] == c + 1,
                chunks.len() == 0 ==> self.next@ == o.next@ && c == first_index,
                o.next[0] < u32::MAX,
                first_index < o.next[0],
                c < self.ends[0] ==> self.is_claimed(c as int),
                c < self.ends[0] && chunks.len() > 0 ==> !(o.is_claimed(c as int) || occurs(chunks@, c as int)),
                c < self.ends[0] ==> !occurs(chunks@, c as int),
                self.next[0] > c,
                chunks.len() > 0 ==> chunks[0] == first_index,
                forall|x: int| #[trigger] self.is_claimed(x) <==> o.is_claimed(x) || occurs(chunks@, x)
                    || (x == c && c < self.ends[0] && chunks.len() > 0),
                forall|j: int| 1 <= j < chunks.len() ==> !o.is_claimed(#[trigger] chunks[j] as int),
                forall|j1: int, j2: int| 0 <= j1 < j2 < chunks.len() ==> chunks[j1] != chunks[j2],
                fresh ==> chunks@ == chunks_upto(c as int) && self.next[0] == c + 1 && c <= self.ends[0],
                chunks.len() > 0 ==> first_index < o.ends[0],
                chunks.len() > 0 && c < o.ends[0] ==> chunks@ == seq![first_index] + chunks_between(o.next[0] as int, c as int),
                chunks.len() > 0 && c >= o.ends[0] ==> chunks@ == seq![first_index] + chunks_between(o.next[0] as int, o.ends[0] as int),
                chunks.len() > 0 && c > o.next[0] ==> c <= o.ends[0],
                fresh == (o.next[0] == 1 && first_index == 0),
            decreases (if c < self.ends[0] { self.ends[0] - c } else { 0 }),
        {
            proof {
                assert forall|j: int| 0 <= j < chunks.len() implies chunks[j] != c by {
                    assert(occurs(chunks@, chunks[j] as int));
                }
                assert forall|x: int| occurs(chunks@.push(c), x) <==> occurs(chunks@, x) || x == c by {
                    lemma_occurs_push(chunks@, c, x);
                }
            }
            let ghost previous = chunks@;
            chunks.push(c);
            proof {
                if fresh {
                    assert(chunks@ =~= chunks_upto(c as int + 1));
                }
            }
            let ghost before = *self;
            c = self.fetch_chunk(0);
            proof {
                if previous.len() == 0 {
                    assert(chunks@ =~= seq![first_index] + chunks_between(o.next[0] as int, o.next[0] as int));
                } else {
                    assert(chunks_between(o.next[0] as int, c as int)
                        =~= chunks_between(o.next[0] as int, c - 1).push((c - 1) as u32));
                }
            }
        }
        proof {
            assert forall|x: int| #[trigger] self.is_claimed(x) <==> o.is_claimed(x) || occurs(chunks@, x) by {
                if x == c && c < self.ends[0] {
                }
            }
            if fresh {
                assert(c == self.ends[0]);
            }
        }
        chunks
    }
}

/// A uniformly random index in `0..len`, from rand's thread-local
/// generator (`rand::rng().random_range(0..len)`). Claimed: the result lies
/// in the range; which index comes out is left open.
#[verifier::external_body]
fn random_index(len: usize) -> (r: usize)
    requires
        len > 0,
    ensures
        r < len,
{
    rand::rng().random_range(0..len)
}

/// What a worker does after the last chunk of its current counter was
/// handed out and that counter was removed, `remaining` counters being
/// left: with none left, all work is handed out (`None`); otherwise it
/// continues with a counter picked at random.
pub fn next_counter_after_exhausted(remaining: usize) -> (r: Option<usize>)
    ensures
        remaining == 0 <==> r is None,
        r matches Some(i) ==> i < remaining,
{
    if remaining == 0 {
        None
    } else {
        Some(random_index(remaining))
    }
}

/// Every chunk that is handed out lies in `0..work_size`.
pub proof fn lemma_claimed_in_task(c: ChunkCounters, k: int)
    requires
        c.wf(),
        c.is_claimed(k),
    ensures
        0 <= k < c.work_size(),
{
    let i = choose|i: int| 0 <= i < c.ends.len() && #[trigger] c.starts[i] <= k && k < c.ends[i]
        && k < c.next[i];
    let n = c.ends.len() as int;
    if i < n - 1 {
        assert(c.ends[i] <= c.starts[n - 1]);
    }
    assert(c.starts[0] <= c.starts[i]) by {
        if i > 0 {
            assert(c.ends[0] <= c.starts[i]);
        }
    }
}

/// The range that holds chunk `k`.
proof fn lemma_owner(c: ChunkCounters, k: int, m: int) -> (i: int)
    requires
        c.wf(),
        0 < m <= c.ranges(),
        0 <= k < c.ends[m - 1],
    ensures
        0 <= i < m,
        c.starts[i] <= k < c.ends[i],
    decreases m,
{
    if m == 1 || k >= c.ends[m - 2] {
        if m > 1 {
            assert(c.starts[m - 1] == c.ends[m - 2]);
        }
        m - 1
    } else {
        lemma_owner(c, k, m - 1)
    }
}

/// Once no counter holds chunks any more, every chunk of the task has been
/// handed out.
pub proof fn lemma_exhausted_claims_all(c: ChunkCounters, k: int)
    requires
        c.wf(),
        c.exhausted(),
        0 <= k < c.work_size(),
    ensures
        c.is_claimed(k),
{
    let i = lemma_owner(c, k, c.ranges() as int);
    assert(c.next[i] >= c.ends[i]);
    assert(c.starts[i] <= k && k < c.ends[i] && k < c.next[i]);
}

/// One fetch from range `i`, by whichever thread: the counter of range `i`
/// returned `r` and moved on by one, `b` is what the counters hold after it.
pub open spec fn fetch_step(a: ChunkCounters, i: int, r: u32, b: ChunkCounters) -> bool {
    &&& 0 <= i < a.ranges()
    &&& a.next[i] < u32::MAX
    &&& r == a.next[i]
    &&& b.next@ == a.next@.update(i, (r + 1) as u32)
    &&& b.starts@ == a.starts@
    &&& b.ends@ == a.ends@
    &&& b.rotation == a.rotation
}

/// A run of fetches, in the order in which the counters took them (the
/// atomic additions of all threads, interleaved in any way): fetch `k` is
/// taken from range `ranges[k]` in state `states[k]`, returns `results[k]`
/// and leaves `states[k + 1]`.
pub open spec fn fetch_run(states: Seq<ChunkCounters>, ranges: Seq<int>, results: Seq<u32>) -> bool {
    &&& states.len() == ranges.len() + 1
    &&& results.len() == ranges.len()
    &&& forall|k: int| 0 <= k < ranges.len() ==> #[trigger] fetch_step(states[k], ranges[k], results[k], states[k + 1])
}

/// Fetch `k` of a run handed out a chunk of the task (its counter had not
/// yet reached the end of its range).
pub open spec fn hands_out(states: Seq<ChunkCounters>, ranges: Seq<int>, results: Seq<u32>, k: int) -> bool {
    results[k] < states[k].ends[ranges[k]]
}

proof fn lemma_fetch_claims(a: ChunkCounters, i: int, r: u32, b: ChunkCounters)
    requires
        a.wf(),
        fetch_step(a, i, r, b),
    ensures
        b.wf(),
        r < a.ends[i] ==> !a.is_claimed(r as int),
        forall|c: int| #[trigger] b.is_claimed(c) <==> a.is_claimed(c) || (c == r && r < a.ends[i]),
{
    if r < a.ends[i] && a.is_claimed(r as int) {
        let j = choose|j: int| 0 <= j < a.ends.len() && #[trigger] a.starts[j] <= r && r < a.ends[j] && r < a.next[j];
        if j < i {
            assert(a.ends[j] <= a.starts[i]);
        } else if j > i {
            assert(a.ends[i] <= a.starts[j]);
        }
    }
    assert forall|c: int| #[trigger] b.is_claimed(c) <==> a.is_claimed(c) || (c == r && r < a.ends[i]) by {
        if b.is_claimed(c) {
            let j = choose|j: int| 0 <= j < b.ends.len() && #[trigger] b.starts[j] <= c && c < b.ends[j] && c < b.next[j];
            if j != i || c < r {
                assert(a.starts[j] <= c && c < a.ends[j] && c < a.next[j]);
            }
        }
        if a.is_claimed(c) {
            let j = choose|j: int| 0 <= j < a.ends.len() && #[trigger] a.starts[j] <= c && c < a.ends[j] && c < a.next[j];
            assert(b.starts[j] <= c && c < b.ends[j] && c < b.next[j]);
        }
        if c == r && r < a.ends[i] {
            assert(b.starts[i] <= c && c < b.ends[i] && c < b.next[i]);
        }
    }
}

proof fn lemma_run_claims(states: Seq<ChunkCounters>, ranges: Seq<int>, results: Seq<u32>, k: int)
    requires
        states[0].wf(),
        fetch_run(states, ranges, results),
        0 <= k <= ranges.len(),
    ensures
        states[k].wf(),
        states[k].ends@ == states[0].ends@,
        states[k].starts@ == states[0].starts@,
        forall|c: int| #[trigger] states[k].is_claimed(c) <==> states[0].is_claimed(c) || exists|m: int|
            0 <= m < k && hands_out(states, ranges, results, m) && #[trigger] results[m] == c,
    decreases k,
{
    if k > 0 {
        lemma_run_claims(states, ranges, results, k - 1);
        let j = k - 1;
        assert(fetch_step(states[j], ranges[j], results[j], states[j + 1]));
        assert(j + 1 == k);
        lemma_fetch_claims(states[k - 1], ranges[k - 1], results[k - 1], states[k]);
        assert forall|c: int| #[trigger] states[k].is_claimed(c) <==> states[0].is_claimed(c) || exists|m: int|
            0 <= m < k && hands_out(states, ranges, results, m) && #[trigger] results[m] == c by {
            if states[k].is_claimed(c) && !states[0].is_claimed(c) {
                if states[k - 1].is_claimed(c) {
                    let m = choose|m: int| 0 <= m < k - 1 && hands_out(states, ranges, results, m) && #[trigger] results[m] == c;
                    assert(0 <= m < k && hands_out(states, ranges, results, m) && results[m] == c);
                } else {
                    assert(hands_out(states, ranges, results, k - 1) && results[k - 1] == c);
                }
            }
            if exists|m: int| 0 <= m < k && hands_out(states, ranges, results, m) && #[trigger] results[m] == c {
                let m = choose|m: int| 0 <= m < k && hands_out(states, ranges, results, m) && #[trigger] results[m] == c;
                if m < k - 1 {
                    assert(states[k - 1].is_claimed(c));
                }
            }
        }
    }
}

/// However the threads' fetches interleave, no chunk is handed out twice:
/// a fetch of a run hands out only a chunk that was not handed out before
/// the run, and two fetches of one run that both hand out a chunk hand out
/// different chunks.
pub proof fn lemma_chunks_handed_out_once(states: Seq<ChunkCounters>, ranges: Seq<int>, results: Seq<u32>, x: int, y: int)
    requires
        states[0].wf(),
        fetch_run(states, ranges, results),
        0 <= x < y < ranges.len(),
        hands_out(states, ranges, results, x),
        hands_out(states, ranges, results, y),
    ensures
        results[x] != results[y],
        !states[0].is_claimed(results[x] as int),
        !states[0].is_claimed(results[y] as int),
{
    lemma_new_chunk(states, ranges, results, x);
    lemma_new_chunk(states, ranges, results, y);
    lemma_run_claims(states, ranges, results, y);
    assert(fetch_step(states[y], ranges[y], results[y], states[y + 1]));
    lemma_fetch_claims(states[y], ranges[y], results[y], states[y + 1]);
    if results[x] == results[y] {
        assert(states[y].is_claimed(results[y] as int));
    }
}

proof fn lemma_new_chunk(states: Seq<ChunkCounters>, ranges: Seq<int>, results: Seq<u32>, x: int)
    requires
        states[0].wf(),
        fetch_run(states, ranges, results),
        0 <= x < ranges.len(),
        hands_out(states, ranges, results, x),
    ensures
        !states[0].is_claimed(results[x] as int),
{
    lemma_run_claims(states, ranges, results, x);
    assert(fetch_step(states[x], ranges[x], results[x], states[x + 1]));
    lemma_fetch_claims(states[x], ranges[x], results[x], states[x + 1]);
}

/// However the threads' fetches interleave, once the counters are exhausted
/// every chunk `0..work_size` was either handed out before the run or by
/// some fetch of it.
pub proof fn lemma_exhausted_run_hands_out_all(states: Seq<ChunkCounters>, ranges: Seq<int>, results: Seq<u32>, c: int)
    requires
        states[0].wf(),
        fetch_run(states, ranges, results),
        states.last().exhausted(),
        0 <= c < states[0].work_size(),
    ensures
        states[0].is_claimed(c)
            || exists|m: int| 0 <= m < ranges.len() && hands_out(states, ranges, results, m) && #[trigger] results[m] == c,
{
    let n = ranges.len() as int;
    lemma_run_claims(states, ranges, results, n);
    assert(states[n] == states.last());
    assert(states[n].work_size() == states[0].work_size());
    lemma_exhausted_claims_all(states[n], c);
}

/// Counters that start fresh have handed out nothing.
pub proof fn lemma_fresh_claims_nothing(c: ChunkCounters, k: int)
    requires
        c.wf(),
        c.fresh(),
    ensures
        !c.is_claimed(k),
{
    if c.is_claimed(k) {
        let j = choose|j: int| 0 <= j < c.ends.len() && #[trigger] c.starts[j] <= k && k < c.ends[j] && k < c.next[j];
        assert(c.next[j] == c.starts[j]);
    }
}

/// Some fetch of a run handed out chunk `c`.
pub open spec fn handed_out_by_run(states: Seq<ChunkCounters>, ranges: Seq<int>, results: Seq<u32>, c: int) -> bool {
    exists|m: int| 0 <= m < ranges.len() && hands_out(states, ranges, results, m) && #[trigger] results[m] == c
}

/// The counters of the single-counter scheduler as `new_dataparallel_single`
/// makes them: chunk 0 belongs to the worker that starts the task.
pub open spec fn first_chunk_taken(c: ChunkCounters, work_size: u32) -> bool {
    &&& c.wf()
    &&& c.ranges() == 1
    &&& c.starts[0] == 0
    &&& c.ends[0] == work_size
    &&& c.next[0] == 1
}

/// For the scheduler whose starting worker takes chunk 0 itself, however
/// the other threads' fetches interleave: the fetches hand out chunks other
/// than 0, none twice, and once the counter is exhausted they have handed
/// out every chunk `1..work_size`. With chunk 0 done by the starting
/// worker, every chunk of the task is worked on exactly once.
pub proof fn lemma_first_taken_run(states: Seq<ChunkCounters>, ranges: Seq<int>, results: Seq<u32>, work_size: u32)
    requires
        work_size >= 1,
        first_chunk_taken(states[0], work_size),
        fetch_run(states, ranges, results),
    ensures
        forall|x: int| 0 <= x < ranges.len() && hands_out(states, ranges, results, x) ==> #[trigger] results[x] != 0,
        forall|x: int, y: int| 0 <= x < y < ranges.len() && hands_out(states, ranges, results, x)
            && hands_out(states, ranges, results, y) ==> #[trigger] results[x] != #[trigger] results[y],
        states.last().exhausted() ==> forall|c: int| 1 <= c < work_size ==> #[trigger] handed_out_by_run(states, ranges, results, c),
{
    let c0 = states[0];
    assert(c0.is_claimed(0)) by {
        assert(c0.starts[0] <= 0 && 0 < c0.ends[0] && 0 < c0.next[0]);
    }
    assert forall|x: int| 0 <= x < ranges.len() && hands_out(states, ranges, results, x) implies #[trigger] results[x] != 0 by {
        lemma_new_chunk(states, ranges, results, x);
    }
    assert forall|x: int, y: int| 0 <= x < y < ranges.len() && hands_out(states, ranges, results, x)
        && hands_out(states, ranges, results, y) implies #[trigger] results[x] != #[trigger] results[y] by {
        lemma_chunks_handed_out_once(states, ranges, results, x, y);
    }
    if states.last().exhausted() {
        assert forall|c: int| 1 <= c < work_size implies #[trigger] handed_out_by_run(states, ranges, results, c) by {
            assert(c0.work_size() == work_size);
            lemma_exhausted_run_hands_out_all(states, ranges, results, c);
            if c0.is_claimed(c) {
                let j = choose|j: int| 0 <= j < c0.ends.len() && #[trigger] c0.starts[j] <= c && c < c0.ends[j] && c < c0.next[j];
                assert(j == 0);
            }
        }
    }
}

/// Some fetch of a run from range `i` came back at or past the end of the
/// range.
pub open spec fn came_back_empty(states: Seq<ChunkCounters>, ranges: Seq<int>, results: Seq<u32>, i: int) -> bool {
    exists|m: int| 0 <= m < ranges.len() && #[trigger] ranges[m] == i && !hands_out(states, ranges, results, m)
}

/// However the threads' fetches interleave: once every range has had a
/// fetch that came back empty (at or past the end of its range), as each
/// thread's loop sees before it stops, the counters are exhausted.
pub proof fn lemma_empty_fetches_exhaust(states: Seq<ChunkCounters>, ranges: Seq<int>, results: Seq<u32>)
    requires
        states[0].wf(),
        fetch_run(states, ranges, results),
        forall|i: int| 0 <= i < states[0].ranges() ==> #[trigger] came_back_empty(states, ranges, results, i),
    ensures
        states.last().exhausted(),
{
    let n = ranges.len() as int;
    lemma_run_claims(states, ranges, results, n);
    assert(states[n] == states.last());
    assert forall|i: int| 0 <= i < states[n].ends.len() implies #[trigger] states[n].next[i] >= states[n].ends[i] by {
        assert(came_back_empty(states, ranges, results, i));
        let m = choose|m: int| 0 <= m < ranges.len() && #[trigger] ranges[m] == i && !hands_out(states, ranges, results, m);
        lemma_run_claims(states, ranges, results, m);
        assert(fetch_step(states[m], ranges[m], results[m], states[m + 1]));
        lemma_next_grows(states, ranges, results, m + 1, n, i);
    }
}

proof fn lemma_next_grows(states: Seq<ChunkCounters>, ranges: Seq<int>, results: Seq<u32>, j: int, k: int, i: int)
    requires
        states[0].wf(),
        fetch_run(states, ranges, results),
        0 <= j <= k <= ranges.len(),
        0 <= i < states[j].next.len(),
    ensures
        states[k].next.len() == states[j].next.len(),
        states[k].next[i] >= states[j].next[i],
    decreases k - j,
{
    if j < k {
        assert(fetch_step(states[j], ranges[j], results[j], states[j + 1]));
        lemma_run_claims(states, ranges, results, j);
        let a = states[j];
        let b = states[j + 1];
        assert(b.next@ == a.next@.update(ranges[j], (results[j] + 1) as u32));
        assert(b.next@.len() == a.next@.len());
        assert(b.next@[i] >= a.next@[i]);
        lemma_next_grows(states, ranges, results, j + 1, k, i);
    }
}

proof fn lemma_total_push(s: Seq<u32>, v: u32)
    ensures
        total(s.push(v)) == total(s) + v,
{
    assert(s.push(v).drop_last() =~= s);
}

proof fn lemma_total_take_monotone(s: Seq<u32>, i: int, j: int)
    requires
        0 <= i <= j <= s.len(),
    ensures
        total(s.take(i)) <= total(s.take(j)),
    decreases j - i,
{
    if i < j {
        lemma_total_take_monotone(s, i, j - 1);
        assert(s.take(j) =~= s.take(j - 1).push(s[j - 1]));
        lemma_total_push(s.take(j - 1), s[j - 1]);
    }
}

} // verus!
