use vstd::prelude::*;

verus! {

/// Number of elements of one block of the scan and compaction kernels.
pub const BLOCK_SIZE: u64 = 4096;

/// A block has published nothing yet.
pub const STATE_INITIALIZED: u64 = 0;

/// A block has published its own total (its aggregate).
pub const STATE_AGGREGATE_AVAILABLE: u64 = 1;

/// A block has published the total of itself and all blocks before it (its
/// inclusive prefix).
pub const STATE_PREFIX_AVAILABLE: u64 = 2;

/// What one block of a scan or compaction has published for the blocks
/// after it.
pub struct BlockInfo {
    pub state: u64,
    pub aggregate: usize,
    pub prefix: usize,
}

/// The number of blocks of `block_size` elements that cover `size`
/// elements.
pub open spec fn block_count(size: int, block_size: int) -> int {
    (size + block_size - 1) / block_size
}

proof fn lemma_block_count_bounded(size: int, block_size: int)
    requires
        size >= 0,
        block_size >= 1,
    ensures
        0 <= block_count(size, block_size) <= size,
{
    assert(0 <= (size + block_size - 1) / block_size <= size) by (nonlinear_arith)
        requires size >= 0, block_size >= 1;
}

/// A block that has published nothing.
pub open spec fn is_initialized(b: BlockInfo) -> bool {
    b.state == STATE_INITIALIZED && b.aggregate == 0 && b.prefix == 0
}

fn initial_blocks(count: u64) -> (temp: Vec<BlockInfo>)
    requires
        count <= usize::MAX,
    ensures
        temp.len() == count,
        forall|i: int| 0 <= i < temp.len() ==> is_initialized(#[trigger] temp[i]),
{
    let mut temp: Vec<BlockInfo> = Vec::new();
    let mut i: u64 = 0;
    while i < count
        invariant
            i <= count,
            count <= usize::MAX,
            temp.len() == i,
            forall|k: int| 0 <= k < temp.len() ==> is_initialized(#[trigger] temp[k]),
        decreases count - i,
    {
        temp.push(BlockInfo { state: STATE_INITIALIZED, aggregate: 0, prefix: 0 });
        i = i + 1;
    }
    temp
}

/// The per-block bookkeeping for a scan or compaction of `size` elements
/// in blocks of `BLOCK_SIZE`, with nothing published.
pub fn create_temp(size: usize) -> (temp: Vec<BlockInfo>)
    requires
        size + BLOCK_SIZE - 1 <= u64::MAX,
    ensures
        temp.len() == block_count(size as int, BLOCK_SIZE as int),
        forall|i: int| 0 <= i < temp.len() ==> is_initialized(#[trigger] temp[i]),
{
    let s = size as u64;
    assert(s == size);
    let count = (s + (BLOCK_SIZE - 1)) / BLOCK_SIZE;
    proof {
        lemma_block_count_bounded(size as int, BLOCK_SIZE as int);
    }
    initial_blocks(count)
}

/// The same for a scheduler that cuts every block into `chunk_size` chunks:
/// blocks of `BLOCK_SIZE / chunk_size` elements.
pub fn create_temp_scheduler(size: usize, chunk_size: usize) -> (temp: Vec<BlockInfo>)
    requires
        0 < chunk_size <= BLOCK_SIZE,
        size + (BLOCK_SIZE / chunk_size as u64) - 1 <= u64::MAX,
    ensures
        temp.len() == block_count(size as int, (BLOCK_SIZE / chunk_size as u64) as int),
        forall|i: int| 0 <= i < temp.len() ==> is_initialized(#[trigger] temp[i]),
{
    let block_size: u64 = BLOCK_SIZE / chunk_size as u64;
    proof {
        assert(1 <= block_size <= BLOCK_SIZE) by (nonlinear_arith)
            requires block_size == BLOCK_SIZE / chunk_size as u64, 0 < chunk_size <= BLOCK_SIZE;
    }
    let s = size as u64;
    assert(s == size);
    let count = (s + (block_size - 1)) / block_size;
    proof {
        lemma_block_count_bounded(size as int, block_size as int);
    }
    initial_blocks(count)
}

/// Clears what every block has published.
pub fn reset(temp: &mut Vec<BlockInfo>)
    ensures
        final(temp).len() == old(temp).len(),
        forall|i: int| 0 <= i < final(temp).len() ==> is_initialized(#[trigger] final(temp)[i]),
{
    let n = temp.len();
    for i in 0..n
        invariant
            temp.len() == n,
            forall|k: int| 0 <= k < i ==> is_initialized(#[trigger] temp[k]),
    {
        temp.set(i, BlockInfo { state: STATE_INITIALIZED, aggregate: 0, prefix: 0 });
    }
}


/// The sum of the aggregates published by blocks `lo..hi`.
pub open spec fn agg_sum(temp: Seq<BlockInfo>, lo: int, hi: int) -> int
    decreases hi - lo,
{
    if hi <= lo {
        0
    } else {
        agg_sum(temp, lo, hi - 1) + temp[hi - 1].aggregate
    }
}

/// The sum of `locals[lo..hi]`.
pub open spec fn local_sum(locals: Seq<int>, lo: int, hi: int) -> int
    decreases hi - lo,
{
    if hi <= lo {
        0
    } else {
        local_sum(locals, lo, hi - 1) + locals[hi - 1]
    }
}

/// Every block after `k` up to and including `previous` has published its
/// aggregate.
pub open spec fn aggregates_between(temp: Seq<BlockInfo>, k: int, previous: int) -> bool {
    forall|j: int| k < j <= previous ==> #[trigger] temp[j].state == STATE_AGGREGATE_AVAILABLE
}

/// What the blocks have published agrees with the blocks' own totals
/// `locals`: a published aggregate is the block's own total, a published
/// prefix is the total of the block and all blocks before it.
pub open spec fn consistent(temp: Seq<BlockInfo>, locals: Seq<int>) -> bool {
    &&& locals.len() == temp.len()
    &&& forall|j: int| 0 <= j < temp.len() && temp[j].state == STATE_AGGREGATE_AVAILABLE
            ==> #[trigger] temp[j].aggregate == locals[j]
    &&& forall|j: int| 0 <= j < temp.len() && temp[j].state == STATE_PREFIX_AVAILABLE
            ==> #[trigger] temp[j].prefix == local_sum(locals, 0, j + 1)
}

/// Walking back from `previous` with running total `acc` adds no value that
/// overflows a `usize`.
pub open spec fn walk_fits(temp: Seq<BlockInfo>, previous: int, acc: int) -> bool {
    &&& acc + agg_sum(temp, 0, previous + 1) <= usize::MAX
    &&& forall|k: int| 0 <= k <= previous ==> acc + #[trigger] temp[k].prefix + agg_sum(temp, k + 1, previous + 1) <= usize::MAX
}

/// The outcome of walking back over the blocks before a block.
pub enum LookBack {
    /// The total of all blocks before the block.
    Found(usize),
    /// Block `previous` has published nothing yet; the blocks after it have
    /// contributed `aggregate`. The walk goes on from here later.
    Wait { previous: u32, aggregate: usize },
}

proof fn lemma_agg_sum_le(temp: Seq<BlockInfo>, lo: int, mid: int, hi: int)
    requires
        lo <= mid <= hi,
    ensures
        agg_sum(temp, mid, hi) <= agg_sum(temp, lo, hi),
        agg_sum(temp, lo, hi) == agg_sum(temp, lo, mid) + agg_sum(temp, mid, hi),
        agg_sum(temp, lo, mid) >= 0,
    decreases hi - mid,
{
    if mid < hi {
        lemma_agg_sum_le(temp, lo, mid, hi - 1);
    } else {
        lemma_agg_sum_nonneg(temp, lo, mid);
    }
}

proof fn lemma_agg_sum_nonneg(temp: Seq<BlockInfo>, lo: int, hi: int)
    ensures
        agg_sum(temp, lo, hi) >= 0,
    decreases hi - lo,
{
    if lo < hi {
        lemma_agg_sum_nonneg(temp, lo, hi - 1);
    }
}

proof fn lemma_agg_sum_is_local_sum(temp: Seq<BlockInfo>, locals: Seq<int>, k: int, previous: int)
    requires
        consistent(temp, locals),
        -1 <= k <= previous < temp.len(),
        aggregates_between(temp, k, previous),
    ensures
        agg_sum(temp, k + 1, previous + 1) == local_sum(locals, k + 1, previous + 1),
    decreases previous - k,
{
    if k < previous {
        lemma_agg_sum_is_local_sum(temp, locals, k, previous - 1);
        assert(temp[previous].state == STATE_AGGREGATE_AVAILABLE);
    }
}

proof fn lemma_local_sum_split(locals: Seq<int>, lo: int, mid: int, hi: int)
    requires
        lo <= mid <= hi,
    ensures
        local_sum(locals, lo, hi) == local_sum(locals, lo, mid) + local_sum(locals, mid, hi),
    decreases hi - mid,
{
    if mid < hi {
        lemma_local_sum_split(locals, lo, mid, hi - 1);
    }
}

/// Walks back from block `previous` over blocks that have published their
/// aggregate, adding them to `aggregate`, until it meets a block that has
/// published its prefix (the walk is then complete) or one that has
/// published nothing (the walk waits there).
pub fn look_back(temp: &Vec<BlockInfo>, previous: u32, aggregate: usize) -> (r: LookBack)
    requires
        previous < temp.len(),
        temp[0].state != STATE_AGGREGATE_AVAILABLE,
        walk_fits(temp@, previous as int, aggregate as int),
    ensures
        match r {
            LookBack::Found(a) => exists|k: int|
                0 <= k <= previous && #[trigger] temp[k].state == STATE_PREFIX_AVAILABLE
                    && aggregates_between(temp@, k, previous as int)
                    && a == aggregate + temp[k].prefix + agg_sum(temp@, k + 1, previous + 1),
            LookBack::Wait { previous: p, aggregate: b } =>
                p <= previous && temp[p as int].state != STATE_PREFIX_AVAILABLE
                    && temp[p as int].state != STATE_AGGREGATE_AVAILABLE
                    && aggregates_between(temp@, p as int, previous as int)
                    && b == aggregate + agg_sum(temp@, p + 1, previous + 1),
        },
        forall|locals: Seq<int>| #[trigger] consistent(temp@, locals) ==> match r {
            LookBack::Found(a) => a == aggregate + local_sum(locals, 0, previous + 1),
            LookBack::Wait { previous: p, aggregate: b } => b == aggregate + local_sum(locals, p + 1, previous + 1),
        },
{
    let ghost p0 = previous as int;
    let ghost acc0 = aggregate as int;
    let mut prev = previous;
    let mut acc = aggregate;
    proof {
        assert(aggregates_between(temp@, p0, p0));
    }
    loop
        invariant
            prev <= p0 < temp.len(),
            p0 == previous,
            acc0 == aggregate,
            temp[0].state != STATE_AGGREGATE_AVAILABLE,
            walk_fits(temp@, p0, acc0),
            aggregates_between(temp@, prev as int, p0),
            acc == acc0 + agg_sum(temp@, prev + 1, p0 + 1),
        decreases prev,
    {
        let state = temp[prev as usize].state;
        if state == STATE_PREFIX_AVAILABLE {
            proof {
                lemma_agg_sum_le(temp@, prev as int + 1, prev as int + 1, p0 + 1);
                assert(acc0 + temp[prev as int].prefix + agg_sum(temp@, prev + 1, p0 + 1) <= usize::MAX);
                assert forall|locals: Seq<int>| #[trigger] consistent(temp@, locals) implies
                    temp[prev as int].prefix + acc == acc0 + local_sum(locals, 0, p0 + 1) by {
                    lemma_agg_sum_is_local_sum(temp@, locals, prev as int, p0);
                    lemma_local_sum_split(locals, 0, prev as int + 1, p0 + 1);
                }
            }
            let total = temp[prev as usize].prefix + acc;
            proof {
                let k = prev as int;
                assert(0 <= k <= p0 && temp[k].state == STATE_PREFIX_AVAILABLE
                    && aggregates_between(temp@, k, p0)
                    && total == acc0 + temp[k].prefix + agg_sum(temp@, k + 1, p0 + 1));
            }
            return LookBack::Found(total);
        } else if state == STATE_AGGREGATE_AVAILABLE {
            proof {
                lemma_agg_sum_le(temp@, 0, prev as int, p0 + 1);
                assert(agg_sum(temp@, prev as int, p0 + 1) == temp[prev as int].aggregate
                    + agg_sum(temp@, prev + 1, p0 + 1)) by {
                    lemma_agg_sum_le(temp@, prev as int, prev as int + 1, p0 + 1);
                    assert(agg_sum(temp@, prev as int, prev as int) == 0);
                    assert(agg_sum(temp@, prev as int, prev as int + 1) == temp[prev as int].aggregate);
                }
            }
            acc = temp[prev as usize].aggregate + acc;
            prev = prev - 1;
        } else {
            proof {
                assert forall|locals: Seq<int>| #[trigger] consistent(temp@, locals) implies
                    acc == acc0 + local_sum(locals, prev + 1, p0 + 1) by {
                    lemma_agg_sum_is_local_sum(temp@, locals, prev as int, p0);
                }
            }
            return LookBack::Wait { previous: prev, aggregate: acc };
        }
    }
}


/// The value that block `block_index` starts from, when it is known without
/// waiting: the worker still goes through its blocks in order and either the
/// block is the first one or the block before it has published its prefix.
pub fn aggregate_start(sequential: bool, block_index: u32, temp: &Vec<BlockInfo>) -> (r: Option<usize>)
    requires
        block_index <= temp.len(),
    ensures
        r == (if !sequential {
            None
        } else if block_index == 0 {
            Some(0usize)
        } else if temp[block_index - 1].state == STATE_PREFIX_AVAILABLE {
            Some(temp[block_index - 1].prefix)
        } else {
            None
        }),
        forall|locals: Seq<int>| #[trigger] consistent(temp@, locals) ==> (r matches Some(x) ==> x == local_sum(locals, 0, block_index as int)),
{
    if !sequential {
        None
    } else if block_index == 0 {
        Some(0)
    } else {
        let previous = block_index - 1;
        if temp[previous as usize].state == STATE_PREFIX_AVAILABLE {
            Some(temp[previous as usize].prefix)
        } else {
            None
        }
    }
}

/// Block `block_index` publishes its own total.
pub fn publish_aggregate(temp: &mut Vec<BlockInfo>, block_index: u32, local: usize)
    requires
        block_index < old(temp).len(),
    ensures
        final(temp)@ == old(temp)@.update(block_index as int, BlockInfo {
            state: STATE_AGGREGATE_AVAILABLE,
            aggregate: local,
            prefix: old(temp)[block_index as int].prefix,
        }),
        forall|locals: Seq<int>| #[trigger] consistent(old(temp)@, locals) && locals[block_index as int] == local
            ==> consistent(final(temp)@, locals),
{
    let prefix = temp[block_index as usize].prefix;
    temp.set(block_index as usize, BlockInfo { state: STATE_AGGREGATE_AVAILABLE, aggregate: local, prefix });
}

/// Block `block_index` publishes the total of itself and all blocks before
/// it.
pub fn publish_prefix(temp: &mut Vec<BlockInfo>, block_index: u32, prefix: usize)
    requires
        block_index < old(temp).len(),
    ensures
        final(temp)@ == old(temp)@.update(block_index as int, BlockInfo {
            state: STATE_PREFIX_AVAILABLE,
            aggregate: old(temp)[block_index as int].aggregate,
            prefix,
        }),
        forall|locals: Seq<int>| #[trigger] consistent(old(temp)@, locals)
            && prefix == local_sum(locals, 0, block_index + 1) ==> consistent(final(temp)@, locals),
{
    let aggregate = temp[block_index as usize].aggregate;
    temp.set(block_index as usize, BlockInfo { state: STATE_PREFIX_AVAILABLE, aggregate, prefix });
}


/// Blocks that have published nothing agree with any block totals.
pub proof fn lemma_initialized_consistent(temp: Seq<BlockInfo>, locals: Seq<int>)
    requires
        forall|i: int| 0 <= i < temp.len() ==> is_initialized(#[trigger] temp[i]),
        locals.len() == temp.len(),
    ensures
        consistent(temp, locals),
{
}

/// Two tables of the same length in which no block has published anything
/// are equal: a reset table equals a freshly created one of the same block
/// count, and resetting it again changes nothing.
pub proof fn lemma_reset_is_fresh(a: Seq<BlockInfo>, b: Seq<BlockInfo>)
    requires
        a.len() == b.len(),
        forall|i: int| 0 <= i < a.len() ==> is_initialized(#[trigger] a[i]),
        forall|i: int| 0 <= i < b.len() ==> is_initialized(#[trigger] b[i]),
    ensures
        a == b,
{
    assert forall|i: int| 0 <= i < a.len() implies a[i] == b[i] by {
        assert(is_initialized(a[i]) && is_initialized(b[i]));
    }
    assert(a =~= b);
}

/// What a worker does first with a block of a scan or compaction.
pub enum BlockAction {
    /// The total of all blocks before this one is known: scan the block
    /// starting from it, then publish the block's prefix.
    ScanFrom(usize),
    /// Count the block, publish its aggregate and walk back over the blocks
    /// before it (`resume_block`).
    CountThenLookBack,
}

/// Decides how a worker handles block `block_index`: while it still goes
/// through its blocks in order (`sequential`), and the block is the first
/// one or the block before it has published its prefix, it scans from that
/// prefix; otherwise it counts and walks back.
pub fn block_step(sequential: bool, block_index: u32, temp: &Vec<BlockInfo>) -> (a: BlockAction)
    requires
        block_index < temp.len(),
        !sequential ==> block_index > 0,
    ensures
        a == (match aggregate_start_spec(sequential, block_index, temp@) {
            Some(x) => BlockAction::ScanFrom(x),
            None => BlockAction::CountThenLookBack,
        }),
        a is CountThenLookBack ==> block_index > 0,
        forall|locals: Seq<int>| #[trigger] consistent(temp@, locals)
            ==> (a matches BlockAction::ScanFrom(x) ==> x == local_sum(locals, 0, block_index as int)),
{
    match aggregate_start(sequential, block_index, temp) {
        Some(x) => BlockAction::ScanFrom(x),
        None => BlockAction::CountThenLookBack,
    }
}

/// See `aggregate_start`.
pub open spec fn aggregate_start_spec(sequential: bool, block_index: u32, temp: Seq<BlockInfo>) -> Option<usize> {
    if !sequential {
        None
    } else if block_index == 0 {
        Some(0usize)
    } else if temp[block_index - 1].state == STATE_PREFIX_AVAILABLE {
        Some(temp[block_index - 1].prefix)
    } else {
        None
    }
}

/// Block `block_index`, whose own total `local` is published as its
/// aggregate, walks back from block `previous` with running total
/// `aggregate`. When the walk completes with the total `a` of all blocks
/// before it, the block publishes its prefix `a + local` and `Found(a)` is
/// returned: the block is then scanned from `a`. Otherwise the table is
/// left as it was and the walk resumes later from where it waits.
pub fn resume_block(temp: &mut Vec<BlockInfo>, block_index: u32, local: usize, previous: u32, aggregate: usize) -> (r: LookBack)
    requires
        previous < block_index < old(temp).len(),
        old(temp)[0].state != STATE_AGGREGATE_AVAILABLE,
        walk_fits(old(temp)@, previous as int, aggregate as int + local),
    ensures
        match r {
            LookBack::Found(a) => final(temp)@ == old(temp)@.update(block_index as int, BlockInfo {
                state: STATE_PREFIX_AVAILABLE,
                aggregate: old(temp)[block_index as int].aggregate,
                prefix: (a + local) as usize,
            }),
            LookBack::Wait { .. } => final(temp)@ == old(temp)@,
        },
        forall|locals: Seq<int>| #[trigger] consistent(old(temp)@, locals)
            && locals[block_index as int] == local
            && aggregate == local_sum(locals, previous + 1, block_index as int) ==> match r {
                LookBack::Found(a) => a == local_sum(locals, 0, block_index as int)
                    && consistent(final(temp)@, locals),
                LookBack::Wait { previous: p, aggregate: b } => b == local_sum(locals, p + 1, block_index as int),
            },
{
    proof {
        lemma_walk_fits_less(old(temp)@, previous as int, aggregate as int, local as int);
    }
    let r = look_back(temp, previous, aggregate);
    match r {
        LookBack::Found(a) => {
            proof {
                let t = temp@;
                let k = choose|k: int| 0 <= k <= previous && #[trigger] t[k].state == STATE_PREFIX_AVAILABLE
                    && aggregates_between(t, k, previous as int)
                    && a == aggregate + t[k].prefix + agg_sum(t, k + 1, previous + 1);
                assert(a + local <= usize::MAX) by {
                    assert(aggregate + local + t[k].prefix + agg_sum(t, k + 1, previous + 1) <= usize::MAX);
                }
                assert forall|locals: Seq<int>| #[trigger] consistent(t, locals)
                    && locals[block_index as int] == local
                    && aggregate == local_sum(locals, previous + 1, block_index as int)
                    implies a + local == local_sum(locals, 0, block_index + 1) by {
                    assert(a == aggregate + local_sum(locals, 0, previous + 1));
                    lemma_local_sum_split(locals, 0, previous + 1, block_index as int);
                }
            }
            publish_prefix(temp, block_index, a + local);
            proof {
                assert forall|locals: Seq<int>| #[trigger] consistent(old(temp)@, locals)
                    && locals[block_index as int] == local
                    && aggregate == local_sum(locals, previous + 1, block_index as int)
                    implies a == local_sum(locals, 0, block_index as int) by {
                    assert(a == aggregate + local_sum(locals, 0, previous + 1));
                    lemma_local_sum_split(locals, 0, previous + 1, block_index as int);
                }
            }
        },
        LookBack::Wait { previous: p, aggregate: b } => {
            proof {
                assert forall|locals: Seq<int>| #[trigger] consistent(old(temp)@, locals)
                    && locals[block_index as int] == local
                    && aggregate == local_sum(locals, previous + 1, block_index as int)
                    implies b == local_sum(locals, p + 1, block_index as int) by {
                    assert(b == aggregate + local_sum(locals, p + 1, previous + 1));
                    lemma_local_sum_split(locals, p + 1, previous + 1, block_index as int);
                }
            }
        },
    }
    r
}

proof fn lemma_walk_fits_less(temp: Seq<BlockInfo>, previous: int, acc: int, extra: int)
    requires
        extra >= 0,
        walk_fits(temp, previous, acc + extra),
    ensures
        walk_fits(temp, previous, acc),
{
}

/// How far a block has got: nothing published, its aggregate, its prefix.
pub open spec fn state_rank(state: u64) -> int {
    if state == STATE_PREFIX_AVAILABLE {
        2
    } else if state == STATE_AGGREGATE_AVAILABLE {
        1
    } else {
        0
    }
}

/// One publication by the worker that handles a block.
pub enum Publication {
    /// `publish_aggregate(block, local)`.
    Aggregate(u32, usize),
    /// `publish_prefix(block, prefix)`.
    Prefix(u32, usize),
}

/// A publication as the protocol makes it, with the values it publishes
/// right for the block totals `locals`: a block publishes its aggregate,
/// its own total, only before it has published anything, and its prefix,
/// the total of itself and all blocks before it, only once. `t` is the
/// table before, `u` after (as `publish_aggregate` and `publish_prefix`
/// state it).
pub open spec fn publish_step(t: Seq<BlockInfo>, op: Publication, u: Seq<BlockInfo>, locals: Seq<int>) -> bool {
    match op {
        Publication::Aggregate(b, local) => {
            &&& b < t.len()
            &&& t[b as int].state == STATE_INITIALIZED
            &&& local == locals[b as int]
            &&& u == t.update(b as int, BlockInfo { state: STATE_AGGREGATE_AVAILABLE, aggregate: local, prefix: t[b as int].prefix })
        },
        Publication::Prefix(b, prefix) => {
            &&& b < t.len()
            &&& t[b as int].state != STATE_PREFIX_AVAILABLE
            &&& prefix == local_sum(locals, 0, b + 1)
            &&& u == t.update(b as int, BlockInfo { state: STATE_PREFIX_AVAILABLE, aggregate: t[b as int].aggregate, prefix })
        },
    }
}

/// The block that a publication is about.
pub open spec fn publication_block(op: Publication) -> int {
    match op {
        Publication::Aggregate(b, _) => b as int,
        Publication::Prefix(b, _) => b as int,
    }
}

/// A run of the look-back protocol over a freshly reset table: the workers'
/// publications in the order they took effect, however they interleave.
pub open spec fn lookback_run(tables: Seq<Seq<BlockInfo>>, ops: Seq<Publication>, locals: Seq<int>) -> bool {
    &&& tables.len() == ops.len() + 1
    &&& locals.len() == tables[0].len()
    &&& forall|i: int| 0 <= i < tables[0].len() ==> is_initialized(#[trigger] tables[0][i])
    &&& forall|k: int| 0 <= k < ops.len() ==> #[trigger] publish_step(tables[k], ops[k], tables[k + 1], locals)
}

proof fn lemma_lookback_prefix(tables: Seq<Seq<BlockInfo>>, ops: Seq<Publication>, locals: Seq<int>, k: int)
    requires
        lookback_run(tables, ops, locals),
        0 <= k <= ops.len(),
    ensures
        tables[k].len() == tables[0].len(),
        consistent(tables[k], locals),
        forall|j: int, b: int| 0 <= j <= k && 0 <= b < tables[0].len()
            ==> state_rank(#[trigger] tables[j][b].state) <= state_rank(#[trigger] tables[k][b].state),
        forall|j: int, b: int| 0 <= j <= k && 0 <= b < tables[0].len() && tables[j][b].state == STATE_PREFIX_AVAILABLE
            ==> #[trigger] tables[k][b] == #[trigger] tables[j][b],
    decreases k,
{
    if k == 0 {
        lemma_initialized_consistent(tables[0], locals);
    } else {
        let m = k - 1;
        lemma_lookback_prefix(tables, ops, locals, m);
        assert(publish_step(tables[m], ops[m], tables[m + 1], locals));
        assert(m + 1 == k);
        let t = tables[m];
        let u = tables[k];
        assert forall|b: int| 0 <= b < t.len() implies state_rank(#[trigger] t[b].state) <= state_rank(u[b].state)
            && (t[b].state == STATE_PREFIX_AVAILABLE ==> u[b] == t[b]) by {
            if b == publication_block(ops[m]) {
            } else {
                assert(u[b] == t[b]);
            }
        }
        assert forall|j: int, b: int| 0 <= j <= k && 0 <= b < tables[0].len()
            implies state_rank(#[trigger] tables[j][b].state) <= state_rank(#[trigger] tables[k][b].state) by {
            if j < k {
                assert(state_rank(tables[j][b].state) <= state_rank(tables[m][b].state));
                assert(state_rank(t[b].state) <= state_rank(u[b].state));
            }
        }
        assert forall|j: int, b: int| 0 <= j <= k && 0 <= b < tables[0].len() && tables[j][b].state == STATE_PREFIX_AVAILABLE
            implies #[trigger] tables[k][b] == #[trigger] tables[j][b] by {
            if j < k {
                assert(tables[m][b] == tables[j][b]);
                assert(t[b].state == STATE_PREFIX_AVAILABLE ==> u[b] == t[b]);
            }
        }
        match ops[m] {
            Publication::Aggregate(b, local) => {
                assert forall|j: int| 0 <= j < u.len() && u[j].state == STATE_AGGREGATE_AVAILABLE
                    implies #[trigger] u[j].aggregate == locals[j] by {
                    if j != b {
                        assert(u[j] == t[j]);
                    }
                }
                assert forall|j: int| 0 <= j < u.len() && u[j].state == STATE_PREFIX_AVAILABLE
                    implies #[trigger] u[j].prefix == local_sum(locals, 0, j + 1) by {
                    if j != b {
                        assert(u[j] == t[j]);
                    }
                }
            },
            Publication::Prefix(b, prefix) => {
                assert forall|j: int| 0 <= j < u.len() && u[j].state == STATE_AGGREGATE_AVAILABLE
                    implies #[trigger] u[j].aggregate == locals[j] by {
                    if j != b {
                        assert(u[j] == t[j]);
                    }
                }
                assert forall|j: int| 0 <= j < u.len() && u[j].state == STATE_PREFIX_AVAILABLE
                    implies #[trigger] u[j].prefix == local_sum(locals, 0, j + 1) by {
                    if j != b {
                        assert(u[j] == t[j]);
                    }
                }
            },
        }
    }
}

/// Some publication of a run publishes block `b`'s prefix.
pub open spec fn prefix_published_in(ops: Seq<Publication>, b: int) -> bool {
    exists|k: int| 0 <= k < ops.len() && (#[trigger] ops[k] is Prefix) && publication_block(ops[k]) == b
}

/// However the workers' publications interleave, in a run of the
/// look-back protocol over a reset table: a block's state only moves
/// forward (nothing, then its aggregate, then its prefix; a step may be
/// skipped) and a published prefix never changes; at every point a
/// published aggregate is the block's own total and a published prefix the
/// total of the block and all blocks before it; and once every block's
/// worker has published its prefix, every block holds its prefix.
pub proof fn lemma_lookback_run(tables: Seq<Seq<BlockInfo>>, ops: Seq<Publication>, locals: Seq<int>)
    requires
        lookback_run(tables, ops, locals),
    ensures
        forall|j: int, k: int, b: int| 0 <= j <= k < tables.len() && 0 <= b < tables[0].len()
            ==> state_rank(#[trigger] tables[j][b].state) <= state_rank(#[trigger] tables[k][b].state),
        forall|k: int| 0 <= k < tables.len() ==> #[trigger] consistent(tables[k], locals),
        (forall|b: int| 0 <= b < tables[0].len() ==> #[trigger] prefix_published_in(ops, b)) ==>
            forall|b: int| 0 <= b < tables[0].len() ==> (#[trigger] tables.last()[b]).state == STATE_PREFIX_AVAILABLE
                && tables.last()[b].prefix == local_sum(locals, 0, b + 1),
{
    assert forall|j: int, k: int, b: int| 0 <= j <= k < tables.len() && 0 <= b < tables[0].len()
        implies state_rank(#[trigger] tables[j][b].state) <= state_rank(#[trigger] tables[k][b].state) by {
        lemma_lookback_prefix(tables, ops, locals, k);
    }
    assert forall|k: int| 0 <= k < tables.len() implies #[trigger] consistent(tables[k], locals) by {
        lemma_lookback_prefix(tables, ops, locals, k);
    }
    let n = ops.len() as int;
    lemma_lookback_prefix(tables, ops, locals, n);
    assert(tables.last() == tables[n]);
    if forall|b: int| 0 <= b < tables[0].len() ==> #[trigger] prefix_published_in(ops, b) {
        assert forall|b: int| 0 <= b < tables[0].len() implies (#[trigger] tables.last()[b]).state == STATE_PREFIX_AVAILABLE
            && tables.last()[b].prefix == local_sum(locals, 0, b + 1) by {
            assert(prefix_published_in(ops, b));
            let k = choose|k: int| 0 <= k < ops.len() && (#[trigger] ops[k] is Prefix) && publication_block(ops[k]) == b;
            assert(publish_step(tables[k], ops[k], tables[k + 1], locals));
            assert(tables[k + 1][b].state == STATE_PREFIX_AVAILABLE);
            lemma_lookback_prefix(tables, ops, locals, n);
            assert(tables[n][b] == tables[k + 1][b]);
        }
    }
}

} // verus!
