use vstd::prelude::*;
use vstd::arithmetic::div_mod::{
    lemma_add_mod_noop, lemma_mod_equivalence, lemma_small_mod, lemma_mod_add_multiples_vanish,
    lemma_mod_bound,
};

verus! {

/// The step by which worker `thread_index` walks over the other workers when
/// it looks for work: forwards (one) for even indices, backwards (the worker
/// count minus one) for odd ones.
pub open spec fn step_spec(thread_index: int, worker_count: int) -> int {
    if thread_index % 2 == 0 { 1 } else { worker_count - 1 }
}

/// The worker that worker `t` looks at after `k` steps.
pub open spec fn victim(t: int, n: int, k: nat) -> int
    decreases k,
{
    if k == 0 {
        t
    } else {
        (victim(t, n, (k - 1) as nat) + step_spec(t, n)) % n
    }
}

/// See `step_spec`.
pub fn steal_increment(thread_index: usize, worker_count: usize) -> (inc: usize)
    requires
        thread_index < worker_count,
    ensures
        inc == step_spec(thread_index as int, worker_count as int),
        inc < worker_count || worker_count == 1,
{
    if thread_index % 2 == 0 { 1 } else { worker_count - 1 }
}

/// The next worker to look at: one step further, around the circle.
pub fn next_victim(other: usize, increment: usize, worker_count: usize) -> (r: usize)
    requires
        other < worker_count,
        increment <= worker_count,
        other + increment <= usize::MAX,
    ensures
        r == (other + increment) % (worker_count as int),
        r < worker_count,
{
    (other + increment) % worker_count
}

proof fn lemma_victim_closed(t: int, n: int, k: nat)
    requires
        0 <= t < n,
    ensures
        t % 2 == 0 ==> victim(t, n, k) == (t + k) % n,
        t % 2 != 0 ==> victim(t, n, k) == (t - k) % n,
        0 <= victim(t, n, k) < n,
    decreases k,
{
    if k == 0 {
        lemma_small_mod(t as nat, n as nat);
    } else {
        lemma_victim_closed(t, n, (k - 1) as nat);
        let v = victim(t, n, (k - 1) as nat);
        if t % 2 == 0 {
            lemma_add_mod_noop(t + k - 1, 1, n);
            lemma_add_mod_noop(v, 1, n);
            lemma_mod_bound(v, n);
            lemma_small_mod(v as nat, n as nat);
            assert((v + 1) % n == (t + k) % n) by {
                lemma_add_mod_noop(t + k - 1, 1, n);
            }
        } else {
            lemma_small_mod(v as nat, n as nat);
            lemma_add_mod_noop(t - (k - 1), n - 1, n);
            lemma_small_mod((n - 1) as nat, n as nat);
            lemma_mod_add_multiples_vanish(t - k, n);
            assert(t - (k - 1) + (n - 1) == n + (t - k));
        }
        lemma_mod_bound(victim(t, n, k), n);
    }
}

/// Walking from worker `t` over `n` workers with its step, the first `n - 1`
/// steps reach every other worker exactly once, and step `n` comes back to
/// `t`: a worker looking for work looks at each other worker once.
pub proof fn lemma_victims_visit_all_others(t: int, n: int)
    requires
        0 <= t < n,
    ensures
        forall|k: nat| 0 < k < n ==> #[trigger] victim(t, n, k) != t,
        forall|k1: nat, k2: nat| 0 < k1 < k2 < n ==> #[trigger] victim(t, n, k1) != #[trigger] victim(t, n, k2),
        victim(t, n, n as nat) == t,
{
    assert forall|k1: nat, k2: nat| 0 <= k1 < k2 <= n && !(k1 == 0 && k2 == n)
        implies #[trigger] victim(t, n, k1) != #[trigger] victim(t, n, k2) by {
        lemma_victim_closed(t, n, k1);
        lemma_victim_closed(t, n, k2);
        let d = k2 - k1;
        lemma_small_mod(d as nat, n as nat);
        if t % 2 == 0 {
            lemma_mod_equivalence(t + k2, t + k1, n);
            assert((t + k2) - (t + k1) == d);
        } else {
            lemma_mod_equivalence(t - k1, t - k2, n);
            assert((t - k1) - (t - k2) == d);
        }
    }
    assert forall|k: nat| 0 < k < n implies #[trigger] victim(t, n, k) != t by {
        lemma_victim_closed(t, n, 0);
        assert(victim(t, n, 0) != victim(t, n, k));
    }
    lemma_victim_closed(t, n, n as nat);
    if t % 2 == 0 {
        lemma_mod_add_multiples_vanish(t, n);
    } else {
        lemma_mod_add_multiples_vanish(t - n, n);
    }
    lemma_small_mod(t as nat, n as nat);
}

/// The order in which worker `thread_index` looks at the other workers, first
/// to steal a task and then to help with a data-parallel task: step by step
/// around the circle until it is back at itself.
pub fn steal_order(thread_index: usize, worker_count: usize) -> (order: Vec<usize>)
    requires
        thread_index < worker_count,
        worker_count <= usize::MAX / 2,
    ensures
        order.len() == worker_count - 1,
        forall|k: int| 0 <= k < order.len() ==> #[trigger] order[k] == victim(thread_index as int, worker_count as int, (k + 1) as nat),
        forall|k: int| 0 <= k < order.len() ==> #[trigger] order[k] < worker_count && order[k] != thread_index,
        forall|k1: int, k2: int| 0 <= k1 < k2 < order.len() ==> order[k1] != order[k2],
{
    let ghost t = thread_index as int;
    let ghost n = worker_count as int;
    proof {
        lemma_victims_visit_all_others(t, n);
    }
    let increment = steal_increment(thread_index, worker_count);
    let mut order: Vec<usize> = Vec::new();
    let mut other = thread_index;
    loop
        invariant_except_break
            other == victim(t, n, order.len() as nat),
        invariant
            thread_index < worker_count,
            worker_count <= usize::MAX / 2,
            increment == step_spec(t, n),
            increment <= worker_count,
            t == thread_index,
            n == worker_count,
            order.len() < worker_count,
            other < worker_count,
            forall|k: int| 0 <= k < order.len() ==> #[trigger] order[k] == victim(t, n, (k + 1) as nat),
            forall|k: nat| 0 < k < n ==> #[trigger] victim(t, n, k) != t,
            forall|k1: nat, k2: nat| 0 < k1 < k2 < n ==> #[trigger] victim(t, n, k1) != #[trigger] victim(t, n, k2),
            victim(t, n, n as nat) == t,
        ensures
            order.len() == worker_count - 1,
            forall|k: int| 0 <= k < order.len() ==> #[trigger] order[k] == victim(t, n, (k + 1) as nat),
        decreases worker_count - order.len(),
    {
        other = next_victim(other, increment, worker_count);
        proof {
            assert(other == victim(t, n, (order.len() + 1) as nat));
        }
        if other == thread_index {
            proof {
                if order.len() + 1 < n {
                    assert(victim(t, n, (order.len() + 1) as nat) != t);
                }
            }
            break;
        }
        order.push(other);
    }
    proof {
        assert forall|k: int| 0 <= k < order.len() implies #[trigger] order[k] < worker_count && order[k] != thread_index by {
            lemma_victim_closed(t, n, (k + 1) as nat);
        }
        assert forall|k1: int, k2: int| 0 <= k1 < k2 < order.len() implies order[k1] != order[k2] by {
            assert(victim(t, n, (k1 + 1) as nat) != victim(t, n, (k2 + 1) as nat));
        }
    }
    order
}


/// The amount by which the thread that takes a task out of a worker's
/// activity slot raises the task's active-thread counter: the helpers that
/// joined through the slot (its tag) plus the worker that published it.
pub fn removal_increment(tag: u32) -> (r: i32)
    requires
        tag < i32::MAX,
    ensures
        r == tag + 1,
{
    tag as i32 + 1
}

/// The bookkeeping that decides when a data-parallel task is finished.
/// While a task is published in its worker's activity slot, helpers join it
/// by raising the slot's tag, and threads that end lower the active-thread
/// counter below zero. The first thread to signal that all chunks are
/// handed out takes the task out of the slot and adds the tag plus one to
/// the counter; from then on the counter is the number of threads still at
/// work, and the thread that brings it to zero runs the task's finish.
pub struct TaskActivity {
    pub active_threads: i32,
    pub published: bool,
    pub tag: u32,
    /// Threads that work on the task: the one that started it and the
    /// helpers that joined.
    pub participants: Ghost<int>,
    /// Participants that have signalled that all chunks are handed out.
    pub signalled: Ghost<int>,
    /// Participants that have ended.
    pub ended: Ghost<int>,
}

/// How a thread signals that a task has no chunks left: the thread that
/// started the task takes it out of its own slot, a helper takes it out of
/// the slot it joined through, and a thread signals at most once.
pub enum EmptySignalState {
    Main,
    Assist,
    DidSignal,
}

/// A participant's handle for signalling that a task has no chunks left.
pub struct EmptySignal {
    pub state: EmptySignalState,
}

impl TaskActivity {
    pub open spec fn wf(&self) -> bool {
        &&& 0 <= self.ended@ <= self.signalled@ <= self.participants@
        &&& self.participants@ >= 1
        &&& self.participants@ < i32::MAX
        &&& self.published <==> self.signalled@ == 0
        &&& self.published ==> self.active_threads == 0 && self.participants@ == self.tag + 1
        &&& !self.published ==> self.active_threads == self.participants@ - self.ended@
    }

    /// The task is finished: every participant has ended, so nobody works
    /// on it any more.
    pub open spec fn done(&self) -> bool {
        &&& !self.published
        &&& self.ended@ == self.participants@
    }

    /// A worker starts a data-parallel task and publishes it in its slot.
    pub fn start() -> (a: TaskActivity)
        ensures
            a.wf(),
            a.published,
            a.participants@ == 1,
            a.ended@ == 0,
    {
        TaskActivity { active_threads: 0, published: true, tag: 0, participants: Ghost(1), signalled: Ghost(0), ended: Ghost(0) }
    }

    /// A helper tries to join through the slot: it joins when the task is
    /// still published, and then raises the tag.
    pub fn try_join(&mut self) -> (joined: bool)
        requires
            old(self).wf(),
            old(self).participants@ + 1 < i32::MAX,
        ensures
            final(self).wf(),
            joined == old(self).published,
            final(self).participants@ == old(self).participants@ + if joined { 1int } else { 0int },
            final(self).ended@ == old(self).ended@,
            final(self).signalled@ == old(self).signalled@,
    {
        if self.published {
            self.tag = self.tag + 1;
            self.participants = Ghost(self.participants@ + 1);
            true
        } else {
            false
        }
    }

    /// A participant that has not signalled yet signals that all chunks are
    /// handed out; the first one takes the task out of the slot.
    pub fn signal(&mut self)
        requires
            old(self).wf(),
            old(self).signalled@ < old(self).participants@,
        ensures
            final(self).wf(),
            !final(self).published,
            final(self).signalled@ == old(self).signalled@ + 1,
            final(self).participants@ == old(self).participants@,
            final(self).ended@ == old(self).ended@,
    {
        if self.published {
            let inc = removal_increment(self.tag);
            self.active_threads = self.active_threads + inc;
            self.published = false;
            self.tag = 0;
        }
        self.signalled = Ghost(self.signalled@ + 1);
    }

    /// A participant that has signalled ends; it runs the task's finish when
    /// it brings the active-thread counter to zero.
    pub fn end(&mut self) -> (finish: bool)
        requires
            old(self).wf(),
            old(self).ended@ < old(self).signalled@,
        ensures
            final(self).wf(),
            final(self).ended@ == old(self).ended@ + 1,
            final(self).participants@ == old(self).participants@,
            final(self).signalled@ == old(self).signalled@,
            finish <==> final(self).done(),
    {
        self.active_threads = self.active_threads - 1;
        self.ended = Ghost(self.ended@ + 1);
        self.active_threads == 0
    }
}

/// The finish of a task runs at most once: once it has run, no participant
/// is left that could end again, and no helper can join any more.
pub proof fn lemma_finish_once(a: TaskActivity)
    requires
        a.wf(),
        a.done(),
    ensures
        !(a.ended@ < a.signalled@),
        !a.published,
{
}

/// A worker's activity slot as a signalling thread finds it: the task
/// published there (by an identifier), if any, and the slot's tag.
pub struct ActivitySlot {
    pub task: Option<u64>,
    pub tag: u32,
}

impl EmptySignal {
    /// Signals, on behalf of one participant, that task `task` has no
    /// chunks left; only the first call has an effect. The thread that
    /// started the task empties its own slot, whatever it holds; a helper
    /// empties the slot it joined through only while that slot still holds
    /// `task`; a different task in that slot stays. Whoever
    /// takes the task out of the slot adds the slot's tag plus one to the
    /// active-thread counter.
    pub fn task_empty(&mut self, activity: &mut TaskActivity, slot: &mut ActivitySlot, task: u64)
        requires
            old(activity).wf(),
            !(old(self).state is DidSignal) ==> old(activity).signalled@ < old(activity).participants@,
            !(old(self).state is DidSignal) ==> (old(slot).task == Some(task) <==> old(activity).published),
            !(old(self).state is DidSignal) && old(activity).published ==> old(slot).tag == old(activity).tag,
        ensures
            final(activity).wf(),
            final(self).state is DidSignal,
            old(self).state is DidSignal ==> *final(activity) == *old(activity) && *final(slot) == *old(slot),
            !(old(self).state is DidSignal) ==> final(activity).signalled@ == old(activity).signalled@ + 1
                && !final(activity).published
                && final(activity).active_threads == old(activity).active_threads
                    + (if old(slot).task == Some(task) { old(slot).tag + 1 } else { 0int }),
            old(self).state is Main ==> final(slot).task is None && final(slot).tag == 0,
            old(self).state is Assist ==> *final(slot) == (if old(slot).task == Some(task) {
                ActivitySlot { task: None, tag: 0 }
            } else {
                *old(slot)
            }),
            final(activity).participants@ == old(activity).participants@,
            final(activity).ended@ == old(activity).ended@,
    {
        match self.state {
            EmptySignalState::DidSignal => {},
            EmptySignalState::Main => {
                activity.signal();
                slot.task = None;
                slot.tag = 0;
            },
            EmptySignalState::Assist => {
                let holds = match slot.task {
                    Some(t) => t == task,
                    None => false,
                };
                activity.signal();
                if holds {
                    slot.task = None;
                    slot.tag = 0;
                }
            },
        }
        self.state = EmptySignalState::DidSignal;
    }
}

/// The operations on a task's activity bookkeeping.
pub enum ActivityOp {
    Join,
    Signal,
    End,
}

/// One operation by some thread, as the methods of `TaskActivity` state it:
/// `a` before it, `b` after it, `finish` whether it ran the task's finish.
pub open spec fn activity_step(a: TaskActivity, op: ActivityOp, b: TaskActivity, finish: bool) -> bool {
    &&& a.wf()
    &&& b.wf()
    &&& match op {
        ActivityOp::Join => a.participants@ + 1 < i32::MAX
            && b.participants@ == a.participants@ + (if a.published { 1int } else { 0int })
            && b.ended@ == a.ended@ && b.signalled@ == a.signalled@ && !finish,
        ActivityOp::Signal => a.signalled@ < a.participants@ && !b.published
            && b.signalled@ == a.signalled@ + 1 && b.participants@ == a.participants@
            && b.ended@ == a.ended@ && !finish,
        ActivityOp::End => a.ended@ < a.signalled@ && b.ended@ == a.ended@ + 1
            && b.participants@ == a.participants@ && b.signalled@ == a.signalled@
            && (finish <==> b.done()),
    }
}

/// A run of operations in the order they took effect (the threads'
/// atomic operations, interleaved in any way).
pub open spec fn activity_run(states: Seq<TaskActivity>, ops: Seq<ActivityOp>, finishes: Seq<bool>) -> bool {
    &&& states.len() == ops.len() + 1
    &&& finishes.len() == ops.len()
    &&& forall|k: int| 0 <= k < ops.len() ==> #[trigger] activity_step(states[k], ops[k], states[k + 1], finishes[k])
}

proof fn lemma_done_stays(states: Seq<TaskActivity>, ops: Seq<ActivityOp>, finishes: Seq<bool>, i: int, k: int)
    requires
        activity_run(states, ops, finishes),
        0 <= i < k <= ops.len(),
        finishes[i],
    ensures
        states[k].done(),
        forall|m: int| i < m < k ==> !#[trigger] finishes[m],
    decreases k - i,
{
    if k == i + 1 {
        assert(activity_step(states[i], ops[i], states[i + 1], finishes[i]));
    } else {
        lemma_done_stays(states, ops, finishes, i, k - 1);
        let j = k - 1;
        assert(activity_step(states[j], ops[j], states[j + 1], finishes[j]));
        assert(j + 1 == k);
    }
}

/// However the participants' operations interleave, a task's finish runs
/// at most once: in a run of operations, no two of them run it.
pub proof fn lemma_finish_once_in_any_run(states: Seq<TaskActivity>, ops: Seq<ActivityOp>, finishes: Seq<bool>, x: int, y: int)
    requires
        activity_run(states, ops, finishes),
        0 <= x < y < ops.len(),
        finishes[x],
    ensures
        !finishes[y],
{
    lemma_done_stays(states, ops, finishes, x, y);
    assert(activity_step(states[y], ops[y], states[y + 1], finishes[y]));
}

proof fn lemma_becomes_done(states: Seq<TaskActivity>, ops: Seq<ActivityOp>, finishes: Seq<bool>, k: int)
    requires
        activity_run(states, ops, finishes),
        0 <= k <= ops.len(),
        !states[0].done(),
        states[k].done(),
    ensures
        exists|m: int| 0 <= m < k && #[trigger] finishes[m],
    decreases k,
{
    if k > 0 {
        let j = k - 1;
        assert(activity_step(states[j], ops[j], states[j + 1], finishes[j]));
        assert(j + 1 == k);
        if states[j].done() {
            lemma_becomes_done(states, ops, finishes, j);
            let m = choose|m: int| 0 <= m < j && #[trigger] finishes[m];
            assert(0 <= m < k && finishes[m]);
        } else {
            assert(finishes[j]);
        }
    }
}

/// However the participants' operations interleave, a task's finish runs
/// exactly once in a run that starts before the task is finished and ends
/// with every participant having ended: some operation runs it, and no
/// other does.
pub proof fn lemma_finish_exactly_once(states: Seq<TaskActivity>, ops: Seq<ActivityOp>, finishes: Seq<bool>)
    requires
        activity_run(states, ops, finishes),
        !states[0].done(),
        states.last().done(),
    ensures
        exists|m: int| 0 <= m < ops.len() && #[trigger] finishes[m],
        forall|x: int, y: int| 0 <= x < ops.len() && 0 <= y < ops.len() && #[trigger] finishes[x] && #[trigger] finishes[y] ==> x == y,
{
    let n = ops.len() as int;
    assert(states.last() == states[n]);
    lemma_becomes_done(states, ops, finishes, n);
    assert forall|x: int, y: int| 0 <= x < ops.len() && 0 <= y < ops.len() && #[trigger] finishes[x] && #[trigger] finishes[y]
        implies x == y by {
        if x < y {
            lemma_finish_once_in_any_run(states, ops, finishes, x, y);
        } else if y < x {
            lemma_finish_once_in_any_run(states, ops, finishes, y, x);
        }
    }
}

/// What one attempt to take a task from a deque gave.
#[derive(PartialEq, Eq, Copy, Clone, Debug)]
pub enum StealOutcome {
    Success,
    Retry,
    Empty,
}

/// What an idle worker does after one attempt while it claims a task.
#[derive(PartialEq, Eq, Copy, Clone, Debug)]
pub enum ClaimStep {
    /// It got a task: the claim ends with it.
    Claimed,
    /// It goes on with the next deque; `retry` records whether some attempt
    /// so far lost a race.
    Next { retry: bool },
}

/// After an attempt with `outcome`, where `retry` records whether an
/// earlier attempt lost a race: a task ends the claim, a lost race is
/// remembered, an empty deque changes nothing.
pub fn claim_step(retry: bool, outcome: StealOutcome) -> (r: ClaimStep)
    ensures
        r == (match outcome {
            StealOutcome::Success => ClaimStep::Claimed,
            StealOutcome::Retry => ClaimStep::Next { retry: true },
            StealOutcome::Empty => ClaimStep::Next { retry },
        }),
{
    match outcome {
        StealOutcome::Success => ClaimStep::Claimed,
        StealOutcome::Retry => ClaimStep::Next { retry: true },
        StealOutcome::Empty => ClaimStep::Next { retry },
    }
}

/// The outcome of a claim in which every deque was tried without getting a
/// task: try again later when some attempt lost a race, otherwise there
/// was nothing to take.
pub fn claim_end(retry: bool) -> (r: StealOutcome)
    ensures
        r == (if retry { StealOutcome::Retry } else { StealOutcome::Empty }),
{
    if retry { StealOutcome::Retry } else { StealOutcome::Empty }
}

/// The outcome of a claim whose attempts (own deque first, then the others
/// in stealing order) gave `outcomes`: a task if any attempt got one, else
/// a retry if any lost a race, else empty.
pub open spec fn claim_outcome(outcomes: Seq<StealOutcome>) -> StealOutcome {
    if exists|k: int| 0 <= k < outcomes.len() && #[trigger] outcomes[k] == StealOutcome::Success {
        StealOutcome::Success
    } else if exists|k: int| 0 <= k < outcomes.len() && #[trigger] outcomes[k] == StealOutcome::Retry {
        StealOutcome::Retry
    } else {
        StealOutcome::Empty
    }
}

/// Going through the attempts with `claim_step` from `retry`, ending with
/// `claim_end` when no attempt got a task.
pub open spec fn claim_run(retry: bool, outcomes: Seq<StealOutcome>) -> StealOutcome
    decreases outcomes.len(),
{
    if outcomes.len() == 0 {
        if retry { StealOutcome::Retry } else { StealOutcome::Empty }
    } else {
        match outcomes[0] {
            StealOutcome::Success => StealOutcome::Success,
            StealOutcome::Retry => claim_run(true, outcomes.drop_first()),
            StealOutcome::Empty => claim_run(retry, outcomes.drop_first()),
        }
    }
}

/// Stepping through the attempts of a claim from the start gives the
/// claim's outcome: a task when any attempt got one, a retry when none did
/// but one lost a race, and empty otherwise.
pub proof fn lemma_claim_run(outcomes: Seq<StealOutcome>)
    ensures
        claim_run(false, outcomes) == claim_outcome(outcomes),
{
    lemma_claim_run_from(false, outcomes);
    if exists|k: int| 0 <= k < outcomes.len() && #[trigger] outcomes[k] == StealOutcome::Success {
    } else if exists|k: int| 0 <= k < outcomes.len() && #[trigger] outcomes[k] == StealOutcome::Retry {
    }
}

proof fn lemma_claim_run_from(retry: bool, outcomes: Seq<StealOutcome>)
    ensures
        claim_run(retry, outcomes) == (if exists|k: int| 0 <= k < outcomes.len() && #[trigger] outcomes[k] == StealOutcome::Success {
            StealOutcome::Success
        } else if retry || exists|k: int| 0 <= k < outcomes.len() && #[trigger] outcomes[k] == StealOutcome::Retry {
            StealOutcome::Retry
        } else {
            StealOutcome::Empty
        }),
    decreases outcomes.len(),
{
    if outcomes.len() > 0 {
        let rest = outcomes.drop_first();
        let r2 = match outcomes[0] { StealOutcome::Retry => true, _ => retry };
        lemma_claim_run_from(r2, rest);
        assert forall|k: int| 0 <= k < rest.len() implies #[trigger] rest[k] == outcomes[k + 1] by {}
        if exists|k: int| 0 <= k < outcomes.len() && #[trigger] outcomes[k] == StealOutcome::Success {
            let k = choose|k: int| 0 <= k < outcomes.len() && #[trigger] outcomes[k] == StealOutcome::Success;
            if k > 0 {
                assert(rest[k - 1] == StealOutcome::Success);
            }
        }
        if exists|k: int| 0 <= k < outcomes.len() && #[trigger] outcomes[k] == StealOutcome::Retry {
            let k = choose|k: int| 0 <= k < outcomes.len() && #[trigger] outcomes[k] == StealOutcome::Retry;
            if k > 0 {
                assert(rest[k - 1] == StealOutcome::Retry);
            }
        }
        if exists|k: int| 0 <= k < rest.len() && #[trigger] rest[k] == StealOutcome::Success {
            let k = choose|k: int| 0 <= k < rest.len() && #[trigger] rest[k] == StealOutcome::Success;
            assert(outcomes[k + 1] == StealOutcome::Success);
        }
        if exists|k: int| 0 <= k < rest.len() && #[trigger] rest[k] == StealOutcome::Retry {
            let k = choose|k: int| 0 <= k < rest.len() && #[trigger] rest[k] == StealOutcome::Retry;
            assert(outcomes[k + 1] == StealOutcome::Retry);
        }
    }
}

} // verus!
