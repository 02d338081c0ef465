//! Admission-and-batching scheduler.
//!
//! Each step the scheduler produces a batch of sequences to execute,
//! honoring three budgets at once: `max_num_seqs` (batch width),
//! `max_num_batched_tokens` (per-step token cost, prefill tokens counted
//! per token and decode steps counted as one), and the free blocks of the
//! cache pool. Running sequences take priority over admissions; when a
//! running sequence cannot get a block, the most recently admitted running
//! sequence is preempted and re-queued at the front of `waiting`.

use vstd::prelude::*;

use crate::block_allocator::fits_strictly;
use crate::block_allocator::lemma_blocks_for_decompose;
use crate::block_allocator::spec_blocks_for;
use crate::block_allocator::BlockAllocator;
use crate::sequence::SamplingParams;
use crate::sequence::Sequence;
use crate::sequence::SequenceError;
use crate::sequence::SequenceStatus;

verus! {

/// Tagged-union error type for the scheduler.
#[derive(Clone, Copy, Debug, PartialEq, Eq, Structural)]
pub enum SchedulerError {
    /// The configuration fails its well-formedness checks.
    InvalidConfig,
    /// No queued sequence carries the given id.
    UnknownSequence,
    /// The sequence is not in the state the operation expects.
    SequenceNotReady,
    /// The sequence's blocks cannot hold the tokens the operation adds.
    InsufficientCapacity,
}

/// The scheduler's configuration knobs.
#[derive(Clone, Copy, Debug)]
pub struct SchedulerConfig {
    /// Cap on how many sequences run at once.
    pub max_num_seqs: usize,
    /// Per-step token budget over the whole batch.
    pub max_num_batched_tokens: usize,
    /// Hard cap on prompt length at submission.
    pub max_model_len: usize,
    /// Tokens of cache capacity per block.
    pub block_size: usize,
    /// Total number of cache blocks in the pool.
    pub num_kvcache_blocks: usize,
    /// End-of-stream token id used by the stop rule.
    pub eos_token_id: u32,
    /// Whether long prompts may be prefetched in chunks across steps.
    pub enable_chunked_prefill: bool,
    /// Largest prefill chunk per step when chunking is enabled.
    pub max_chunked_prefill_size: usize,
}

impl SchedulerConfig {
    /// The checks `Scheduler::new` enforces.
    pub open spec fn wf(self) -> bool {
        &&& 1 <= self.block_size
        &&& self.num_kvcache_blocks * self.block_size <= usize::MAX
        &&& 1 <= self.max_num_seqs
        &&& 1 <= self.max_num_batched_tokens
        &&& (self.enable_chunked_prefill ==> 1 <= self.max_chunked_prefill_size)
    }
}

/// One line of a schedule: what the model runner must execute for one
/// sequence this step.
#[derive(Clone, Debug)]
pub struct ScheduledSeq {
    pub seq_id: usize,
    /// True while the sequence is still caching prompt (or re-admitted)
    /// tokens; false for a steady-state decode step.
    pub is_prefill: bool,
    /// Tokens this entry costs against the step budget: the chunk size
    /// for a prefill entry, one for a decode entry.
    pub token_count: usize,
    /// The sequence's full token history at schedule time, which the
    /// model runner receives alongside the block table.
    pub token_ids: Vec<u32>,
    /// The sequence's block table at schedule time.
    pub block_ids: Vec<usize>,
}

/// Everything one `schedule()` call decided.
#[derive(Clone, Debug)]
pub struct ScheduleResult {
    /// Ordered batch for the model runner.
    pub entries: Vec<ScheduledSeq>,
    /// Ids preempted this step, oldest preemption first.
    pub preempted_ids: Vec<usize>,
    /// True when a running sequence could not get a block even after all
    /// later-admitted running sequences were preempted; the step starves
    /// (reported, not fatal) and no admission happens.
    pub stalled: bool,
}

/// Sum of the per-step token costs of a batch.
pub open spec fn spec_total_cost(entries: Seq<ScheduledSeq>) -> int
    decreases entries.len(),
{
    if entries.len() == 0 {
        0
    } else {
        spec_total_cost(entries.drop_last()) + entries.last().token_count
    }
}

/// Total number of blocks owned by a set of sequences.
pub open spec fn total_blocks(seqs: Seq<Sequence>) -> int
    decreases seqs.len(),
{
    if seqs.len() == 0 {
        0
    } else {
        total_blocks(seqs.drop_last()) + seqs.last().block_ids@.len()
    }
}

pub proof fn lemma_total_blocks_push(seqs: Seq<Sequence>, s: Sequence)
    ensures
        total_blocks(seqs.push(s)) == total_blocks(seqs) + s.block_ids@.len(),
{
    assert(seqs.push(s).drop_last() =~= seqs);
    assert(seqs.push(s).last() == s);
}

pub proof fn lemma_total_blocks_remove(seqs: Seq<Sequence>, i: int)
    requires
        0 <= i < seqs.len(),
    ensures
        total_blocks(seqs.remove(i)) == total_blocks(seqs) - seqs[i].block_ids@.len(),
    decreases seqs.len(),
{
    if i == seqs.len() - 1 {
        assert(seqs.remove(i) =~= seqs.drop_last());
    } else {
        lemma_total_blocks_remove(seqs.drop_last(), i);
        assert(seqs.remove(i).drop_last() =~= seqs.drop_last().remove(i));
        assert(seqs.remove(i).last() == seqs.last());
    }
}

pub proof fn lemma_total_blocks_insert(seqs: Seq<Sequence>, i: int, s: Sequence)
    requires
        0 <= i <= seqs.len(),
    ensures
        total_blocks(seqs.insert(i, s)) == total_blocks(seqs) + s.block_ids@.len(),
{
    lemma_total_blocks_remove(seqs.insert(i, s), i);
    assert(seqs.insert(i, s).remove(i) =~= seqs);
    assert(seqs.insert(i, s)[i] == s);
}

pub proof fn lemma_total_blocks_concat(a: Seq<Sequence>, b: Seq<Sequence>)
    ensures
        total_blocks(a + b) == total_blocks(a) + total_blocks(b),
    decreases b.len(),
{
    if b.len() == 0 {
        assert(a + b =~= a);
    } else {
        lemma_total_blocks_concat(a, b.drop_last());
        assert((a + b).drop_last() =~= a + b.drop_last());
        assert((a + b).last() == b.last());
    }
}

/// No block id owned by `a` is also owned by `b`.
pub open spec fn blocks_disjoint(a: Sequence, b: Sequence) -> bool {
    forall|x: usize| #[trigger] a.block_ids@.contains(x) ==> !b.block_ids@.contains(x)
}

/// Every sequence of the set is well formed for the pool geometry.
pub open spec fn seqs_wf(seqs: Seq<Sequence>, num_blocks: nat, block_size: nat) -> bool {
    forall|i: int| 0 <= i < seqs.len() ==> (#[trigger] seqs[i]).wf(num_blocks, block_size)
}

/// Every sequence of the set has `Running` status.
pub open spec fn seqs_running(seqs: Seq<Sequence>) -> bool {
    forall|i: int| 0 <= i < seqs.len() ==> (#[trigger] seqs[i]).status is Running
}

/// No sequence of the set owns a block that is on the free list.
pub open spec fn free_disjoint(seqs: Seq<Sequence>, free: Seq<usize>) -> bool {
    forall|i: int, x: usize|
        0 <= i < seqs.len() && #[trigger] seqs[i].block_ids@.contains(x) ==> !free.contains(x)
}

/// No two distinct sequences of the set share a block id.
pub open spec fn pairwise_disjoint(seqs: Seq<Sequence>) -> bool {
    forall|i: int, j: int|
        0 <= i < seqs.len() && 0 <= j < seqs.len() && i != j ==> #[trigger] blocks_disjoint(
            seqs[i],
            seqs[j],
        )
}

/// No sequence of `a` shares a block id with a sequence of `b`.
pub open spec fn cross_disjoint(a: Seq<Sequence>, b: Seq<Sequence>) -> bool {
    forall|i: int, j: int|
        0 <= i < a.len() && 0 <= j < b.len() ==> #[trigger] blocks_disjoint(a[i], b[j])
}

/// Queued-but-not-running sequences hold no blocks and are `Waiting` or
/// `Preempted`.
pub open spec fn waiting_wf(seqs: Seq<Sequence>, num_blocks: nat, block_size: nat) -> bool {
    forall|i: int|
        0 <= i < seqs.len() ==> {
            &&& (#[trigger] seqs[i]).wf(num_blocks, block_size)
            &&& seqs[i].block_ids@.len() == 0
            &&& (seqs[i].status is Waiting || seqs[i].status is Preempted)
        }
}

/// Concatenating two internally consistent, mutually disjoint live sets
/// yields an internally consistent live set.
pub proof fn lemma_live_concat(
    a: Seq<Sequence>,
    b: Seq<Sequence>,
    free: Seq<usize>,
    num_blocks: nat,
    block_size: nat,
)
    requires
        seqs_wf(a, num_blocks, block_size),
        seqs_wf(b, num_blocks, block_size),
        pairwise_disjoint(a),
        pairwise_disjoint(b),
        cross_disjoint(a, b),
        free_disjoint(a, free),
        free_disjoint(b, free),
    ensures
        seqs_wf(a + b, num_blocks, block_size),
        pairwise_disjoint(a + b),
        free_disjoint(a + b, free),
        seqs_running(a) && seqs_running(b) ==> seqs_running(a + b),
{
    let c = a + b;
    assert forall|i: int| 0 <= i < c.len() implies (#[trigger] c[i]).wf(
        num_blocks,
        block_size,
    ) by {
        if i < a.len() {
            assert(c[i] == a[i]);
        } else {
            assert(c[i] == b[i - a.len()]);
        }
    }
    assert forall|i: int, j: int|
        0 <= i < c.len() && 0 <= j < c.len() && i != j implies #[trigger] blocks_disjoint(
        c[i],
        c[j],
    ) by {
        let n = a.len() as int;
        if i < n && j < n {
            assert(c[i] == a[i] && c[j] == a[j]);
        } else if i < n && j >= n {
            assert(c[i] == a[i] && c[j] == b[j - n]);
        } else if i >= n && j < n {
            assert(c[i] == b[i - n] && c[j] == a[j]);
            assert(blocks_disjoint(a[j], b[i - n]));
            assert forall|x: usize| #[trigger] c[i].block_ids@.contains(x) implies !(c[
            j]).block_ids@.contains(x) by {
                if c[j].block_ids@.contains(x) {
                    assert(a[j].block_ids@.contains(x));
                }
            }
        } else {
            assert(c[i] == b[i - n] && c[j] == b[j - n]);
        }
    }
    assert forall|i: int, x: usize|
        0 <= i < c.len() && #[trigger] c[i].block_ids@.contains(x) implies !free.contains(x) by {
        if i < a.len() {
            assert(c[i] == a[i]);
        } else {
            assert(c[i] == b[i - a.len()]);
        }
    }
    if seqs_running(a) && seqs_running(b) {
        assert forall|i: int| 0 <= i < c.len() implies (#[trigger] c[i]).status is Running by {
            if i < a.len() {
                assert(c[i] == a[i]);
            } else {
                assert(c[i] == b[i - a.len()]);
            }
        }
    }
}

/// Taking one sequence out of an internally consistent live set leaves a
/// consistent set, and the removed sequence is disjoint from what stays.
pub proof fn lemma_live_remove(
    seqs: Seq<Sequence>,
    free: Seq<usize>,
    num_blocks: nat,
    block_size: nat,
    i: int,
)
    requires
        0 <= i < seqs.len(),
        seqs_wf(seqs, num_blocks, block_size),
        pairwise_disjoint(seqs),
        free_disjoint(seqs, free),
    ensures
        seqs_wf(seqs.remove(i), num_blocks, block_size),
        pairwise_disjoint(seqs.remove(i)),
        free_disjoint(seqs.remove(i), free),
        seqs[i].wf(num_blocks, block_size),
        forall|k: int|
            0 <= k < seqs.remove(i).len() ==> #[trigger] blocks_disjoint(
                seqs[i],
                seqs.remove(i)[k],
            ) && blocks_disjoint(seqs.remove(i)[k], seqs[i]),
        seqs_running(seqs) ==> seqs_running(seqs.remove(i)),
{
    let rest = seqs.remove(i);
    assert forall|k: int| 0 <= k < rest.len() implies (#[trigger] rest[k]).wf(
        num_blocks,
        block_size,
    ) && (seqs_running(seqs) ==> rest[k].status is Running) by {
        if k < i {
            assert(rest[k] == seqs[k]);
        } else {
            assert(rest[k] == seqs[k + 1]);
        }
    }
    assert forall|k: int, l: int|
        0 <= k < rest.len() && 0 <= l < rest.len() && k != l implies #[trigger] blocks_disjoint(
        rest[k],
        rest[l],
    ) by {
        let k0 = if k < i {
            k
        } else {
            k + 1
        };
        let l0 = if l < i {
            l
        } else {
            l + 1
        };
        assert(rest[k] == seqs[k0] && rest[l] == seqs[l0]);
        assert(blocks_disjoint(seqs[k0], seqs[l0]));
    }
    assert forall|k: int, x: usize|
        0 <= k < rest.len() && #[trigger] rest[k].block_ids@.contains(x) implies !free.contains(
        x,
    ) by {
        let k0 = if k < i {
            k
        } else {
            k + 1
        };
        assert(seqs[k0].block_ids@.contains(x));
    }
    assert forall|k: int| 0 <= k < rest.len() implies #[trigger] blocks_disjoint(seqs[i], rest[k])
        && blocks_disjoint(rest[k], seqs[i]) by {
        let k0 = if k < i {
            k
        } else {
            k + 1
        };
        assert(rest[k] == seqs[k0]);
        assert(blocks_disjoint(seqs[i], seqs[k0]));
        assert(blocks_disjoint(seqs[k0], seqs[i]));
    }
}

/// Putting a sequence that is disjoint from a consistent live set (and
/// from the free list) into the set keeps the set consistent.
pub proof fn lemma_live_insert(
    seqs: Seq<Sequence>,
    free: Seq<usize>,
    num_blocks: nat,
    block_size: nat,
    i: int,
    s: Sequence,
)
    requires
        0 <= i <= seqs.len(),
        seqs_wf(seqs, num_blocks, block_size),
        pairwise_disjoint(seqs),
        free_disjoint(seqs, free),
        s.wf(num_blocks, block_size),
        forall|k: int|
            0 <= k < seqs.len() ==> #[trigger] blocks_disjoint(s, seqs[k]) && blocks_disjoint(
                seqs[k],
                s,
            ),
        forall|x: usize| #[trigger] s.block_ids@.contains(x) ==> !free.contains(x),
    ensures
        seqs_wf(seqs.insert(i, s), num_blocks, block_size),
        pairwise_disjoint(seqs.insert(i, s)),
        free_disjoint(seqs.insert(i, s), free),
        seqs_running(seqs) && s.status is Running ==> seqs_running(seqs.insert(i, s)),
{
    let grown = seqs.insert(i, s);
    assert forall|k: int| 0 <= k < grown.len() implies (#[trigger] grown[k]).wf(
        num_blocks,
        block_size,
    ) && (seqs_running(seqs) && s.status is Running ==> grown[k].status is Running) by {
        if k < i {
            assert(grown[k] == seqs[k]);
        } else if k == i {
            assert(grown[k] == s);
        } else {
            assert(grown[k] == seqs[k - 1]);
        }
    }
    assert forall|k: int, l: int|
        0 <= k < grown.len() && 0 <= l < grown.len() && k != l implies #[trigger] blocks_disjoint(
        grown[k],
        grown[l],
    ) by {
        if k == i && l != i {
            let l0 = if l < i {
                l
            } else {
                l - 1
            };
            assert(grown[l] == seqs[l0]);
            assert(blocks_disjoint(s, seqs[l0]));
        } else if k != i && l == i {
            let k0 = if k < i {
                k
            } else {
                k - 1
            };
            assert(grown[k] == seqs[k0]);
            assert(blocks_disjoint(s, seqs[k0]));
            assert(blocks_disjoint(seqs[k0], s));
        } else if k != i && l != i {
            let k0 = if k < i {
                k
            } else {
                k - 1
            };
            let l0 = if l < i {
                l
            } else {
                l - 1
            };
            assert(grown[k] == seqs[k0] && grown[l] == seqs[l0]);
            assert(blocks_disjoint(seqs[k0], seqs[l0]));
        }
    }
    assert forall|k: int, x: usize|
        0 <= k < grown.len() && #[trigger] grown[k].block_ids@.contains(x) implies !free.contains(
        x,
    ) by {
        if k == i {
            assert(s.block_ids@.contains(x));
        } else {
            let k0 = if k < i {
                k
            } else {
                k - 1
            };
            assert(seqs[k0].block_ids@.contains(x));
        }
    }
}

/// The sequence `s` shares no block with any member of the set, in either
/// direction.
pub open spec fn disjoint_from_all(s: Sequence, seqs: Seq<Sequence>) -> bool {
    forall|k: int|
        0 <= k < seqs.len() ==> #[trigger] blocks_disjoint(s, seqs[k]) && blocks_disjoint(
            seqs[k],
            s,
        )
}

pub proof fn lemma_total_cost_push(entries: Seq<ScheduledSeq>, e: ScheduledSeq)
    ensures
        spec_total_cost(entries.push(e)) == spec_total_cost(entries) + e.token_count,
{
    assert(entries.push(e).drop_last() =~= entries);
    assert(entries.push(e).last() == e);
}

/// Whatever a prefix of a sequence contains, the sequence contains.
pub proof fn lemma_prefix_contains(s: Seq<usize>, k: int, x: usize)
    requires
        0 <= k <= s.len(),
    ensures
        s.subrange(0, k).contains(x) ==> s.contains(x),
{
    if s.subrange(0, k).contains(x) {
        let i = choose|i: int| 0 <= i < k && s.subrange(0, k)[i] == x;
        assert(s[i] == x);
    }
}

/// Membership of `(a + b)` splits over the two parts.
pub proof fn lemma_concat_contains(a: Seq<usize>, b: Seq<usize>, x: usize)
    ensures
        (a + b).contains(x) <==> a.contains(x) || b.contains(x),
{
    if (a + b).contains(x) {
        let i = choose|i: int| 0 <= i < (a + b).len() && (a + b)[i] == x;
        if i < a.len() {
            assert(a[i] == x);
        } else {
            assert(b[i - a.len()] == x);
        }
    }
    if a.contains(x) {
        let i = choose|i: int| 0 <= i < a.len() && a[i] == x;
        assert((a + b)[i] == x);
    }
    if b.contains(x) {
        let i = choose|i: int| 0 <= i < b.len() && b[i] == x;
        assert((a + b)[a.len() + i] == x);
    }
}

/// The per-step token cost the decode pass charges a running sequence
/// under a remaining budget: one token once fully cached, else the
/// uncached remainder capped by the chunk limit (when chunking is on) and
/// by the budget.
pub open spec fn spec_step_tokens(cfg: SchedulerConfig, s: Sequence, budget: int) -> int {
    if s.num_cached_tokens == s.spec_len() {
        1
    } else {
        let rem = s.spec_len() - s.num_cached_tokens;
        let capped = if cfg.enable_chunked_prefill && rem > cfg.max_chunked_prefill_size {
            cfg.max_chunked_prefill_size as int
        } else {
            rem
        };
        if capped > budget {
            budget
        } else {
            capped
        }
    }
}

/// What one batch entry promises of the live sequence it names: same id,
/// that sequence's block table, a decode cost of exactly one token, a
/// prefill chunk inside the uncached remainder, and blocks that can hold
/// the step's new cache entries.
pub open spec fn entry_matches_seq(e: ScheduledSeq, s: Sequence, block_size: nat) -> bool {
    &&& s.seq_id == e.seq_id
    &&& s.token_ids@ == e.token_ids@
    &&& s.block_ids@ == e.block_ids@
    &&& e.token_count >= 1
    &&& (e.is_prefill <==> s.num_cached_tokens < s.spec_len())
    &&& (!e.is_prefill ==> e.token_count == 1)
    &&& (e.is_prefill ==> s.num_cached_tokens + e.token_count <= s.spec_len())
    &&& s.num_cached_tokens + e.token_count <= s.block_ids@.len() * block_size
}

/// The entry names some sequence of the set and matches it.
pub open spec fn entry_in(e: ScheduledSeq, seqs: Seq<Sequence>, block_size: nat) -> bool {
    exists|j: int| 0 <= j < seqs.len() && entry_matches_seq(e, #[trigger] seqs[j], block_size)
}

/// Every entry of the batch names a sequence of the set and matches it.
pub open spec fn entries_match(
    entries: Seq<ScheduledSeq>,
    seqs: Seq<Sequence>,
    block_size: nat,
) -> bool {
    forall|i: int| 0 <= i < entries.len() ==> entry_in(#[trigger] entries[i], seqs, block_size)
}

/// A batch that matches a set still matches it after more sequences are
/// appended on the right.
pub proof fn lemma_entries_match_extend(
    entries: Seq<ScheduledSeq>,
    a: Seq<Sequence>,
    b: Seq<Sequence>,
    block_size: nat,
)
    requires
        entries_match(entries, a, block_size),
    ensures
        entries_match(entries, a + b, block_size),
{
    assert forall|i: int| 0 <= i < entries.len() implies entry_in(
        #[trigger] entries[i],
        a + b,
        block_size,
    ) by {
        assert(entry_in(entries[i], a, block_size));
        let j = choose|j: int| 0 <= j < a.len() && entry_matches_seq(entries[i], a[j], block_size);
        assert((a + b)[j] == a[j]);
        assert(entry_matches_seq(entries[i], (a + b)[j], block_size));
    }
}

/// An exact copy of a vector of plain values.
fn vec_copy<T: Copy>(v: &Vec<T>) -> (r: Vec<T>)
    ensures
        r@ == v@,
{
    let mut r: Vec<T> = Vec::new();
    let mut i: usize = 0;
    while i < v.len()
        invariant
            i <= v@.len(),
            r@ == v@.subrange(0, i as int),
        decreases v@.len() - i,
    {
        r.push(v[i]);
        proof {
            assert(r@ =~= v@.subrange(0, i + 1));
        }
        i = i + 1;
    }
    proof {
        assert(r@ =~= v@);
    }
    r
}

/// Some sequence of the set carries the given id.
pub open spec fn has_seq_id(seqs: Seq<Sequence>, seq_id: usize) -> bool {
    exists|i: int| 0 <= i < seqs.len() && (#[trigger] seqs[i]).seq_id == seq_id
}

/// `i` is the first position in the set carrying the given id.
pub open spec fn is_first_id_match(seqs: Seq<Sequence>, seq_id: usize, i: int) -> bool {
    &&& 0 <= i < seqs.len()
    &&& seqs[i].seq_id == seq_id
    &&& (forall|j: int| 0 <= j < i ==> (#[trigger] seqs[j]).seq_id != seq_id)
}

/// Owns the queues of sequences and the block pool, and decides each step
/// which sequences advance.
#[derive(Debug)]
pub struct Scheduler {
    pub config: SchedulerConfig,
    pub allocator: BlockAllocator,
    /// Sequences not yet admitted, front first; strict FIFO by arrival,
    /// except that preempted sequences re-enter at the front.
    pub waiting: Vec<Sequence>,
    /// Sequences receiving model steps, in admission order; the most
    /// recently admitted (the back) is preempted first.
    pub running: Vec<Sequence>,
    /// Next sequence id to issue; ids are never reused.
    pub next_seq_id: usize,
}

impl Scheduler {
    pub open spec fn nb(self) -> nat {
        self.config.num_kvcache_blocks as nat
    }

    pub open spec fn bs(self) -> nat {
        self.config.block_size as nat
    }

    /// The scheduler's invariant; every public operation preserves it.
    ///
    /// It carries the block-conservation equation (free blocks plus blocks
    /// owned by live sequences equal the pool), exclusive block ownership,
    /// the batch-width bound, and that no terminal sequence sits in a
    /// queue.
    pub open spec fn wf(self) -> bool {
        &&& self.config.wf()
        &&& self.allocator.wf()
        &&& self.allocator.num_blocks == self.config.num_kvcache_blocks
        &&& self.allocator.block_size == self.config.block_size
        &&& self.running@.len() <= self.config.max_num_seqs
        &&& seqs_wf(self.running@, self.nb(), self.bs())
        &&& seqs_running(self.running@)
        &&& pairwise_disjoint(self.running@)
        &&& free_disjoint(self.running@, self.allocator.free_list@)
        &&& self.allocator.free_list@.len() + total_blocks(self.running@) == self.nb()
        &&& waiting_wf(self.waiting@, self.nb(), self.bs())
    }

    /// Builds a scheduler over a fresh, fully free pool.
    ///
    /// Fails with `InvalidConfig` exactly when the configuration breaks a
    /// well-formedness check.
    pub fn new(config: SchedulerConfig) -> (r: Result<Scheduler, SchedulerError>)
        ensures
            r is Ok <==> config.wf(),
            r is Err ==> r == Result::<Scheduler, SchedulerError>::Err(
                SchedulerError::InvalidConfig,
            ),
            r matches Ok(s) ==> {
                &&& s.wf()
                &&& s.config == config
                &&& s.waiting@.len() == 0
                &&& s.running@.len() == 0
                &&& s.next_seq_id == 0
                &&& s.allocator.free_list@.len() == config.num_kvcache_blocks
            },
    {
        if config.block_size < 1 {
            return Err(SchedulerError::InvalidConfig);
        }
        if config.num_kvcache_blocks > usize::MAX / config.block_size {
            proof {
                let m = usize::MAX as int;
                let b = config.block_size as int;
                let n = config.num_kvcache_blocks as int;
                vstd::arithmetic::div_mod::lemma_fundamental_div_mod(m, b);
                vstd::arithmetic::div_mod::lemma_mod_bound(m, b);
                assert(n * b > m) by (nonlinear_arith)
                    requires
                        n > m / b,
                        m == b * (m / b) + m % b,
                        0 <= m % b < b,
                        b >= 1,
                ;
            }
            return Err(SchedulerError::InvalidConfig);
        }
        if config.max_num_seqs < 1 || config.max_num_batched_tokens < 1 {
            return Err(SchedulerError::InvalidConfig);
        }
        if config.enable_chunked_prefill && config.max_chunked_prefill_size < 1 {
            return Err(SchedulerError::InvalidConfig);
        }
        proof {
            let m = usize::MAX as int;
            let b = config.block_size as int;
            let n = config.num_kvcache_blocks as int;
            vstd::arithmetic::div_mod::lemma_fundamental_div_mod(m, b);
            vstd::arithmetic::div_mod::lemma_mod_bound(m, b);
            assert(n * b <= m) by (nonlinear_arith)
                requires
                    n <= m / b,
                    m == b * (m / b) + m % b,
                    0 <= m % b,
                    b >= 1,
            ;
        }
        let allocator = BlockAllocator::new(config.num_kvcache_blocks, config.block_size);
        Ok(
            Scheduler {
                config,
                allocator,
                waiting: Vec::new(),
                running: Vec::new(),
                next_seq_id: 0,
            },
        )
    }

    /// Exact count of currently unassigned blocks, for admission decisions
    /// without performing an allocation.
    pub fn free_blocks_count(&self) -> (r: usize)
        ensures
            r == self.allocator.free_list@.len(),
    {
        self.allocator.free_blocks_count()
    }

    /// Creates a sequence for a tokenized prompt and queues it, FIFO.
    ///
    /// Rejected at submission, with no sequence created: an empty prompt
    /// (`TokenizationFailed`), a prompt longer than `max_model_len`
    /// (`MaxTokensExceeded`), and a prompt that no allocation could ever
    /// hold together with one generated token, that is one of at least
    /// `num_kvcache_blocks * block_size` tokens (`InvalidBlockSize`).
    pub fn submit(&mut self, token_ids: Vec<u32>, sampling_params: Option<SamplingParams>) -> (r:
        Result<usize, SequenceError>)
        requires
            old(self).wf(),
            old(self).next_seq_id < usize::MAX,
        ensures
            final(self).wf(),
            final(self).config == old(self).config,
            final(self).allocator == old(self).allocator,
            final(self).running@ == old(self).running@,
            r is Err ==> final(self).waiting@ == old(self).waiting@ && final(self).next_seq_id
                == old(self).next_seq_id,
            token_ids@.len() == 0 <==> r == Result::<usize, SequenceError>::Err(
                SequenceError::TokenizationFailed,
            ),
            token_ids@.len() > 0 && token_ids@.len() > old(self).config.max_model_len <==> r
                == Result::<usize, SequenceError>::Err(SequenceError::MaxTokensExceeded),
            (token_ids@.len() > 0 && token_ids@.len() <= old(self).config.max_model_len
                && token_ids@.len() >= old(self).config.num_kvcache_blocks * old(
                self,
            ).config.block_size) <==> r == Result::<usize, SequenceError>::Err(
                SequenceError::InvalidBlockSize,
            ),
            r is Ok <==> (token_ids@.len() > 0 && token_ids@.len() <= old(
                self,
            ).config.max_model_len && token_ids@.len() < old(self).config.num_kvcache_blocks
                * old(self).config.block_size),
            r matches Ok(id) ==> {
                &&& id == old(self).next_seq_id
                &&& final(self).next_seq_id == old(self).next_seq_id + 1
                &&& final(self).waiting@.len() == old(self).waiting@.len() + 1
                &&& final(self).waiting@ == old(self).waiting@.push(final(self).waiting@.last())
                &&& {
                    let s = final(self).waiting@.last();
                    &&& s.seq_id == old(self).next_seq_id
                    &&& s.status is Waiting
                    &&& s.token_ids@ == token_ids@
                    &&& s.num_prompt_tokens == token_ids@.len()
                    &&& s.num_cached_tokens == 0
                    &&& s.block_ids@.len() == 0
                    &&& (sampling_params matches Some(p) ==> s.sampling_params == p)
                }
            },
    {
        if token_ids.len() == 0 {
            return Err(SequenceError::TokenizationFailed);
        }
        if token_ids.len() > self.config.max_model_len {
            return Err(SequenceError::MaxTokensExceeded);
        }
        let pool_capacity = self.config.num_kvcache_blocks * self.config.block_size;
        if token_ids.len() >= pool_capacity {
            return Err(SequenceError::InvalidBlockSize);
        }
        let seq = match Sequence::new(self.next_seq_id, token_ids, sampling_params) {
            Ok(s) => s,
            Err(_) => {
                proof {
                    assert(false);
                }
                return Err(SequenceError::TokenizationFailed);
            },
        };
        let id = self.next_seq_id;
        self.next_seq_id = self.next_seq_id + 1;
        let ghost old_waiting = self.waiting@;
        self.waiting.push(seq);
        proof {
            assert forall|i: int| 0 <= i < self.waiting@.len() implies {
                &&& (#[trigger] self.waiting@[i]).wf(self.nb(), self.bs())
                &&& self.waiting@[i].block_ids@.len() == 0
                &&& (self.waiting@[i].status is Waiting || self.waiting@[i].status is Preempted)
            } by {
                if i < old_waiting.len() {
                    assert(self.waiting@[i] == old_waiting[i]);
                }
            }
        }
        Ok(id)
    }

    /// Ends a sequence with a terminal error, wherever it is queued:
    /// removes it from its queue, returns its blocks to the pool, and
    /// hands back the errored sequence. `None` when no queued sequence
    /// carries the id (already finished, or never submitted).
    ///
    /// Per-sequence failures never abort the step loop: other sequences
    /// are untouched.
    pub fn fail_sequence(&mut self, seq_id: usize, reason: SequenceError) -> (r: Option<Sequence>)
        requires
            old(self).wf(),
        ensures
            final(self).wf(),
            final(self).config == old(self).config,
            final(self).next_seq_id == old(self).next_seq_id,
            r is None <==> !has_seq_id(old(self).waiting@, seq_id) && !has_seq_id(
                old(self).running@,
                seq_id,
            ),
            r is None ==> final(self).waiting@ == old(self).waiting@ && final(self).running@
                == old(self).running@ && final(self).allocator.free_list@ == old(
                self,
            ).allocator.free_list@,
            r matches Some(s) ==> {
                &&& s.seq_id == seq_id
                &&& s.status == SequenceStatus::Errored(reason)
                &&& s.block_ids@.len() == 0
                &&& s.num_cached_tokens == 0
            },
            has_seq_id(old(self).waiting@, seq_id) ==> exists|i: int|
                {
                    &&& #[trigger] is_first_id_match(old(self).waiting@, seq_id, i)
                    &&& final(self).waiting@ == old(self).waiting@.remove(i)
                    &&& final(self).running@ == old(self).running@
                    &&& final(self).allocator.free_list@ == old(self).allocator.free_list@
                    &&& (r matches Some(s) && s.token_ids@ == old(self).waiting@[i].token_ids@
                        && s.last_token == old(self).waiting@[i].last_token
                        && s.num_prompt_tokens == old(self).waiting@[i].num_prompt_tokens
                        && s.sampling_params == old(self).waiting@[i].sampling_params)
                },
            !has_seq_id(old(self).waiting@, seq_id) && has_seq_id(old(self).running@, seq_id)
                ==> exists|i: int|
                {
                    &&& #[trigger] is_first_id_match(old(self).running@, seq_id, i)
                    &&& final(self).running@ == old(self).running@.remove(i)
                    &&& final(self).waiting@ == old(self).waiting@
                    &&& final(self).allocator.free_list@ == old(self).allocator.free_list@ + old(
                        self,
                    ).running@[i].block_ids@
                    &&& (r matches Some(s) && s.token_ids@ == old(self).running@[i].token_ids@
                        && s.last_token == old(self).running@[i].last_token
                        && s.num_prompt_tokens == old(self).running@[i].num_prompt_tokens
                        && s.sampling_params == old(self).running@[i].sampling_params)
                },
    {
        let found_waiting = find_in(&self.waiting, seq_id);
        if let Some(i) = found_waiting {
            let ghost old_waiting = self.waiting@;
            let mut s = self.waiting.remove(i);
            s.status = SequenceStatus::Errored(reason);
            proof {
                assert forall|k: int| 0 <= k < self.waiting@.len() implies {
                    &&& (#[trigger] self.waiting@[k]).wf(self.nb(), self.bs())
                    &&& self.waiting@[k].block_ids@.len() == 0
                    &&& (self.waiting@[k].status is Waiting || self.waiting@[k].status
                        is Preempted)
                } by {
                    if k < i {
                        assert(self.waiting@[k] == old_waiting[k]);
                    } else {
                        assert(self.waiting@[k] == old_waiting[k + 1]);
                    }
                }
                assert(is_first_id_match(old_waiting, seq_id, i as int));
            }
            return Some(s);
        }
        let found_running = find_in(&self.running, seq_id);
        if let Some(i) = found_running {
            let ghost old_running = self.running@;
            let ghost old_free = self.allocator.free_list@;
            let mut s = self.running.remove(i);
            proof {
                lemma_total_blocks_remove(old_running, i as int);
                assert forall|k: int| 0 <= k < self.running@.len() implies (
                #[trigger] self.running@[k]) == if k < i {
                    old_running[k]
                } else {
                    old_running[k + 1]
                } by {}
                assert forall|k: int, l: int|
                    0 <= k < self.running@.len() && 0 <= l < self.running@.len() && k
                        != l implies #[trigger] blocks_disjoint(
                    self.running@[k],
                    self.running@[l],
                ) by {
                    let k0 = if k < i {
                        k
                    } else {
                        k + 1
                    };
                    let l0 = if l < i {
                        l
                    } else {
                        l + 1
                    };
                    assert(blocks_disjoint(old_running[k0], old_running[l0]));
                }
            }
            self.allocator.free(&mut s);
            s.status = SequenceStatus::Errored(reason);
            proof {
                let released = old_running[i as int].block_ids@;
                assert forall|k: int, x: usize|
                    0 <= k < self.running@.len() && #[trigger] self.running@[k].block_ids@.contains(
                        x,
                    ) implies !self.allocator.free_list@.contains(x) by {
                    let k0 = if k < i {
                        k
                    } else {
                        k + 1
                    };
                    assert(old_running[k0].block_ids@.contains(x));
                    assert(blocks_disjoint(old_running[i as int], old_running[k0]));
                    lemma_concat_contains(old_free, released, x);
                    if released.contains(x) {
                        assert(!old_running[k0].block_ids@.contains(x));
                    }
                }
                assert(is_first_id_match(old_running, seq_id, i as int));
            }
            return Some(s);
        }
        None
    }

    /// Client-requested cancellation: the sequence becomes
    /// `Errored(Cancelled)` and leaves its queue at once. A sequence still
    /// `Waiting` is removed without a block ever having been allocated for
    /// it: the free list is untouched.
    pub fn cancel(&mut self, seq_id: usize) -> (r: Option<Sequence>)
        requires
            old(self).wf(),
        ensures
            final(self).wf(),
            final(self).config == old(self).config,
            final(self).next_seq_id == old(self).next_seq_id,
            r is None <==> !has_seq_id(old(self).waiting@, seq_id) && !has_seq_id(
                old(self).running@,
                seq_id,
            ),
            r is None ==> final(self).waiting@ == old(self).waiting@ && final(self).running@
                == old(self).running@ && final(self).allocator.free_list@ == old(
                self,
            ).allocator.free_list@,
            r matches Some(s) ==> {
                &&& s.seq_id == seq_id
                &&& s.status == SequenceStatus::Errored(SequenceError::Cancelled)
                &&& s.block_ids@.len() == 0
                &&& s.num_cached_tokens == 0
            },
            has_seq_id(old(self).waiting@, seq_id) ==> exists|i: int|
                {
                    &&& #[trigger] is_first_id_match(old(self).waiting@, seq_id, i)
                    &&& final(self).waiting@ == old(self).waiting@.remove(i)
                    &&& final(self).running@ == old(self).running@
                    &&& final(self).allocator.free_list@ == old(self).allocator.free_list@
                    &&& (r matches Some(s) && s.token_ids@ == old(self).waiting@[i].token_ids@
                        && s.last_token == old(self).waiting@[i].last_token
                        && s.num_prompt_tokens == old(self).waiting@[i].num_prompt_tokens
                        && s.sampling_params == old(self).waiting@[i].sampling_params)
                },
            !has_seq_id(old(self).waiting@, seq_id) && has_seq_id(old(self).running@, seq_id)
                ==> exists|i: int|
                {
                    &&& #[trigger] is_first_id_match(old(self).running@, seq_id, i)
                    &&& final(self).running@ == old(self).running@.remove(i)
                    &&& final(self).waiting@ == old(self).waiting@
                    &&& final(self).allocator.free_list@ == old(self).allocator.free_list@ + old(
                        self,
                    ).running@[i].block_ids@
                    &&& (r matches Some(s) && s.token_ids@ == old(self).running@[i].token_ids@
                        && s.last_token == old(self).running@[i].last_token
                        && s.num_prompt_tokens == old(self).running@[i].num_prompt_tokens
                        && s.sampling_params == old(self).running@[i].sampling_params)
                },
    {
        self.fail_sequence(seq_id, SequenceError::Cancelled)
    }

    /// Applies one model-step result to a fully cached running sequence:
    /// appends the token, advances the cached count by one, and evaluates
    /// the stop rule. A finished sequence leaves `running`, its blocks
    /// return to the pool, and it is handed back with `Finished` status;
    /// otherwise the sequence keeps running and `Ok(None)` is returned.
    ///
    /// Errors, all leaving the scheduler unchanged: `UnknownSequence`
    /// when no running sequence carries the id; `SequenceNotReady` when
    /// the sequence is not fully cached; `InsufficientCapacity` when its
    /// blocks have no room for the new token's cache entry.
    pub fn apply_decode_token(&mut self, seq_id: usize, token: u32) -> (r: Result<
        Option<Sequence>,
        SchedulerError,
    >)
        requires
            old(self).wf(),
        ensures
            final(self).wf(),
            final(self).config == old(self).config,
            final(self).next_seq_id == old(self).next_seq_id,
            final(self).waiting@ == old(self).waiting@,
            !has_seq_id(old(self).running@, seq_id) <==> r == Result::<
                Option<Sequence>,
                SchedulerError,
            >::Err(SchedulerError::UnknownSequence),
            r is Err ==> final(self).running@ == old(self).running@
                && final(self).allocator.free_list@ == old(self).allocator.free_list@,
            has_seq_id(old(self).running@, seq_id) ==> exists|i: int|
                #[trigger] is_first_id_match(old(self).running@, seq_id, i) && {
                    let s0 = old(self).running@[i];
                    let eos = old(self).config.eos_token_id;
                    &&& (s0.num_cached_tokens != s0.spec_len() ==> r == Result::<
                        Option<Sequence>,
                        SchedulerError,
                    >::Err(SchedulerError::SequenceNotReady))
                    &&& (s0.num_cached_tokens == s0.spec_len() && s0.num_cached_tokens
                        >= s0.block_ids@.len() * old(self).config.block_size ==> r == Result::<
                        Option<Sequence>,
                        SchedulerError,
                    >::Err(SchedulerError::InsufficientCapacity))
                    &&& (s0.num_cached_tokens == s0.spec_len() && s0.num_cached_tokens
                        < s0.block_ids@.len() * old(self).config.block_size ==> {
                        let grown = s0.token_ids@.push(token);
                        &&& r is Ok
                        &&& (r matches Ok(out) && out matches Some(s1) ==> {
                            &&& s1.seq_id == seq_id
                            &&& s1.status is Finished
                            &&& s1.token_ids@ == grown
                            &&& s1.block_ids@.len() == 0
                            &&& s1.num_cached_tokens == 0
                            &&& s1.num_prompt_tokens == s0.num_prompt_tokens
                            &&& s1.sampling_params == s0.sampling_params
                            &&& s1.last_token == token
                            &&& s1.spec_is_finished(eos)
                            &&& final(self).running@ == old(self).running@.remove(i)
                            &&& final(self).allocator.free_list@ == old(
                                self,
                            ).allocator.free_list@ + s0.block_ids@
                        })
                        &&& (r matches Ok(out) && out is None ==> {
                            let s1 = final(self).running@[i];
                            &&& final(self).running@ == old(self).running@.update(i, s1)
                            &&& s1.seq_id == seq_id
                            &&& s1.status is Running
                            &&& s1.token_ids@ == grown
                            &&& s1.num_cached_tokens == s0.spec_len() + 1
                            &&& s1.block_ids@ == s0.block_ids@
                            &&& s1.num_prompt_tokens == s0.num_prompt_tokens
                            &&& s1.sampling_params == s0.sampling_params
                            &&& s1.last_token == token
                            &&& !s1.spec_is_finished(eos)
                            &&& final(self).allocator.free_list@ == old(
                                self,
                            ).allocator.free_list@
                        })
                    })
                },
    {
        let eos = self.config.eos_token_id;
        let i = match find_in(&self.running, seq_id) {
            None => {
                return Err(SchedulerError::UnknownSequence);
            },
            Some(i) => i,
        };
        let ghost old_running = self.running@;
        let ghost old_free = self.allocator.free_list@;
        let mut s = self.running.remove(i);
        proof {
            lemma_live_remove(old_running, old_free, self.nb(), self.bs(), i as int);
            lemma_total_blocks_remove(old_running, i as int);
        }
        if s.num_cached_tokens != s.len() {
            self.running.insert(i, s);
            proof {
                assert(self.running@ =~= old_running);
            }
            return Err(SchedulerError::SequenceNotReady);
        }
        if !fits_strictly(s.block_ids.len(), self.config.block_size, s.num_cached_tokens) {
            self.running.insert(i, s);
            proof {
                assert(self.running@ =~= old_running);
            }
            return Err(SchedulerError::InsufficientCapacity);
        }
        s.append_token(token);
        s.num_cached_tokens = s.len();
        if s.is_finished(eos) {
            self.allocator.free(&mut s);
            s.status = SequenceStatus::Finished;
            proof {
                let released = old_running[i as int].block_ids@;
                assert forall|k: int, x: usize|
                    0 <= k < self.running@.len() && #[trigger] self.running@[k].block_ids@.contains(
                        x,
                    ) implies !self.allocator.free_list@.contains(x) by {
                    lemma_concat_contains(old_free, released, x);
                    assert(blocks_disjoint(old_running.remove(i as int)[k], old_running[i as int]));
                }
            }
            Ok(Some(s))
        } else {
            proof {
                let rest = old_running.remove(i as int);
                assert forall|k: int| 0 <= k < rest.len() implies #[trigger] blocks_disjoint(
                    s,
                    rest[k],
                ) && blocks_disjoint(rest[k], s) by {
                    assert(blocks_disjoint(old_running[i as int], rest[k]));
                    assert(blocks_disjoint(rest[k], old_running[i as int]));
                }
                assert forall|x: usize| #[trigger] s.block_ids@.contains(x) implies !old_free.contains(
                    x,
                ) by {
                    assert(old_running[i as int].block_ids@.contains(x));
                }
                lemma_live_insert(
                    old_running.remove(i as int),
                    old_free,
                    self.nb(),
                    self.bs(),
                    i as int,
                    s,
                );
                lemma_total_blocks_insert(old_running.remove(i as int), i as int, s);
            }
            self.running.insert(i, s);
            proof {
                assert(self.running@ =~= old_running.update(i as int, s));
            }
            Ok(None)
        }
    }

    /// Records that a scheduled prefill chunk of `chunk` tokens has been
    /// cached for a running sequence. No token is generated by a prefill
    /// chunk; but when the chunk completes the prompt and the stop rule
    /// already holds (a re-admitted sequence whose history satisfies it,
    /// or a `max_tokens` of zero), the sequence finishes at once, its
    /// blocks return to the pool, and it is handed back.
    ///
    /// Errors, all leaving the scheduler unchanged: `UnknownSequence`
    /// when no running sequence carries the id; `SequenceNotReady` when
    /// the chunk is zero or overshoots the token history;
    /// `InsufficientCapacity` when the sequence's blocks cannot hold the
    /// chunk.
    pub fn apply_prefill_progress(&mut self, seq_id: usize, chunk: usize) -> (r: Result<
        Option<Sequence>,
        SchedulerError,
    >)
        requires
            old(self).wf(),
        ensures
            final(self).wf(),
            final(self).config == old(self).config,
            final(self).next_seq_id == old(self).next_seq_id,
            final(self).waiting@ == old(self).waiting@,
            !has_seq_id(old(self).running@, seq_id) <==> r == Result::<
                Option<Sequence>,
                SchedulerError,
            >::Err(SchedulerError::UnknownSequence),
            r is Err ==> final(self).running@ == old(self).running@
                && final(self).allocator.free_list@ == old(self).allocator.free_list@,
            has_seq_id(old(self).running@, seq_id) ==> exists|i: int|
                #[trigger] is_first_id_match(old(self).running@, seq_id, i) && {
                    let s0 = old(self).running@[i];
                    let eos = old(self).config.eos_token_id;
                    let target = s0.num_cached_tokens + chunk;
                    &&& (chunk == 0 || target > s0.spec_len() ==> r == Result::<
                        Option<Sequence>,
                        SchedulerError,
                    >::Err(SchedulerError::SequenceNotReady))
                    &&& (chunk >= 1 && target <= s0.spec_len() && target > s0.block_ids@.len()
                        * old(self).config.block_size ==> r == Result::<
                        Option<Sequence>,
                        SchedulerError,
                    >::Err(SchedulerError::InsufficientCapacity))
                    &&& (chunk >= 1 && target <= s0.spec_len() && target <= s0.block_ids@.len()
                        * old(self).config.block_size ==> {
                        &&& r is Ok
                        &&& (r matches Ok(out) ==> (out is Some <==> target == s0.spec_len()
                            && s0.spec_is_finished(eos)))
                        &&& (r matches Ok(out) && out matches Some(s1) ==> {
                            &&& s1.seq_id == seq_id
                            &&& s1.status is Finished
                            &&& s1.token_ids@ == s0.token_ids@
                            &&& s1.block_ids@.len() == 0
                            &&& s1.num_cached_tokens == 0
                            &&& s1.num_prompt_tokens == s0.num_prompt_tokens
                            &&& s1.last_token == s0.last_token
                            &&& s1.sampling_params == s0.sampling_params
                            &&& final(self).running@ == old(self).running@.remove(i)
                            &&& final(self).allocator.free_list@ == old(
                                self,
                            ).allocator.free_list@ + s0.block_ids@
                        })
                        &&& (r matches Ok(out) && out is None ==> {
                            let s1 = final(self).running@[i];
                            &&& final(self).running@ == old(self).running@.update(i, s1)
                            &&& s1.seq_id == seq_id
                            &&& s1.status is Running
                            &&& s1.token_ids@ == s0.token_ids@
                            &&& s1.num_cached_tokens == target
                            &&& s1.block_ids@ == s0.block_ids@
                            &&& s1.num_prompt_tokens == s0.num_prompt_tokens
                            &&& s1.last_token == s0.last_token
                            &&& s1.sampling_params == s0.sampling_params
                            &&& final(self).allocator.free_list@ == old(
                                self,
                            ).allocator.free_list@
                        })
                    })
                },
    {
        let eos = self.config.eos_token_id;
        let i = match find_in(&self.running, seq_id) {
            None => {
                return Err(SchedulerError::UnknownSequence);
            },
            Some(i) => i,
        };
        let ghost old_running = self.running@;
        let ghost old_free = self.allocator.free_list@;
        let mut s = self.running.remove(i);
        proof {
            lemma_live_remove(old_running, old_free, self.nb(), self.bs(), i as int);
            lemma_total_blocks_remove(old_running, i as int);
        }
        if chunk == 0 || chunk > s.len() - s.num_cached_tokens {
            self.running.insert(i, s);
            proof {
                assert(self.running@ =~= old_running);
            }
            return Err(SchedulerError::SequenceNotReady);
        }
        let target = s.num_cached_tokens + chunk;
        if !fits_strictly(s.block_ids.len(), self.config.block_size, target - 1) {
            self.running.insert(i, s);
            proof {
                assert(self.running@ =~= old_running);
            }
            return Err(SchedulerError::InsufficientCapacity);
        }
        s.num_cached_tokens = target;
        let done = s.num_cached_tokens == s.len();
        if done && s.is_finished(eos) {
            self.allocator.free(&mut s);
            s.status = SequenceStatus::Finished;
            proof {
                let released = old_running[i as int].block_ids@;
                assert forall|k: int, x: usize|
                    0 <= k < self.running@.len() && #[trigger] self.running@[k].block_ids@.contains(
                        x,
                    ) implies !self.allocator.free_list@.contains(x) by {
                    lemma_concat_contains(old_free, released, x);
                    assert(blocks_disjoint(old_running.remove(i as int)[k], old_running[i as int]));
                }
            }
            Ok(Some(s))
        } else {
            proof {
                let rest = old_running.remove(i as int);
                assert forall|k: int| 0 <= k < rest.len() implies #[trigger] blocks_disjoint(
                    s,
                    rest[k],
                ) && blocks_disjoint(rest[k], s) by {
                    assert(blocks_disjoint(old_running[i as int], rest[k]));
                    assert(blocks_disjoint(rest[k], old_running[i as int]));
                }
                assert forall|x: usize| #[trigger] s.block_ids@.contains(x) implies !old_free.contains(
                    x,
                ) by {
                    assert(old_running[i as int].block_ids@.contains(x));
                }
                lemma_live_insert(
                    old_running.remove(i as int),
                    old_free,
                    self.nb(),
                    self.bs(),
                    i as int,
                    s,
                );
                lemma_total_blocks_insert(old_running.remove(i as int), i as int, s);
            }
            self.running.insert(i, s);
            proof {
                assert(self.running@ =~= old_running.update(i as int, s));
            }
            Ok(None)
        }
    }

    /// Whether the front of `waiting` could be admitted into an otherwise
    /// idle step: its first prefill chunk fits the token budget and the
    /// free blocks.
    pub open spec fn spec_can_admit_first(self) -> bool
        recommends
            self.waiting@.len() > 0,
    {
        let len = self.waiting@[0].token_ids@.len() as int;
        let chunk = if self.config.enable_chunked_prefill {
            let c1 = if len <= self.config.max_chunked_prefill_size {
                len
            } else {
                self.config.max_chunked_prefill_size as int
            };
            if c1 <= self.config.max_num_batched_tokens {
                c1
            } else {
                self.config.max_num_batched_tokens as int
            }
        } else {
            len
        };
        &&& chunk <= self.config.max_num_batched_tokens
        &&& spec_blocks_for(chunk as nat, self.bs()) <= self.allocator.free_list@.len()
    }

    /// Produces the batch for one step.
    ///
    /// Decode pass first: every running sequence is given one more
    /// block-checked step (one token once fully cached, a further prefill
    /// chunk otherwise), in admission order, while the token budget lasts.
    /// A sequence that needs a block the pool cannot give triggers
    /// preemption of the most recently admitted running sequences (LIFO),
    /// which are freed, marked `Preempted` and pushed to the front of
    /// `waiting`; if no victim remains the step starves and is reported
    /// `stalled`. Admission pass second: fronts of `waiting` are admitted
    /// FIFO while the batch width, the token budget and the free blocks
    /// allow.
    pub fn schedule(&mut self) -> (r: ScheduleResult)
        requires
            old(self).wf(),
        ensures
            final(self).wf(),
            final(self).config == old(self).config,
            final(self).next_seq_id == old(self).next_seq_id,
            final(self).running@.len() <= old(self).config.max_num_seqs,
            0 <= spec_total_cost(r.entries@) <= old(self).config.max_num_batched_tokens,
            forall|i: int| 0 <= i < r.entries@.len() ==> (#[trigger] r.entries@[i]).token_count
                >= 1,
            entries_match(r.entries@, final(self).running@, old(self).config.block_size as nat),
            forall|i: int|
                0 <= i < r.preempted_ids@.len() ==> has_seq_id(
                    old(self).running@,
                    #[trigger] r.preempted_ids@[i],
                ) && (has_seq_id(final(self).waiting@, r.preempted_ids@[i]) || has_seq_id(
                    final(self).running@,
                    r.preempted_ids@[i],
                )),
            r.stalled ==> old(self).running@.len() > 0,
            r.stalled ==> final(self).running@.len() >= 1
                && final(self).allocator.free_list@.len() < final(self).allocator.spec_blocks_needed(
                final(self).running@.last(),
                final(self).running@.last().num_cached_tokens + spec_step_tokens(
                    old(self).config,
                    final(self).running@.last(),
                    old(self).config.max_num_batched_tokens - spec_total_cost(r.entries@),
                ),
            ),
            old(self).running@.len() > 0 && !r.stalled ==> r.entries@.len() >= 1 && r.entries@[
                0
            ].seq_id == old(self).running@[0].seq_id,
            old(self).running@.len() == 0 && old(self).waiting@.len() > 0 && old(
                self,
            ).spec_can_admit_first() ==> r.entries@.len() >= 1 && !r.stalled,
    {
        let mut entries: Vec<ScheduledSeq> = Vec::new();
        let mut preempted_ids: Vec<usize> = Vec::new();
        let mut kept: Vec<Sequence> = Vec::new();
        let mut budget: usize = self.config.max_num_batched_tokens;
        let mut stalled = false;
        while self.running.len() > 0 && budget > 0 && !stalled
            invariant
                self.config == old(self).config,
                self.config.wf(),
                self.next_seq_id == old(self).next_seq_id,
                self.allocator.wf(),
                self.allocator.num_blocks == self.config.num_kvcache_blocks,
                self.allocator.block_size == self.config.block_size,
                seqs_wf(kept@, self.nb(), self.bs()),
                seqs_running(kept@),
                pairwise_disjoint(kept@),
                free_disjoint(kept@, self.allocator.free_list@),
                seqs_wf(self.running@, self.nb(), self.bs()),
                seqs_running(self.running@),
                pairwise_disjoint(self.running@),
                free_disjoint(self.running@, self.allocator.free_list@),
                cross_disjoint(kept@, self.running@),
                cross_disjoint(self.running@, kept@),
                self.allocator.free_list@.len() + total_blocks(kept@) + total_blocks(self.running@)
                    == self.nb(),
                waiting_wf(self.waiting@, self.nb(), self.bs()),
                kept@.len() + self.running@.len() <= self.config.max_num_seqs,
                budget <= self.config.max_num_batched_tokens,
                spec_total_cost(entries@) + budget == self.config.max_num_batched_tokens,
                forall|i: int| 0 <= i < entries@.len() ==> (#[trigger] entries@[i]).token_count
                    >= 1,
                entries_match(entries@, kept@, self.bs()),
                !stalled && entries@.len() > 0 ==> old(self).running@.len() > 0 && entries@[
                    0
                ].seq_id == old(self).running@[0].seq_id,
                forall|k: int|
                    0 <= k < self.running@.len() ==> has_seq_id(
                        old(self).running@,
                        (#[trigger] self.running@[k]).seq_id,
                    ),
                forall|i: int|
                    0 <= i < preempted_ids@.len() ==> has_seq_id(
                        old(self).running@,
                        #[trigger] preempted_ids@[i],
                    ) && has_seq_id(self.waiting@, preempted_ids@[i]),
                !stalled ==> entries@.len() == kept@.len(),
                stalled ==> old(self).running@.len() > 0,
                stalled ==> kept@.len() >= 1 && self.running@.len() == 0
                    && self.allocator.free_list@.len() < self.allocator.spec_blocks_needed(
                    kept@.last(),
                    kept@.last().num_cached_tokens + spec_step_tokens(
                        self.config,
                        kept@.last(),
                        budget as int,
                    ),
                ),
                entries@.len() == 0 && !stalled ==> self.running@ == old(self).running@ && kept@
                    == Seq::<Sequence>::empty(),
                old(self).running@.len() == 0 ==> self.running@ == old(self).running@ && kept@
                    == Seq::<Sequence>::empty() && self.waiting@ == old(self).waiting@
                    && self.allocator.free_list@ == old(self).allocator.free_list@ && entries@
                    == Seq::<ScheduledSeq>::empty() && budget
                    == self.config.max_num_batched_tokens && !stalled,
            decreases self.running@.len(),
        {
            proof {
                if old(self).running@.len() == 0 {
                    assert(false);
                }
            }
            let ghost pre_running = self.running@;
            let ghost pre_free = self.allocator.free_list@;
            let mut s = self.running.remove(0);
            proof {
                lemma_live_remove(pre_running, pre_free, self.nb(), self.bs(), 0);
                lemma_total_blocks_remove(pre_running, 0);
                assert forall|k: int| 0 <= k < self.running@.len() implies #[trigger]
                    blocks_disjoint(s, self.running@[k]) && blocks_disjoint(
                    self.running@[k],
                    s,
                ) by {
                    assert(pre_running.remove(0)[k] == self.running@[k]);
                }
                assert forall|k: int| 0 <= k < kept@.len() implies #[trigger] blocks_disjoint(
                    s,
                    kept@[k],
                ) && blocks_disjoint(kept@[k], s) by {
                    assert(blocks_disjoint(kept@[k], pre_running[0]));
                    assert forall|x: usize| #[trigger] s.block_ids@.contains(x) implies !kept@[
                    k].block_ids@.contains(x) by {
                        if kept@[k].block_ids@.contains(x) {
                            assert(!pre_running[0].block_ids@.contains(x));
                        }
                    }
                }
                assert forall|k: int, l: int|
                    0 <= k < self.running@.len() && 0 <= l < kept@.len() implies #[trigger]
                    blocks_disjoint(self.running@[k], kept@[l]) by {
                    assert(self.running@[k] == pre_running[k + 1]);
                    assert(blocks_disjoint(pre_running[k + 1], kept@[l]));
                }
                assert forall|k: int, l: int|
                    0 <= k < kept@.len() && 0 <= l < self.running@.len() implies #[trigger]
                    blocks_disjoint(kept@[k], self.running@[l]) by {
                    assert(self.running@[l] == pre_running[l + 1]);
                    assert(blocks_disjoint(kept@[k], pre_running[l + 1]));
                }
                assert forall|k: int| 0 <= k < self.running@.len() implies has_seq_id(
                    old(self).running@,
                    (#[trigger] self.running@[k]).seq_id,
                ) by {
                    assert(self.running@[k] == pre_running[k + 1]);
                    assert(has_seq_id(old(self).running@, pre_running[k + 1].seq_id));
                }
            }
            let toklen = s.len();
            let cached = s.num_cached_tokens;
            let is_prefill = cached != toklen;
            let mut step: usize = 1;
            if is_prefill {
                step = toklen - cached;
                if self.config.enable_chunked_prefill && step
                    > self.config.max_chunked_prefill_size {
                    step = self.config.max_chunked_prefill_size;
                }
                if step > budget {
                    step = budget;
                }
            }
            let need: usize = if is_prefill {
                self.allocator.blocks_needed_for(&s, cached + step)
            } else {
                if fits_strictly(s.block_ids.len(), self.config.block_size, cached) {
                    0
                } else {
                    1
                }
            };
            let mut starved = false;
            while self.allocator.free_blocks_count() < need && !starved
                invariant
                    self.config == old(self).config,
                    self.config.wf(),
                    self.next_seq_id == old(self).next_seq_id,
                    self.allocator.wf(),
                    self.allocator.num_blocks == self.config.num_kvcache_blocks,
                    self.allocator.block_size == self.config.block_size,
                    s.wf(self.nb(), self.bs()),
                    s.status is Running,
                    disjoint_from_all(s, kept@),
                    disjoint_from_all(s, self.running@),
                    forall|x: usize| #[trigger]
                        s.block_ids@.contains(x) ==> !self.allocator.free_list@.contains(x),
                    seqs_wf(kept@, self.nb(), self.bs()),
                    seqs_running(kept@),
                    pairwise_disjoint(kept@),
                    free_disjoint(kept@, self.allocator.free_list@),
                    seqs_wf(self.running@, self.nb(), self.bs()),
                    seqs_running(self.running@),
                    pairwise_disjoint(self.running@),
                    free_disjoint(self.running@, self.allocator.free_list@),
                    cross_disjoint(kept@, self.running@),
                    cross_disjoint(self.running@, kept@),
                    self.allocator.free_list@.len() + total_blocks(kept@) + total_blocks(
                        self.running@,
                    ) + s.block_ids@.len() == self.nb(),
                    waiting_wf(self.waiting@, self.nb(), self.bs()),
                    kept@.len() + self.running@.len() + 1 <= self.config.max_num_seqs,
                    self.running@.len() < pre_running.len(),
                    old(self).running@.len() > 0,
                    forall|k: int|
                        0 <= k < self.running@.len() ==> has_seq_id(
                            old(self).running@,
                            (#[trigger] self.running@[k]).seq_id,
                        ),
                    forall|i: int|
                        0 <= i < preempted_ids@.len() ==> has_seq_id(
                            old(self).running@,
                            #[trigger] preempted_ids@[i],
                        ) && has_seq_id(self.waiting@, preempted_ids@[i]),
                    starved ==> self.allocator.free_list@.len() < need && self.running@.len()
                        == 0,
                decreases self.running@.len() + if starved {
                    0int
                } else {
                    1int
                },
            {
                if self.running.len() > 0 {
                    let ghost vic_running = self.running@;
                    let ghost vic_free = self.allocator.free_list@;
                    let last = self.running.len() - 1;
                    let mut victim = self.running.remove(last);
                    proof {
                        lemma_live_remove(vic_running, vic_free, self.nb(), self.bs(), last as int);
                        lemma_total_blocks_remove(vic_running, last as int);
                        assert(self.running@ =~= vic_running.remove(last as int));
                        assert forall|k: int| 0 <= k < self.running@.len() implies #[trigger]
                            blocks_disjoint(s, self.running@[k]) && blocks_disjoint(
                            self.running@[k],
                            s,
                        ) by {
                            assert(self.running@[k] == vic_running[k]);
                            assert(blocks_disjoint(s, vic_running[k]));
                            assert(blocks_disjoint(vic_running[k], s));
                        }
                        assert forall|k: int, l: int|
                            0 <= k < kept@.len() && 0 <= l < self.running@.len() implies #[trigger]
                            blocks_disjoint(kept@[k], self.running@[l]) by {
                            assert(self.running@[l] == vic_running[l]);
                            assert(blocks_disjoint(kept@[k], vic_running[l]));
                        }
                        assert forall|k: int, l: int|
                            0 <= k < self.running@.len() && 0 <= l < kept@.len() implies #[trigger]
                            blocks_disjoint(self.running@[k], kept@[l]) by {
                            assert(self.running@[k] == vic_running[k]);
                            assert(blocks_disjoint(vic_running[k], kept@[l]));
                        }
                        assert(victim == vic_running[last as int]);
                        assert(blocks_disjoint(s, vic_running[last as int]));
                        assert(blocks_disjoint(vic_running[last as int], s));
                        assert(blocks_disjoint(s, victim) && blocks_disjoint(victim, s));
                        assert forall|k: int| 0 <= k < kept@.len() implies #[trigger]
                            blocks_disjoint(victim, kept@[k]) by {
                            assert(blocks_disjoint(vic_running[last as int], kept@[k]));
                        }
                        assert forall|k: int| 0 <= k < self.running@.len() implies has_seq_id(
                            old(self).running@,
                            (#[trigger] self.running@[k]).seq_id,
                        ) by {
                            assert(self.running@[k] == vic_running[k]);
                            assert(has_seq_id(old(self).running@, vic_running[k].seq_id));
                        }
                        assert(has_seq_id(old(self).running@, vic_running[last as int].seq_id));
                    }
                    self.allocator.free(&mut victim);
                    proof {
                        let released = vic_running[last as int].block_ids@;
                        assert forall|k: int, x: usize|
                            0 <= k < self.running@.len() && #[trigger] self.running@[
                            k].block_ids@.contains(x) implies !self.allocator.free_list@.contains(
                            x,
                        ) by {
                            lemma_concat_contains(vic_free, released, x);
                            assert(blocks_disjoint(self.running@[k], vic_running[last as int]));
                        }
                        assert forall|k: int, x: usize|
                            0 <= k < kept@.len() && #[trigger] kept@[k].block_ids@.contains(
                                x,
                            ) implies !self.allocator.free_list@.contains(x) by {
                            lemma_concat_contains(vic_free, released, x);
                            assert(blocks_disjoint(kept@[k], vic_running[last as int]));
                        }
                        assert forall|x: usize| #[trigger] s.block_ids@.contains(
                            x,
                        ) implies !self.allocator.free_list@.contains(x) by {
                            lemma_concat_contains(vic_free, released, x);
                            assert(blocks_disjoint(s, vic_running[last as int]));
                        }
                    }
                    victim.status = SequenceStatus::Preempted;
                    let ghost pre_pids = preempted_ids@;
                    preempted_ids.push(victim.seq_id);
                    let ghost pre_waiting = self.waiting@;
                    self.waiting.insert(0, victim);
                    proof {
                        assert forall|k: int| 0 <= k < self.waiting@.len() implies {
                            &&& (#[trigger] self.waiting@[k]).wf(self.nb(), self.bs())
                            &&& self.waiting@[k].block_ids@.len() == 0
                            &&& (self.waiting@[k].status is Waiting || self.waiting@[k].status
                                is Preempted)
                        } by {
                            if k > 0 {
                                assert(self.waiting@[k] == pre_waiting[k - 1]);
                            }
                        }
                        assert forall|i: int| 0 <= i < preempted_ids@.len() implies has_seq_id(
                            old(self).running@,
                            #[trigger] preempted_ids@[i],
                        ) && has_seq_id(self.waiting@, preempted_ids@[i]) by {
                            if i < pre_pids.len() {
                                assert(preempted_ids@[i] == pre_pids[i]);
                                let w = choose|w: int|
                                    0 <= w < pre_waiting.len() && pre_waiting[w].seq_id
                                        == pre_pids[i];
                                assert(self.waiting@[w + 1] == pre_waiting[w]);
                                assert(has_seq_id(self.waiting@, pre_pids[i]));
                            } else {
                                assert(preempted_ids@[i] == victim.seq_id);
                                assert(victim.seq_id == vic_running[last as int].seq_id);
                                assert(self.waiting@[0] == victim);
                                assert(has_seq_id(self.waiting@, victim.seq_id));
                            }
                        }
                    }
                } else {
                    starved = true;
                }
            }
            if starved {
                stalled = true;
                proof {
                    if is_prefill {
                        assert(step == spec_step_tokens(self.config, s, budget as int));
                        assert(need == self.allocator.spec_blocks_needed(s, cached + step));
                    } else {
                        assert(need == 1);
                        assert(s.num_cached_tokens >= s.block_ids@.len() * self.bs());
                        assert(s.num_cached_tokens == s.block_ids@.len() * self.bs());
                        vstd::arithmetic::div_mod::lemma_fundamental_div_mod_converse(
                            1,
                            self.bs() as int,
                            if self.bs() == 1 {
                                1int
                            } else {
                                0int
                            },
                            if self.bs() == 1 {
                                0int
                            } else {
                                1int
                            },
                        );
                        assert(spec_blocks_for(1nat, self.bs()) == 1);
                        assert(self.allocator.spec_blocks_needed(s, cached + 1) == 1);
                        assert(spec_step_tokens(self.config, s, budget as int) == 1);
                    }
                }
                let ghost pre_kept = kept@;
                kept.push(s);
                proof {
                    assert(kept@.last() == s);
                    assert forall|i: int| 0 <= i < entries@.len() implies entry_in(
                        #[trigger] entries@[i],
                        kept@,
                        self.bs(),
                    ) by {
                        assert(entry_in(entries@[i], pre_kept, self.bs()));
                        let j = choose|j: int|
                            0 <= j < pre_kept.len() && entry_matches_seq(
                                entries@[i],
                                pre_kept[j],
                                self.bs(),
                            );
                        assert(kept@[j] == pre_kept[j]);
                        assert(entry_matches_seq(entries@[i], kept@[j], self.bs()));
                    }
                    lemma_total_blocks_push(pre_kept, s);
                    lemma_live_insert(
                        pre_kept,
                        self.allocator.free_list@,
                        self.nb(),
                        self.bs(),
                        pre_kept.len() as int,
                        s,
                    );
                    assert(kept@ =~= pre_kept.insert(pre_kept.len() as int, s));
                    assert forall|k: int, l: int|
                        0 <= k < kept@.len() && 0 <= l < self.running@.len() implies #[trigger]
                        blocks_disjoint(kept@[k], self.running@[l]) by {
                        if k < pre_kept.len() {
                            assert(kept@[k] == pre_kept[k]);
                        } else {
                            assert(kept@[k] == s);
                        }
                    }
                    assert forall|k: int, l: int|
                        0 <= k < self.running@.len() && 0 <= l < kept@.len() implies #[trigger]
                        blocks_disjoint(self.running@[k], kept@[l]) by {
                        if l < pre_kept.len() {
                            assert(kept@[l] == pre_kept[l]);
                        } else {
                            assert(kept@[l] == s);
                            assert(blocks_disjoint(s, self.running@[k]));
                            assert(blocks_disjoint(self.running@[k], s));
                        }
                    }
                }
            } else {
                let ghost alloc_free = self.allocator.free_list@;
                let ghost s_before = s;
                let granted = match self.allocator.try_allocate(&mut s, need) {
                    Ok(g) => g,
                    Err(_) => {
                        proof {
                            assert(false);
                        }
                        Vec::new()
                    },
                };
                proof {
                    let k = alloc_free.len() - need;
                    assert forall|p: int, q: int|
                        0 <= p < s.block_ids@.len() && 0 <= q < s.block_ids@.len() && p
                            != q implies s.block_ids@[p] != s.block_ids@[q] by {
                        let n0 = s_before.block_ids@.len() as int;
                        if p < n0 && q >= n0 {
                            if s.block_ids@[p] == s.block_ids@[q] {
                                assert(s_before.block_ids@.contains(s.block_ids@[p]));
                                assert(granted@.contains(s.block_ids@[q]));
                                assert(alloc_free.contains(s.block_ids@[q]));
                            }
                        } else if p >= n0 && q < n0 {
                            if s.block_ids@[p] == s.block_ids@[q] {
                                assert(s_before.block_ids@.contains(s.block_ids@[q]));
                                assert(granted@.contains(s.block_ids@[p]));
                                assert(alloc_free.contains(s.block_ids@[p]));
                            }
                        } else if p < n0 && q < n0 {
                            assert(s.block_ids@[p] == s_before.block_ids@[p]);
                            assert(s.block_ids@[q] == s_before.block_ids@[q]);
                        } else {
                            assert(s.block_ids@[p] == granted@[p - n0]);
                            assert(s.block_ids@[q] == granted@[q - n0]);
                        }
                    }
                    assert forall|p: int| 0 <= p < s.block_ids@.len() implies s.block_ids@[p]
                        < self.allocator.num_blocks by {
                        let n0 = s_before.block_ids@.len() as int;
                        if p >= n0 {
                            assert(s.block_ids@[p] == granted@[p - n0]);
                            assert(granted@.contains(granted@[p - n0]));
                            assert(alloc_free.contains(s.block_ids@[p]));
                            let w = choose|w: int|
                                0 <= w < alloc_free.len() && alloc_free[w] == s.block_ids@[p];
                            assert(alloc_free[w] < self.allocator.num_blocks);
                        }
                    }
                    assert((s.block_ids@.len() * self.bs()) >= (s_before.block_ids@.len()
                        * self.bs())) by (nonlinear_arith)
                        requires
                            s.block_ids@.len() >= s_before.block_ids@.len(),
                            self.bs() >= 0,
                    ;
                    assert(s.wf(self.nb(), self.bs()));
                    assert forall|x: usize| #[trigger] s.block_ids@.contains(
                        x,
                    ) implies !self.allocator.free_list@.contains(x) by {
                        lemma_concat_contains(s_before.block_ids@, granted@, x);
                        if s_before.block_ids@.contains(x) {
                            lemma_prefix_contains(alloc_free, k as int, x);
                        }
                    }
                    assert forall|l: int| 0 <= l < kept@.len() implies #[trigger] blocks_disjoint(
                        s,
                        kept@[l],
                    ) && blocks_disjoint(kept@[l], s) by {
                        assert forall|x: usize| #[trigger] s.block_ids@.contains(x) implies !kept@[
                        l].block_ids@.contains(x) by {
                            lemma_concat_contains(s_before.block_ids@, granted@, x);
                            if kept@[l].block_ids@.contains(x) {
                                assert(!alloc_free.contains(x));
                                assert(blocks_disjoint(s_before, kept@[l]));
                            }
                        }
                        assert forall|x: usize| #[trigger] kept@[l].block_ids@.contains(
                            x,
                        ) implies !s.block_ids@.contains(x) by {
                            lemma_concat_contains(s_before.block_ids@, granted@, x);
                            if s.block_ids@.contains(x) {
                                assert(!alloc_free.contains(x));
                                assert(blocks_disjoint(kept@[l], s_before));
                            }
                        }
                    }
                    assert forall|l: int| 0 <= l < self.running@.len() implies #[trigger]
                        blocks_disjoint(s, self.running@[l]) && blocks_disjoint(
                        self.running@[l],
                        s,
                    ) by {
                        assert forall|x: usize| #[trigger] s.block_ids@.contains(
                            x,
                        ) implies !self.running@[l].block_ids@.contains(x) by {
                            lemma_concat_contains(s_before.block_ids@, granted@, x);
                            if self.running@[l].block_ids@.contains(x) {
                                assert(!alloc_free.contains(x));
                                assert(blocks_disjoint(s_before, self.running@[l]));
                            }
                        }
                        assert forall|x: usize| #[trigger] self.running@[l].block_ids@.contains(
                            x,
                        ) implies !s.block_ids@.contains(x) by {
                            lemma_concat_contains(s_before.block_ids@, granted@, x);
                            if s.block_ids@.contains(x) {
                                assert(!alloc_free.contains(x));
                                assert(blocks_disjoint(self.running@[l], s_before));
                            }
                        }
                    }
                    assert forall|l: int, x: usize|
                        0 <= l < kept@.len() && #[trigger] kept@[l].block_ids@.contains(
                            x,
                        ) implies !self.allocator.free_list@.contains(x) by {
                        lemma_prefix_contains(alloc_free, k as int, x);
                    }
                    assert forall|l: int, x: usize|
                        0 <= l < self.running@.len() && #[trigger] self.running@[
                        l].block_ids@.contains(x) implies !self.allocator.free_list@.contains(
                        x,
                    ) by {
                        lemma_prefix_contains(alloc_free, k as int, x);
                    }
                }
                proof {
                    let bs_i = self.bs() as int;
                    let l0 = s_before.block_ids@.len() as int;
                    let l1 = s.block_ids@.len() as int;
                    if is_prefill {
                        if need == 0 {
                            assert(s.block_ids@ =~= s_before.block_ids@);
                            assert(self.allocator.spec_blocks_needed(
                                s_before,
                                cached + step as int,
                            ) == 0);
                            if cached + step > l0 * bs_i {
                                let missing = cached + step - l0 * bs_i;
                                assert(spec_blocks_for(missing as nat, self.bs()) == 0);
                                lemma_blocks_for_decompose(missing as nat, self.bs(), 0nat);
                                assert(missing <= 0);
                                assert(false);
                            }
                            assert(cached + step <= l1 * bs_i);
                        } else {
                            assert(granted@.len() == need);
                            assert(l1 == l0 + need);
                            lemma_blocks_for_decompose(
                                (cached + step) as nat,
                                self.bs(),
                                l0 as nat,
                            );
                            assert(spec_blocks_for((cached + step) as nat, self.bs()) == l0
                                + need);
                            lemma_blocks_for_decompose(
                                (cached + step) as nat,
                                self.bs(),
                                (l0 + need) as nat,
                            );
                            assert(cached + step <= (l0 + need) * bs_i);
                            assert(cached + step <= l1 * bs_i);
                        }
                    } else {
                        if need == 0 {
                            assert(s.block_ids@ =~= s_before.block_ids@);
                            assert(cached < l0 * bs_i);
                            assert(cached + 1 <= l1 * bs_i);
                        } else {
                            assert(cached == l0 * bs_i);
                            assert((l0 + 1) * bs_i == l0 * bs_i + bs_i) by (nonlinear_arith);
                            assert(cached + 1 <= l1 * bs_i);
                        }
                    }
                }
                let entry = ScheduledSeq {
                    seq_id: s.seq_id,
                    is_prefill,
                    token_count: step,
                    token_ids: vec_copy(&s.token_ids),
                    block_ids: vec_copy(&s.block_ids),
                };
                let ghost pre_entries = entries@;
                entries.push(entry);
                proof {
                    lemma_total_cost_push(pre_entries, entry);
                    assert(entry_matches_seq(entry, s, self.bs()));
                    if pre_entries.len() == 0 {
                        assert(pre_running == old(self).running@);
                        assert(entries@[0].seq_id == old(self).running@[0].seq_id);
                    }
                }
                budget = budget - step;
                let ghost pre_kept = kept@;
                kept.push(s);
                proof {
                    assert forall|i: int| 0 <= i < entries@.len() implies entry_in(
                        #[trigger] entries@[i],
                        kept@,
                        self.bs(),
                    ) by {
                        if i < pre_entries.len() {
                            assert(entries@[i] == pre_entries[i]);
                            assert(entry_in(pre_entries[i], pre_kept, self.bs()));
                            let j = choose|j: int|
                                0 <= j < pre_kept.len() && entry_matches_seq(
                                    pre_entries[i],
                                    pre_kept[j],
                                    self.bs(),
                                );
                            assert(kept@[j] == pre_kept[j]);
                            assert(entry_matches_seq(entries@[i], kept@[j], self.bs()));
                        } else {
                            assert(entries@[i] == entry);
                            assert(kept@[pre_kept.len() as int] == s);
                            assert(entry_matches_seq(
                                entries@[i],
                                kept@[pre_kept.len() as int],
                                self.bs(),
                            ));
                        }
                    }
                    lemma_total_blocks_push(pre_kept, s);
                    lemma_live_insert(
                        pre_kept,
                        self.allocator.free_list@,
                        self.nb(),
                        self.bs(),
                        pre_kept.len() as int,
                        s,
                    );
                    assert(kept@ =~= pre_kept.insert(pre_kept.len() as int, s));
                    assert forall|k: int, l: int|
                        0 <= k < kept@.len() && 0 <= l < self.running@.len() implies #[trigger]
                        blocks_disjoint(kept@[k], self.running@[l]) by {
                        if k < pre_kept.len() {
                            assert(kept@[k] == pre_kept[k]);
                        } else {
                            assert(kept@[k] == s);
                        }
                    }
                    assert forall|k: int, l: int|
                        0 <= k < self.running@.len() && 0 <= l < kept@.len() implies #[trigger]
                        blocks_disjoint(self.running@[k], kept@[l]) by {
                        if l < pre_kept.len() {
                            assert(kept@[l] == pre_kept[l]);
                        } else {
                            assert(kept@[l] == s);
                            assert(blocks_disjoint(s, self.running@[k]));
                            assert(blocks_disjoint(self.running@[k], s));
                        }
                    }
                }
            }
        }
        let ghost kept_mid = kept@;
        let ghost running_mid = self.running@;
        kept.append(&mut self.running);
        self.running = kept;
        proof {
            lemma_total_blocks_concat(kept_mid, running_mid);
            lemma_live_concat(
                kept_mid,
                running_mid,
                self.allocator.free_list@,
                self.nb(),
                self.bs(),
            );
            lemma_entries_match_extend(entries@, kept_mid, running_mid, self.bs());
            if stalled {
                assert(running_mid == Seq::<Sequence>::empty());
                assert(self.running@ =~= kept_mid);
                assert(self.running@.last() == kept_mid.last());
            }
            assert forall|i: int| 0 <= i < preempted_ids@.len() implies has_seq_id(
                self.waiting@,
                #[trigger] preempted_ids@[i],
            ) by {}
        }
        if !stalled {
            while self.waiting.len() > 0 && budget > 0 && self.running.len()
                < self.config.max_num_seqs
                invariant
                    self.config == old(self).config,
                    self.config.wf(),
                    self.next_seq_id == old(self).next_seq_id,
                    self.allocator.wf(),
                    self.allocator.num_blocks == self.config.num_kvcache_blocks,
                    self.allocator.block_size == self.config.block_size,
                    seqs_wf(self.running@, self.nb(), self.bs()),
                    seqs_running(self.running@),
                    pairwise_disjoint(self.running@),
                    free_disjoint(self.running@, self.allocator.free_list@),
                    self.allocator.free_list@.len() + total_blocks(self.running@) == self.nb(),
                    waiting_wf(self.waiting@, self.nb(), self.bs()),
                    self.running@.len() <= self.config.max_num_seqs,
                    budget <= self.config.max_num_batched_tokens,
                    spec_total_cost(entries@) + budget == self.config.max_num_batched_tokens,
                    forall|i: int| 0 <= i < entries@.len() ==> (#[trigger] entries@[i]).token_count >= 1,
                    entries_match(entries@, self.running@, self.bs()),
                    forall|i: int|
                        0 <= i < preempted_ids@.len() ==> has_seq_id(
                            old(self).running@,
                            #[trigger] preempted_ids@[i],
                        ) && (has_seq_id(self.waiting@, preempted_ids@[i]) || has_seq_id(
                            self.running@,
                            preempted_ids@[i],
                        )),
                    !stalled,
                    old(self).running@.len() > 0 ==> entries@.len() >= 1 && entries@[0].seq_id
                        == old(self).running@[0].seq_id,
                    (old(self).running@.len() == 0 && old(self).waiting@.len() > 0 && old(
                        self,
                    ).spec_can_admit_first()) ==> (entries@.len() >= 1 || (entries@ == Seq::<
                        ScheduledSeq,
                    >::empty() && budget == self.config.max_num_batched_tokens
                        && self.running@.len() == 0 && self.waiting@ == old(self).waiting@
                        && self.allocator.free_list@ == old(self).allocator.free_list@)),
                ensures
                    (old(self).running@.len() == 0 && old(self).waiting@.len() > 0 && old(
                        self,
                    ).spec_can_admit_first()) ==> entries@.len() >= 1,
                decreases self.waiting@.len(),
            {
                let toklen = self.waiting[0].len();
                let mut step: usize = toklen;
                if self.config.enable_chunked_prefill {
                    if step > self.config.max_chunked_prefill_size {
                        step = self.config.max_chunked_prefill_size;
                    }
                    if step > budget {
                        step = budget;
                    }
                }
                if step > budget {
                    proof {
                        if old(self).running@.len() == 0 && old(self).waiting@.len() > 0 && old(
                            self,
                        ).spec_can_admit_first() && entries@.len() == 0 {
                            assert(false);
                        }
                    }
                    break ;
                }
                let need = self.allocator.blocks_needed_for(&self.waiting[0], step);
                if self.allocator.free_blocks_count() < need {
                    proof {
                        if old(self).running@.len() == 0 && old(self).waiting@.len() > 0 && old(
                            self,
                        ).spec_can_admit_first() && entries@.len() == 0 {
                            assert(false);
                        }
                    }
                    break ;
                }
                let ghost pre_waiting = self.waiting@;
                let ghost alloc_free = self.allocator.free_list@;
                let mut s = self.waiting.remove(0);
                proof {
                    assert forall|k: int| 0 <= k < self.waiting@.len() implies {
                        &&& (#[trigger] self.waiting@[k]).wf(self.nb(), self.bs())
                        &&& self.waiting@[k].block_ids@.len() == 0
                        &&& (self.waiting@[k].status is Waiting || self.waiting@[k].status
                            is Preempted)
                    } by {
                        assert(self.waiting@[k] == pre_waiting[k + 1]);
                    }
                }
                let granted = match self.allocator.try_allocate(&mut s, need) {
                    Ok(g) => g,
                    Err(_) => {
                        proof {
                            assert(false);
                        }
                        Vec::new()
                    },
                };
                s.status = SequenceStatus::Running;
                proof {
                    let k = alloc_free.len() - need;
                    assert(s.block_ids@ =~= granted@);
                    assert forall|p: int| 0 <= p < s.block_ids@.len() implies s.block_ids@[p]
                        < self.allocator.num_blocks by {
                        assert(granted@.contains(granted@[p]));
                        assert(alloc_free.contains(s.block_ids@[p]));
                        let w = choose|w: int|
                            0 <= w < alloc_free.len() && alloc_free[w] == s.block_ids@[p];
                        assert(alloc_free[w] < self.allocator.num_blocks);
                    }
                    assert((s.block_ids@.len() * self.bs()) >= 0) by (nonlinear_arith)
                        requires
                            s.block_ids@.len() >= 0,
                            self.bs() >= 0,
                    ;
                    assert(s.wf(self.nb(), self.bs()));
                    assert forall|l: int| 0 <= l < self.running@.len() implies #[trigger]
                        blocks_disjoint(s, self.running@[l]) && blocks_disjoint(
                        self.running@[l],
                        s,
                    ) by {
                        assert forall|x: usize| #[trigger] s.block_ids@.contains(
                            x,
                        ) implies !self.running@[l].block_ids@.contains(x) by {
                            if self.running@[l].block_ids@.contains(x) {
                                assert(!alloc_free.contains(x));
                            }
                        }
                        assert forall|x: usize| #[trigger] self.running@[l].block_ids@.contains(
                            x,
                        ) implies !s.block_ids@.contains(x) by {
                            if s.block_ids@.contains(x) {
                                assert(!alloc_free.contains(x));
                            }
                        }
                    }
                    assert forall|l: int, x: usize|
                        0 <= l < self.running@.len() && #[trigger] self.running@[
                        l].block_ids@.contains(x) implies !self.allocator.free_list@.contains(
                        x,
                    ) by {
                        lemma_prefix_contains(alloc_free, k as int, x);
                    }
                    let bs_i = self.bs() as int;
                    assert(s.num_cached_tokens == 0);
                    assert(s.spec_len() == toklen);
                    assert(pre_waiting[0].block_ids@.len() == 0);
                    assert(step >= 1);
                    if need == 0 {
                        assert(self.allocator.spec_blocks_needed(pre_waiting[0], step as int)
                            == 0);
                        assert(pre_waiting[0].block_ids@.len() * self.allocator.block_size == 0);
                        assert(step as int > 0);
                        assert(spec_blocks_for(step as nat, self.bs()) == 0);
                        lemma_blocks_for_decompose(step as nat, self.bs(), 0nat);
                        assert(step <= 0);
                        assert(false);
                    }
                    assert(granted@.len() == need);
                    assert(s.block_ids@.len() == need);
                    assert(need == spec_blocks_for(step as nat, self.bs()));
                    lemma_blocks_for_decompose(step as nat, self.bs(), need as nat);
                    assert(step <= need * bs_i);
                    assert(step <= s.block_ids@.len() * bs_i);
                }
                let entry = ScheduledSeq {
                    seq_id: s.seq_id,
                    is_prefill: true,
                    token_count: step,
                    token_ids: vec_copy(&s.token_ids),
                    block_ids: vec_copy(&s.block_ids),
                };
                let ghost pre_entries = entries@;
                entries.push(entry);
                proof {
                    lemma_total_cost_push(pre_entries, entry);
                    assert(entry_matches_seq(entry, s, self.bs()));
                }
                budget = budget - step;
                let ghost pre_run = self.running@;
                self.running.push(s);
                proof {
                    lemma_total_blocks_push(pre_run, s);
                    lemma_live_insert(
                        pre_run,
                        self.allocator.free_list@,
                        self.nb(),
                        self.bs(),
                        pre_run.len() as int,
                        s,
                    );
                    assert(self.running@ =~= pre_run.insert(pre_run.len() as int, s));
                    assert forall|i: int| 0 <= i < entries@.len() implies entry_in(
                        #[trigger] entries@[i],
                        self.running@,
                        self.bs(),
                    ) by {
                        if i < pre_entries.len() {
                            assert(entries@[i] == pre_entries[i]);
                            assert(entry_in(pre_entries[i], pre_run, self.bs()));
                            let j = choose|j: int|
                                0 <= j < pre_run.len() && entry_matches_seq(
                                    pre_entries[i],
                                    pre_run[j],
                                    self.bs(),
                                );
                            assert(self.running@[j] == pre_run[j]);
                            assert(entry_matches_seq(entries@[i], self.running@[j], self.bs()));
                        } else {
                            assert(entries@[i] == entry);
                            assert(self.running@[pre_run.len() as int] == s);
                            assert(entry_matches_seq(
                                entries@[i],
                                self.running@[pre_run.len() as int],
                                self.bs(),
                            ));
                        }
                    }
                    assert forall|i: int| 0 <= i < preempted_ids@.len() implies (has_seq_id(
                        self.waiting@,
                        #[trigger] preempted_ids@[i],
                    ) || has_seq_id(self.running@, preempted_ids@[i])) by {
                        let pid = preempted_ids@[i];
                        if has_seq_id(pre_waiting, pid) {
                            let w = choose|w: int|
                                0 <= w < pre_waiting.len() && pre_waiting[w].seq_id == pid;
                            if w == 0 {
                                assert(s.seq_id == pre_waiting[0].seq_id);
                                assert(self.running@[pre_run.len() as int] == s);
                                assert(has_seq_id(self.running@, pid));
                            } else {
                                assert(self.waiting@[w - 1] == pre_waiting[w]);
                                assert(has_seq_id(self.waiting@, pid));
                            }
                        } else {
                            let w = choose|w: int|
                                0 <= w < pre_run.len() && pre_run[w].seq_id == pid;
                            assert(self.running@[w] == pre_run[w]);
                            assert(has_seq_id(self.running@, pid));
                        }
                    }
                    if old(self).running@.len() > 0 {
                        assert(entries@[0] == pre_entries[0]);
                    }
                }
            }
        }
        proof {
            if old(self).running@.len() == 0 && old(self).waiting@.len() > 0 && old(
                self,
            ).spec_can_admit_first() && entries@.len() == 0 {
                assert(false);
            }
        }
        ScheduleResult { entries, preempted_ids, stalled }
    }
}

impl Scheduler {
    pub fn num_running(&self) -> (r: usize)
        ensures
            r == self.running@.len(),
    {
        self.running.len()
    }

    pub fn num_waiting(&self) -> (r: usize)
        ensures
            r == self.waiting@.len(),
    {
        self.waiting.len()
    }

    /// Ids of the waiting queue, front first.
    pub fn waiting_ids(&self) -> (r: Vec<usize>)
        ensures
            r@.len() == self.waiting@.len(),
            forall|i: int| 0 <= i < r@.len() ==> r@[i] == self.waiting@[i].seq_id,
    {
        ids_of(&self.waiting)
    }

    /// Ids of the running set, admission order.
    pub fn running_ids(&self) -> (r: Vec<usize>)
        ensures
            r@.len() == self.running@.len(),
            forall|i: int| 0 <= i < r@.len() ==> r@[i] == self.running@[i].seq_id,
    {
        ids_of(&self.running)
    }
}

/// A set of sequences that all hold zero blocks holds zero blocks in sum.
pub proof fn lemma_total_blocks_blockless(seqs: Seq<Sequence>)
    requires
        forall|i: int| 0 <= i < seqs.len() ==> (#[trigger] seqs[i]).block_ids@.len() == 0,
    ensures
        total_blocks(seqs) == 0,
    decreases seqs.len(),
{
    if seqs.len() > 0 {
        lemma_total_blocks_blockless(seqs.drop_last());
    }
}

/// Block conservation: in every well-formed scheduler state, the free
/// count plus the blocks held by the live (waiting and running) sequences
/// equals the pool size.
pub proof fn lemma_block_conservation(s: Scheduler)
    requires
        s.wf(),
    ensures
        s.allocator.free_list@.len() + total_blocks(s.running@) + total_blocks(s.waiting@)
            == s.config.num_kvcache_blocks,
{
    lemma_total_blocks_blockless(s.waiting@);
}

/// Exclusive ownership: no block id is held by two distinct live
/// sequences. Waiting and preempted sequences hold no blocks at all, so
/// the claim reduces to the running set.
pub proof fn lemma_no_shared_blocks(s: Scheduler, i: int, j: int, x: usize)
    requires
        s.wf(),
        0 <= i < s.running@.len(),
        0 <= j < s.running@.len(),
        i != j,
        s.running@[i].block_ids@.contains(x),
    ensures
        !s.running@[j].block_ids@.contains(x),
{
    assert(blocks_disjoint(s.running@[i], s.running@[j]));
}

/// A queued-but-not-running sequence owns no block.
pub proof fn lemma_waiting_holds_no_blocks(s: Scheduler, i: int)
    requires
        s.wf(),
        0 <= i < s.waiting@.len(),
    ensures
        s.waiting@[i].block_ids@.len() == 0,
{
}

/// Terminal states are absorbing with respect to the queues: a `Finished`
/// or `Errored` sequence is never in `waiting` or `running`. The queues
/// hold only `Waiting`/`Preempted` (waiting) and `Running` (running)
/// sequences, and every operation preserves this.
pub proof fn lemma_terminal_never_queued(s: Scheduler, i: int)
    requires
        s.wf(),
    ensures
        0 <= i < s.running@.len() ==> !s.running@[i].is_terminal(),
        0 <= i < s.waiting@.len() ==> !s.waiting@[i].is_terminal(),
{
}

/// Ids of a queue of sequences, in order.
fn ids_of(seqs: &Vec<Sequence>) -> (r: Vec<usize>)
    ensures
        r@.len() == seqs@.len(),
        forall|i: int| 0 <= i < r@.len() ==> r@[i] == seqs@[i].seq_id,
{
    let mut r: Vec<usize> = Vec::new();
    let mut i: usize = 0;
    while i < seqs.len()
        invariant
            i <= seqs@.len(),
            r@.len() == i,
            forall|j: int| 0 <= j < i ==> r@[j] == seqs@[j].seq_id,
        decreases seqs@.len() - i,
    {
        r.push(seqs[i].seq_id);
        i = i + 1;
    }
    r
}

/// First position in the queue carrying the given id, if any.
fn find_in(seqs: &Vec<Sequence>, seq_id: usize) -> (r: Option<usize>)
    ensures
        r matches Some(i) ==> is_first_id_match(seqs@, seq_id, i as int),
        r is None <==> !has_seq_id(seqs@, seq_id),
{
    let mut i: usize = 0;
    while i < seqs.len()
        invariant
            i <= seqs@.len(),
            forall|j: int| 0 <= j < i ==> (#[trigger] seqs@[j]).seq_id != seq_id,
        decreases seqs@.len() - i,
    {
        if seqs[i].seq_id == seq_id {
            return Some(i);
        }
        i = i + 1;
    }
    None
}

} // verus!
