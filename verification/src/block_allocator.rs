//! Fixed-pool KV-cache block allocator.
//!
//! The pool holds `num_blocks` blocks of `block_size` tokens each. A block
//! is either on the free list or owned by exactly one live sequence; the
//! allocator moves blocks between the free list and a sequence's
//! `block_ids` and nothing else ever does.

use vstd::prelude::*;

use crate::sequence::Sequence;

verus! {

/// Tagged-union error type for the allocator.
#[derive(Clone, Copy, Debug, PartialEq, Eq, Structural)]
pub enum AllocatorError {
    /// Fewer free blocks than the request asked for.
    OutOfMemory,
}

/// Number of blocks of size `block_size` needed to hold `tokens` tokens:
/// the division rounded up.
pub open spec fn spec_blocks_for(tokens: nat, block_size: nat) -> nat
    recommends
        block_size >= 1,
{
    tokens / block_size + if tokens % block_size == 0 {
        0nat
    } else {
        1nat
    }
}

/// How a covering in whole blocks decomposes past `held` blocks already
/// owned: the blocks still missing for `tokens` tokens are the rounded-up
/// total minus the blocks held, and none are missing exactly when the held
/// blocks already cover the tokens.
pub proof fn lemma_blocks_for_decompose(tokens: nat, block_size: nat, held: nat)
    requires
        block_size >= 1,
    ensures
        spec_blocks_for(tokens, block_size) <= held <==> tokens <= held * block_size,
        spec_blocks_for(tokens, block_size) > held ==> spec_blocks_for(
            (tokens - held * block_size) as nat,
            block_size,
        ) == spec_blocks_for(tokens, block_size) - held,
{
    let t = tokens as int;
    let b = block_size as int;
    let l = held as int;
    vstd::arithmetic::div_mod::lemma_fundamental_div_mod(t, b);
    vstd::arithmetic::div_mod::lemma_mod_bound(t, b);
    let q = t / b;
    let r = t % b;
    let c = spec_blocks_for(tokens, block_size) as int;
    if c <= l {
        assert(t <= l * b) by (nonlinear_arith)
            requires
                t == b * q + r,
                0 <= r < b,
                b >= 1,
                (r == 0 && q <= l) || (r != 0 && q + 1 <= l),
        ;
    } else {
        assert(t > l * b) by (nonlinear_arith)
            requires
                t == b * q + r,
                0 <= r < b,
                b >= 1,
                (r == 0 && q > l) || (r != 0 && q + 1 > l),
        ;
        assert(q >= l) by (nonlinear_arith)
            requires
                t == b * q + r,
                0 <= r < b,
                b >= 1,
                t > l * b,
                l >= 0,
        ;
        assert(t - l * b == b * (q - l) + r) by (nonlinear_arith)
            requires
                t == b * q + r,
        ;
        vstd::arithmetic::div_mod::lemma_fundamental_div_mod_converse(t - l * b, b, q - l, r);
    }
}

/// Splitting a duplicate-free sequence at `k` yields two duplicate-free,
/// disjoint parts.
pub proof fn lemma_split_no_duplicates(s: Seq<usize>, k: int)
    requires
        0 <= k <= s.len(),
        s.no_duplicates(),
    ensures
        s.subrange(0, k).no_duplicates(),
        s.subrange(k, s.len() as int).no_duplicates(),
        forall|x: usize| #[trigger]
            s.subrange(k, s.len() as int).contains(x) ==> !s.subrange(0, k).contains(x),
{
    let a = s.subrange(0, k);
    let b = s.subrange(k, s.len() as int);
    assert forall|x: usize| #[trigger] b.contains(x) implies !a.contains(x) by {
        if a.contains(x) && b.contains(x) {
            let i = choose|i: int| 0 <= i < a.len() && a[i] == x;
            let j = choose|j: int| 0 <= j < b.len() && b[j] == x;
            assert(s[i] == x);
            assert(s[k + j] == x);
        }
    }
}

/// Whether `blocks` blocks of `block_size` tokens each hold strictly more
/// than `covered` tokens, computed without forming the product.
pub fn fits_strictly(blocks: usize, block_size: usize, covered: usize) -> (r: bool)
    requires
        block_size >= 1,
    ensures
        r == ((covered as int) < blocks * block_size),
{
    proof {
        vstd::arithmetic::div_mod::lemma_fundamental_div_mod(covered as int, block_size as int);
        vstd::arithmetic::div_mod::lemma_mod_bound(covered as int, block_size as int);
        let q = covered as int / block_size as int;
        let r = covered as int % block_size as int;
        if q < blocks {
            assert(block_size * q + r < blocks * block_size) by (nonlinear_arith)
                requires
                    q + 1 <= blocks as int,
                    0 <= r < block_size,
                    block_size >= 1,
            ;
        } else {
            assert(block_size * q + r >= blocks * block_size) by (nonlinear_arith)
                requires
                    q >= blocks as int,
                    0 <= r,
                    block_size >= 1,
            ;
        }
    }
    covered / block_size < blocks
}

/// Manages the fixed pool of equally sized cache blocks.
#[derive(Clone, Debug)]
pub struct BlockAllocator {
    /// Identifiers of the currently unassigned blocks.
    pub free_list: Vec<usize>,
    /// Total pool size; block ids range over `0 .. num_blocks`.
    pub num_blocks: usize,
    /// Tokens of cache capacity per block.
    pub block_size: usize,
}

impl BlockAllocator {
    /// The allocator's own well-formedness: a duplicate-free free list of
    /// in-range block ids, and a positive block size.
    pub open spec fn wf(self) -> bool {
        &&& self.block_size >= 1
        &&& self.free_list@.no_duplicates()
        &&& (forall|i: int|
            0 <= i < self.free_list@.len() ==> self.free_list@[i] < self.num_blocks)
    }

    /// Creates an allocator with every block of the pool free.
    pub fn new(num_blocks: usize, block_size: usize) -> (r: BlockAllocator)
        requires
            block_size >= 1,
        ensures
            r.wf(),
            r.num_blocks == num_blocks,
            r.block_size == block_size,
            r.free_list@.len() == num_blocks,
            forall|i: int| 0 <= i < num_blocks ==> r.free_list@[i] == i,
    {
        let mut free_list: Vec<usize> = Vec::new();
        let mut i: usize = 0;
        while i < num_blocks
            invariant
                i <= num_blocks,
                free_list@.len() == i,
                forall|j: int| 0 <= j < i ==> free_list@[j] == j,
            decreases num_blocks - i,
        {
            free_list.push(i);
            i = i + 1;
        }
        BlockAllocator { free_list, num_blocks, block_size }
    }

    /// Exact count of currently unassigned blocks.
    pub fn free_blocks_count(&self) -> (r: usize)
        ensures
            r == self.free_list@.len(),
    {
        self.free_list.len()
    }

    /// Blocks a sequence still needs so that its whole token history is
    /// covered by cache capacity: the division rounded up over the tokens
    /// beyond what its current blocks hold.
    pub fn num_blocks_needed(&self, seq: &Sequence) -> (r: usize)
        requires
            self.wf(),
        ensures
            r == self.spec_blocks_needed(*seq, seq.spec_len() as int),
    {
        self.blocks_needed_for(seq, seq.len())
    }

    /// Blocks a sequence still needs so that `target` tokens are covered
    /// by cache capacity.
    pub open spec fn spec_blocks_needed(self, seq: Sequence, target: int) -> nat {
        let capacity = seq.block_ids@.len() * self.block_size;
        if target <= capacity {
            0nat
        } else {
            spec_blocks_for((target - capacity) as nat, self.block_size as nat)
        }
    }

    /// Exact computation of `spec_blocks_needed` for an in-range target.
    pub fn blocks_needed_for(&self, seq: &Sequence, target: usize) -> (r: usize)
        requires
            self.wf(),
        ensures
            r == self.spec_blocks_needed(*seq, target as int),
    {
        proof {
            lemma_blocks_for_decompose(
                target as nat,
                self.block_size as nat,
                seq.block_ids@.len(),
            );
        }
        if target == 0 {
            return 0;
        }
        let q: usize = target / self.block_size;
        let whole: usize = if target % self.block_size == 0 {
            q
        } else {
            proof {
                vstd::arithmetic::div_mod::lemma_fundamental_div_mod(
                    target as int,
                    self.block_size as int,
                );
                assert(self.block_size * (target as int / self.block_size as int) >= (
                target as int / self.block_size as int)) by (nonlinear_arith)
                    requires
                        self.block_size >= 1,
                        target as int / self.block_size as int >= 0,
                ;
            }
            q + 1
        };
        if whole > seq.block_ids.len() {
            whole - seq.block_ids.len()
        } else {
            0
        }
    }

    /// Moves `n` blocks from the free list to the sequence's `block_ids`
    /// and returns them; this is the only mutation path for `block_ids`.
    ///
    /// Fails with `OutOfMemory` exactly when fewer than `n` blocks are
    /// free, leaving allocator and sequence unchanged.
    pub fn try_allocate(&mut self, seq: &mut Sequence, n: usize) -> (r: Result<
        Vec<usize>,
        AllocatorError,
    >)
        requires
            old(self).wf(),
        ensures
            final(self).num_blocks == old(self).num_blocks,
            final(self).block_size == old(self).block_size,
            final(self).wf(),
            old(self).free_list@.len() < n ==> {
                &&& r == Result::<Vec<usize>, AllocatorError>::Err(AllocatorError::OutOfMemory)
                &&& *final(self) == *old(self)
                &&& *final(seq) == *old(seq)
            },
            old(self).free_list@.len() >= n ==> (r matches Ok(v) && {
                let k = old(self).free_list@.len() - n;
                &&& v@ == old(self).free_list@.subrange(k as int, old(self).free_list@.len() as int)
                &&& final(self).free_list@ == old(self).free_list@.subrange(0, k as int)
                &&& final(seq).block_ids@ == old(seq).block_ids@ + v@
                &&& v@.no_duplicates()
                &&& (forall|x: usize| #[trigger]
                    v@.contains(x) ==> !final(self).free_list@.contains(x) && old(
                        self,
                    ).free_list@.contains(x))
                &&& final(seq).seq_id == old(seq).seq_id
                &&& final(seq).status == old(seq).status
                &&& final(seq).token_ids@ == old(seq).token_ids@
                &&& final(seq).last_token == old(seq).last_token
                &&& final(seq).num_prompt_tokens == old(seq).num_prompt_tokens
                &&& final(seq).num_cached_tokens == old(seq).num_cached_tokens
                &&& final(seq).sampling_params == old(seq).sampling_params
            }),
    {
        if self.free_list.len() < n {
            return Err(AllocatorError::OutOfMemory);
        }
        let k = self.free_list.len() - n;
        let ghost old_free = self.free_list@;
        proof {
            lemma_split_no_duplicates(old_free, k as int);
        }
        let mut granted: Vec<usize> = Vec::new();
        let mut j: usize = k;
        while j < self.free_list.len()
            invariant
                k <= j <= self.free_list@.len(),
                self.free_list@ == old_free,
                granted@ == old_free.subrange(k as int, j as int),
                seq.block_ids@ == old(seq).block_ids@ + granted@,
                seq.seq_id == old(seq).seq_id,
                seq.status == old(seq).status,
                seq.token_ids@ == old(seq).token_ids@,
                seq.last_token == old(seq).last_token,
                seq.num_prompt_tokens == old(seq).num_prompt_tokens,
                seq.num_cached_tokens == old(seq).num_cached_tokens,
                seq.sampling_params == old(seq).sampling_params,
            decreases self.free_list@.len() - j,
        {
            let b = self.free_list[j];
            granted.push(b);
            seq.block_ids.push(b);
            proof {
                assert(granted@ =~= old_free.subrange(k as int, j + 1));
                assert(seq.block_ids@ =~= old(seq).block_ids@ + granted@);
            }
            j = j + 1;
        }
        self.free_list.truncate(k);
        proof {
            assert(granted@ =~= old_free.subrange(k as int, old_free.len() as int));
            assert(self.free_list@ =~= old_free.subrange(0, k as int));
        }
        Ok(granted)
    }

    /// Returns all of the sequence's blocks to the free set and clears its
    /// `block_ids` and `num_cached_tokens`. Freeing a sequence that holds
    /// no blocks is a no-op: the free list is left exactly as it was, so a
    /// second call in a row changes nothing.
    pub fn free(&mut self, seq: &mut Sequence)
        requires
            old(self).wf(),
            old(seq).block_ids@.no_duplicates(),
            forall|i: int|
                0 <= i < old(seq).block_ids@.len() ==> old(seq).block_ids@[i] < old(
                    self,
                ).num_blocks,
            forall|x: usize| #[trigger]
                old(seq).block_ids@.contains(x) ==> !old(self).free_list@.contains(x),
        ensures
            final(self).num_blocks == old(self).num_blocks,
            final(self).block_size == old(self).block_size,
            final(self).wf(),
            final(self).free_list@ == old(self).free_list@ + old(seq).block_ids@,
            final(seq).block_ids@.len() == 0,
            final(seq).num_cached_tokens == 0,
            old(seq).block_ids@.len() == 0 ==> final(self).free_list@ == old(self).free_list@,
            final(seq).block_ids@ == old(seq).block_ids@.subrange(0, 0),
            final(seq).seq_id == old(seq).seq_id,
            final(seq).status == old(seq).status,
            final(seq).token_ids@ == old(seq).token_ids@,
            final(seq).last_token == old(seq).last_token,
            final(seq).num_prompt_tokens == old(seq).num_prompt_tokens,
            final(seq).sampling_params == old(seq).sampling_params,
    {
        let ghost old_free = self.free_list@;
        let ghost old_blocks = seq.block_ids@;
        let mut i: usize = 0;
        while i < seq.block_ids.len()
            invariant
                i <= seq.block_ids@.len(),
                seq.block_ids@ == old_blocks,
                self.free_list@ == old_free + old_blocks.subrange(0, i as int),
                old_blocks.no_duplicates(),
                old_free.no_duplicates(),
                forall|j: int| 0 <= j < old_free.len() ==> old_free[j] < old(self).num_blocks,
                forall|j: int| 0 <= j < old_blocks.len() ==> old_blocks[j] < old(self).num_blocks,
                forall|x: usize| #[trigger] old_blocks.contains(x) ==> !old_free.contains(x),
                self.num_blocks == old(self).num_blocks,
                self.block_size == old(self).block_size,
            decreases seq.block_ids@.len() - i,
        {
            let b = seq.block_ids[i];
            self.free_list.push(b);
            proof {
                assert(old_blocks.contains(b));
                assert(self.free_list@ =~= old_free + old_blocks.subrange(0, i + 1));
            }
            i = i + 1;
        }
        proof {
            assert(self.free_list@ =~= old_free + old_blocks);
            assert forall|p: int, q: int|
                0 <= p < self.free_list@.len() && 0 <= q < self.free_list@.len() && p
                    != q implies self.free_list@[p] != self.free_list@[q] by {
                let n = old_free.len() as int;
                if p >= n && q >= n {
                    assert(self.free_list@[p] == old_blocks[p - n]);
                    assert(self.free_list@[q] == old_blocks[q - n]);
                } else if p >= n && q < n {
                    assert(old_blocks.contains(old_blocks[p - n]));
                    assert(old_free.contains(old_free[q]));
                } else if p < n && q >= n {
                    assert(old_blocks.contains(old_blocks[q - n]));
                    assert(old_free.contains(old_free[p]));
                }
            }
        }
        seq.block_ids.clear();
        seq.num_cached_tokens = 0;
        proof {
            if old_blocks.len() == 0 {
                assert(self.free_list@ =~= old_free);
            }
            assert(seq.block_ids@ =~= old_blocks.subrange(0, 0));
        }
    }
}

} // verus!
