//! Per-request sequence state machine: token history, sampling
//! configuration, cache-block ownership and lifecycle status.

use vstd::prelude::*;

verus! {

/// Sampling configuration, immutable after a sequence is created.
///
/// Only the fields the scheduler and the stop logic read are held here;
/// purely numerical sampling knobs that the model runner consumes
/// (temperature, nucleus mass) live with the host process.
#[derive(Clone, Debug)]
pub struct SamplingParams {
    /// Cap on the number of generated (non-prompt) tokens.
    pub max_tokens: usize,
    /// When true, the end-of-stream token does not stop generation.
    pub ignore_eos: bool,
    /// Generation stops as soon as one of these tokens is produced.
    pub stop_tokens: Vec<u32>,
    /// Number of candidate tokens the model runner samples from.
    pub top_k: usize,
}

impl Default for SamplingParams {
    fn default() -> (r: Self)
        ensures
            r.max_tokens == 100,
            !r.ignore_eos,
            r.stop_tokens@ == Seq::<u32>::empty(),
            r.top_k == 50,
    {
        SamplingParams {
            max_tokens: 100,
            ignore_eos: false,
            stop_tokens: Vec::new(),
            top_k: 50,
        }
    }
}

/// Why a sequence ended in an error state.
#[derive(Clone, Copy, Debug, PartialEq, Eq, Structural)]
pub enum SequenceError {
    /// The prompt is longer than the configured model length.
    MaxTokensExceeded,
    /// The prompt tokenized to nothing.
    TokenizationFailed,
    /// The model runner reported a failure for this sequence.
    GenerationFailed,
    /// The prompt cannot fit in the block pool under any allocation.
    InvalidBlockSize,
    /// The client cancelled the request.
    Cancelled,
}

/// Lifecycle state of a sequence.
#[derive(Clone, Copy, Debug, PartialEq, Eq, Structural)]
pub enum SequenceStatus {
    Waiting,
    Running,
    Preempted,
    Finished,
    Errored(SequenceError),
}

/// Why a completed sequence stopped generating.
#[derive(Clone, Copy, Debug, PartialEq, Eq, Structural)]
pub enum FinishReason {
    /// Hit the `max_tokens` cap.
    Length,
    /// Produced the end-of-stream token or a stop token.
    Stop,
    /// A propagated failure ended the sequence.
    Error,
}

/// Result handed back to the client for one completed request.
#[derive(Clone, Debug)]
pub struct GenerationOutput {
    pub text: String,
    pub token_ids: Vec<u32>,
    pub finish_reason: FinishReason,
    pub prompt_tokens: usize,
    pub completion_tokens: usize,
}

/// One in-flight generation request: prompt and generated tokens,
/// cache-block ownership, and lifecycle status.
#[derive(Clone, Debug)]
pub struct Sequence {
    /// Process-unique id, assigned at creation and never reused.
    pub seq_id: usize,
    pub status: SequenceStatus,
    /// Prompt tokens followed by generated tokens; append-only.
    pub token_ids: Vec<u32>,
    /// The most recently appended token.
    pub last_token: u32,
    /// Length of the prompt portion of `token_ids`; immutable.
    pub num_prompt_tokens: usize,
    /// How many leading tokens have their KV state resident in blocks.
    pub num_cached_tokens: usize,
    /// Cache blocks owned by this sequence, in allocation order.
    pub block_ids: Vec<usize>,
    pub sampling_params: SamplingParams,
}

impl Sequence {
    /// Total number of tokens (prompt plus generated).
    pub open spec fn spec_len(self) -> nat {
        self.token_ids@.len()
    }

    /// Number of generated (non-prompt) tokens.
    pub open spec fn spec_generated_len(self) -> int {
        self.spec_len() - self.num_prompt_tokens
    }

    /// A terminal sequence is immutable and owns no blocks.
    pub open spec fn is_terminal(self) -> bool {
        self.status is Finished || self.status matches SequenceStatus::Errored(_)
    }

    /// Structural well-formedness, relative to the pool geometry.
    pub open spec fn wf(self, num_blocks: nat, block_size: nat) -> bool {
        &&& 1 <= self.num_prompt_tokens <= self.token_ids@.len()
        &&& self.num_cached_tokens <= self.token_ids@.len()
        &&& self.num_cached_tokens <= self.block_ids@.len() * block_size
        &&& self.block_ids@.no_duplicates()
        &&& (forall|i: int| 0 <= i < self.block_ids@.len() ==> self.block_ids@[i] < num_blocks)
        &&& self.last_token == self.token_ids@.last()
    }

    /// The stop rule: the latest token is the end-of-stream token (unless
    /// end-of-stream is ignored) or a configured stop token.
    pub open spec fn spec_hit_stop(self, eos_token_id: u32) -> bool {
        ||| (self.last_token == eos_token_id && !self.sampling_params.ignore_eos)
        ||| self.sampling_params.stop_tokens@.contains(self.last_token)
    }

    /// Whether generation is over: a stop token matched, or the generated
    /// length reached `max_tokens`.
    pub open spec fn spec_is_finished(self, eos_token_id: u32) -> bool {
        ||| self.spec_hit_stop(eos_token_id)
        ||| self.spec_generated_len() >= self.sampling_params.max_tokens
    }

    /// Creates a sequence in the `Waiting` state.
    ///
    /// Fails with `TokenizationFailed` exactly when the prompt is empty.
    pub fn new(seq_id: usize, token_ids: Vec<u32>, sampling_params: Option<SamplingParams>) -> (r:
        Result<Sequence, SequenceError>)
        ensures
            token_ids@.len() == 0 <==> r is Err,
            r is Err ==> r == Result::<Sequence, SequenceError>::Err(
                SequenceError::TokenizationFailed,
            ),
            r matches Ok(s) ==> {
                &&& s.seq_id == seq_id
                &&& s.status is Waiting
                &&& s.token_ids@ == token_ids@
                &&& s.last_token == token_ids@.last()
                &&& s.num_prompt_tokens == token_ids@.len()
                &&& s.num_cached_tokens == 0
                &&& s.block_ids@.len() == 0
                &&& (sampling_params matches Some(p) ==> s.sampling_params == p)
                &&& (sampling_params is None ==> s.sampling_params.max_tokens == 100
                    && !s.sampling_params.ignore_eos && s.sampling_params.stop_tokens@.len() == 0)
            },
    {
        if token_ids.len() == 0 {
            return Err(SequenceError::TokenizationFailed);
        }
        let last_token = token_ids[token_ids.len() - 1];
        let num_prompt_tokens = token_ids.len();
        let params = match sampling_params {
            Some(p) => p,
            None => SamplingParams::default(),
        };
        Ok(Sequence {
            seq_id,
            status: SequenceStatus::Waiting,
            token_ids,
            last_token,
            num_prompt_tokens,
            num_cached_tokens: 0,
            block_ids: Vec::new(),
            sampling_params: params,
        })
    }

    /// Total number of tokens held.
    pub fn len(&self) -> (r: usize)
        ensures
            r == self.spec_len(),
    {
        self.token_ids.len()
    }

    pub fn is_empty(&self) -> (r: bool)
        ensures
            r == (self.spec_len() == 0),
    {
        self.token_ids.len() == 0
    }

    /// Number of generated (non-prompt) tokens.
    pub fn generated_len(&self) -> (r: usize)
        requires
            self.num_prompt_tokens <= self.spec_len(),
        ensures
            r == self.spec_generated_len(),
    {
        self.token_ids.len() - self.num_prompt_tokens
    }

    /// Appends one token to the history; the caller applies exactly one
    /// model-step result per scheduled step.
    pub fn append_token(&mut self, token: u32)
        ensures
            final(self).token_ids@ == old(self).token_ids@.push(token),
            final(self).last_token == token,
            final(self).seq_id == old(self).seq_id,
            final(self).status == old(self).status,
            final(self).num_prompt_tokens == old(self).num_prompt_tokens,
            final(self).num_cached_tokens == old(self).num_cached_tokens,
            final(self).block_ids@ == old(self).block_ids@,
            final(self).sampling_params == old(self).sampling_params,
    {
        self.token_ids.push(token);
        self.last_token = token;
    }

    /// Whether the most recent token ends generation (stop rule or the
    /// `max_tokens` cap), as evaluated once per step after `append_token`.
    pub fn is_finished(&self, eos_token_id: u32) -> (r: bool)
        requires
            self.num_prompt_tokens <= self.spec_len(),
        ensures
            r == self.spec_is_finished(eos_token_id),
    {
        if self.hit_stop(eos_token_id) {
            return true;
        }
        self.token_ids.len() - self.num_prompt_tokens >= self.sampling_params.max_tokens
    }

    /// Whether the most recent token matches the stop rule alone.
    pub fn hit_stop(&self, eos_token_id: u32) -> (r: bool)
        ensures
            r == self.spec_hit_stop(eos_token_id),
    {
        if self.last_token == eos_token_id && !self.sampling_params.ignore_eos {
            return true;
        }
        let mut i: usize = 0;
        while i < self.sampling_params.stop_tokens.len()
            invariant
                i <= self.sampling_params.stop_tokens@.len(),
                forall|j: int|
                    0 <= j < i ==> self.sampling_params.stop_tokens@[j] != self.last_token,
            decreases self.sampling_params.stop_tokens@.len() - i,
        {
            if self.sampling_params.stop_tokens[i] == self.last_token {
                return true;
            }
            i = i + 1;
        }
        false
    }

    /// Why a just-finished sequence stopped: `Error` for a propagated
    /// failure, otherwise `Stop` before `Length` (first match wins);
    /// `None` while generation is still due to continue.
    pub fn finish_reason(&self, eos_token_id: u32) -> (r: Option<FinishReason>)
        requires
            self.num_prompt_tokens <= self.spec_len(),
        ensures
            r == self.spec_finish_reason(eos_token_id),
    {
        if let SequenceStatus::Errored(_) = self.status {
            return Some(FinishReason::Error);
        }
        if self.hit_stop(eos_token_id) {
            return Some(FinishReason::Stop);
        }
        if self.token_ids.len() - self.num_prompt_tokens >= self.sampling_params.max_tokens {
            return Some(FinishReason::Length);
        }
        None
    }

    /// The reason `finish_reason` reports, as a single definition.
    pub open spec fn spec_finish_reason(self, eos_token_id: u32) -> Option<FinishReason> {
        if self.status matches SequenceStatus::Errored(_) {
            Some(FinishReason::Error)
        } else if self.spec_hit_stop(eos_token_id) {
            Some(FinishReason::Stop)
        } else if self.spec_generated_len() >= self.sampling_params.max_tokens {
            Some(FinishReason::Length)
        } else {
            None
        }
    }
}

} // verus!
