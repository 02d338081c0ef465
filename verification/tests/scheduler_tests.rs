use llmsched::scheduler::{Scheduler, SchedulerConfig, SchedulerError};
use llmsched::sequence::{SamplingParams, SequenceError, SequenceStatus};

fn config(
    num_kvcache_blocks: usize,
    block_size: usize,
    max_num_seqs: usize,
    max_num_batched_tokens: usize,
) -> SchedulerConfig {
    SchedulerConfig {
        max_num_seqs,
        max_num_batched_tokens,
        max_model_len: 4096,
        block_size,
        num_kvcache_blocks,
        eos_token_id: 2,
        enable_chunked_prefill: false,
        max_chunked_prefill_size: 0,
    }
}

fn params(max_tokens: usize) -> SamplingParams {
    SamplingParams {
        max_tokens,
        ignore_eos: false,
        stop_tokens: Vec::new(),
        top_k: 50,
    }
}

#[test]
fn new_rejects_bad_config() {
    let mut cfg = config(10, 4, 2, 64);
    cfg.block_size = 0;
    assert!(matches!(Scheduler::new(cfg), Err(SchedulerError::InvalidConfig)));
    let mut cfg = config(10, 4, 0, 64);
    cfg.max_num_seqs = 0;
    assert!(matches!(Scheduler::new(cfg), Err(SchedulerError::InvalidConfig)));
}

#[test]
fn submit_rejects_empty_prompt() {
    let mut s = Scheduler::new(config(10, 4, 2, 64)).unwrap();
    assert_eq!(s.submit(vec![], None), Err(SequenceError::TokenizationFailed));
    assert_eq!(s.num_waiting(), 0);
}

#[test]
fn submit_rejects_prompt_over_model_len() {
    let mut cfg = config(1000, 4, 2, 64);
    cfg.max_model_len = 3;
    let mut s = Scheduler::new(cfg).unwrap();
    assert_eq!(
        s.submit(vec![10, 11, 12, 13], None),
        Err(SequenceError::MaxTokensExceeded)
    );
}

// Scenario: a pool of 4 blocks of 2 tokens cannot hold an 8-token prompt
// at once with chunking disabled; the submission is rejected with the
// over-capacity error and no sequence is ever created.
#[test]
fn over_capacity_prompt_rejected_at_submission() {
    let mut s = Scheduler::new(config(4, 2, 4, 64)).unwrap();
    let prompt: Vec<u32> = vec![10, 11, 12, 13, 14, 15, 16, 17];
    assert_eq!(
        s.submit(prompt, Some(params(0))),
        Err(SequenceError::InvalidBlockSize)
    );
    assert_eq!(s.num_waiting(), 0);
    assert_eq!(s.free_blocks_count(), 4);
}

// Scenario: pool of 10 blocks of 4 tokens, batch width 2; two 4-token
// prompts with max_tokens = 1 are admitted in one step with one block
// each, both finish after producing one token, and every block is freed.
#[test]
fn two_prompts_admitted_together_and_finish() {
    let mut s = Scheduler::new(config(10, 4, 2, 64)).unwrap();
    let a = s.submit(vec![10, 11, 12, 13], Some(params(1))).unwrap();
    let b = s.submit(vec![20, 21, 22, 23], Some(params(1))).unwrap();

    let r1 = s.schedule();
    assert!(!r1.stalled);
    assert_eq!(r1.entries.len(), 2);
    assert_eq!(r1.entries[0].seq_id, a);
    assert!(r1.entries[0].is_prefill);
    assert_eq!(r1.entries[0].token_count, 4);
    assert_eq!(r1.entries[0].token_ids, vec![10, 11, 12, 13]);
    assert_eq!(r1.entries[0].block_ids.len(), 1);
    assert_eq!(r1.entries[1].seq_id, b);
    assert_eq!(r1.entries[1].block_ids.len(), 1);
    assert_ne!(r1.entries[0].block_ids[0], r1.entries[1].block_ids[0]);
    assert_eq!(s.free_blocks_count(), 8);

    assert!(matches!(s.apply_prefill_progress(a, 4), Ok(None)));
    assert!(matches!(s.apply_prefill_progress(b, 4), Ok(None)));

    let r2 = s.schedule();
    assert_eq!(r2.entries.len(), 2);
    assert!(!r2.entries[0].is_prefill);
    assert_eq!(r2.entries[0].token_count, 1);

    let done_a = s.apply_decode_token(a, 30).unwrap().unwrap();
    let done_b = s.apply_decode_token(b, 31).unwrap().unwrap();
    assert_eq!(done_a.status, SequenceStatus::Finished);
    assert_eq!(done_b.status, SequenceStatus::Finished);
    assert!(done_a.block_ids.is_empty());
    assert_eq!(s.num_running(), 0);
    assert_eq!(s.free_blocks_count(), 10);
}

// Scenario: pool of 2 blocks of 4 tokens; X and Y each hold one block
// mid-decode and Z waits. When X needs one more block, the most recently
// admitted running sequence (Y) is preempted, returns to the front of
// `waiting` ahead of Z, and resumes only after blocks free up.
#[test]
fn preemption_is_lifo_and_victim_requeues_at_front() {
    let mut s = Scheduler::new(config(2, 4, 2, 64)).unwrap();
    let x = s.submit(vec![10, 11, 12, 13], Some(params(1))).unwrap();
    let y = s.submit(vec![20, 21, 22, 23], Some(params(5))).unwrap();

    let r1 = s.schedule();
    assert_eq!(r1.entries.len(), 2);
    assert_eq!(s.free_blocks_count(), 0);
    assert!(matches!(s.apply_prefill_progress(x, 4), Ok(None)));
    assert!(matches!(s.apply_prefill_progress(y, 4), Ok(None)));

    let z = s.submit(vec![30, 31, 32, 33], Some(params(1))).unwrap();

    // X needs a block for its next token; the pool is exhausted, so Y is
    // preempted and X takes its block.
    let r2 = s.schedule();
    assert!(!r2.stalled);
    assert_eq!(r2.preempted_ids, vec![y]);
    assert_eq!(r2.entries.len(), 1);
    assert_eq!(r2.entries[0].seq_id, x);
    assert_eq!(s.waiting_ids(), vec![y, z]);
    assert_eq!(s.running_ids(), vec![x]);

    // X finishes (one generated token) and frees its two blocks.
    let done_x = s.apply_decode_token(x, 40).unwrap().unwrap();
    assert_eq!(done_x.status, SequenceStatus::Finished);
    assert_eq!(s.free_blocks_count(), 2);

    // Y resumes before Z, from scratch.
    let r3 = s.schedule();
    assert_eq!(r3.entries.len(), 2);
    assert_eq!(r3.entries[0].seq_id, y);
    assert_eq!(r3.entries[1].seq_id, z);
    assert_eq!(s.running_ids(), vec![y, z]);
}

// Scenario: cancelling a sequence that is still waiting removes it from
// `waiting` without a block ever having been allocated for it.
#[test]
fn cancel_waiting_sequence_never_allocates() {
    let mut s = Scheduler::new(config(10, 4, 2, 64)).unwrap();
    let a = s.submit(vec![10, 11], Some(params(3))).unwrap();
    assert_eq!(s.num_waiting(), 1);

    let cancelled = s.cancel(a).unwrap();
    assert_eq!(
        cancelled.status,
        SequenceStatus::Errored(SequenceError::Cancelled)
    );
    assert!(cancelled.block_ids.is_empty());
    assert_eq!(s.num_waiting(), 0);
    assert_eq!(s.free_blocks_count(), 10);
    assert!(s.cancel(a).is_none());
}

#[test]
fn cancel_running_sequence_frees_its_blocks() {
    let mut s = Scheduler::new(config(10, 4, 2, 64)).unwrap();
    let a = s.submit(vec![10, 11, 12, 13], Some(params(5))).unwrap();
    let r1 = s.schedule();
    assert_eq!(r1.entries.len(), 1);
    assert_eq!(s.free_blocks_count(), 9);
    let cancelled = s.cancel(a).unwrap();
    assert_eq!(
        cancelled.status,
        SequenceStatus::Errored(SequenceError::Cancelled)
    );
    assert!(cancelled.block_ids.is_empty());
    assert_eq!(s.num_running(), 0);
    assert_eq!(s.free_blocks_count(), 10);
}

#[test]
fn fail_sequence_reports_model_failure() {
    let mut s = Scheduler::new(config(10, 4, 2, 64)).unwrap();
    let a = s.submit(vec![10, 11], Some(params(5))).unwrap();
    s.schedule();
    let failed = s.fail_sequence(a, SequenceError::GenerationFailed).unwrap();
    assert_eq!(
        failed.status,
        SequenceStatus::Errored(SequenceError::GenerationFailed)
    );
    assert_eq!(s.free_blocks_count(), 10);
    assert!(s.fail_sequence(a, SequenceError::GenerationFailed).is_none());
}

// A lone running sequence that has filled the whole pool has no victim to
// preempt: the step starves and is reported stalled, not fatal.
#[test]
fn lone_sequence_out_of_blocks_stalls_the_step() {
    let mut s = Scheduler::new(config(1, 2, 2, 64)).unwrap();
    let a = s.submit(vec![10], Some(params(50))).unwrap();
    let r1 = s.schedule();
    assert_eq!(r1.entries.len(), 1);
    assert!(matches!(s.apply_prefill_progress(a, 1), Ok(None)));
    // One free slot in the single block: the first decode step fits.
    let r2 = s.schedule();
    assert_eq!(r2.entries.len(), 1);
    assert!(!r2.entries[0].is_prefill);
    assert!(matches!(s.apply_decode_token(a, 20), Ok(None)));
    // The block is full and the pool has nothing left: starvation.
    let r3 = s.schedule();
    assert!(r3.stalled);
    assert_eq!(r3.entries.len(), 0);
    assert_eq!(s.running_ids(), vec![a]);
}

#[test]
fn chunked_prefill_splits_a_long_prompt() {
    let mut cfg = config(10, 2, 2, 100);
    cfg.enable_chunked_prefill = true;
    cfg.max_chunked_prefill_size = 2;
    let mut s = Scheduler::new(cfg).unwrap();
    let a = s.submit(vec![10, 11, 12, 13, 14], Some(params(1))).unwrap();

    let r1 = s.schedule();
    assert_eq!(r1.entries.len(), 1);
    assert!(r1.entries[0].is_prefill);
    assert_eq!(r1.entries[0].token_count, 2);
    assert!(matches!(s.apply_prefill_progress(a, 2), Ok(None)));

    let r2 = s.schedule();
    assert_eq!(r2.entries[0].token_count, 2);
    assert!(r2.entries[0].is_prefill);
    assert!(matches!(s.apply_prefill_progress(a, 2), Ok(None)));

    let r3 = s.schedule();
    assert_eq!(r3.entries[0].token_count, 1);
    assert!(r3.entries[0].is_prefill);
    assert!(matches!(s.apply_prefill_progress(a, 1), Ok(None)));

    let r4 = s.schedule();
    assert!(!r4.entries[0].is_prefill);
    let done = s.apply_decode_token(a, 30).unwrap().unwrap();
    assert_eq!(done.status, SequenceStatus::Finished);
    assert_eq!(s.free_blocks_count(), 10);
}

// The per-step token budget caps what one schedule call hands out.
#[test]
fn token_budget_limits_admissions_per_step() {
    let mut s = Scheduler::new(config(10, 4, 4, 4)).unwrap();
    let a = s.submit(vec![10, 11, 12, 13], Some(params(1))).unwrap();
    let b = s.submit(vec![20, 21, 22, 23], Some(params(1))).unwrap();
    let r1 = s.schedule();
    // Both prompts cost 4; the budget of 4 admits only the first.
    assert_eq!(r1.entries.len(), 1);
    assert_eq!(r1.entries[0].seq_id, a);
    assert_eq!(s.waiting_ids(), vec![b]);
    assert!(matches!(s.apply_prefill_progress(a, 4), Ok(None)));
    let r2 = s.schedule();
    // The decode step for `a` costs 1, leaving 3: still not enough for
    // the 4-token prompt of `b`.
    assert_eq!(r2.entries.len(), 1);
    assert!(!r2.entries[0].is_prefill);
    assert_eq!(s.waiting_ids(), vec![b]);
}

#[test]
fn batch_width_limits_admissions_per_step() {
    let mut s = Scheduler::new(config(10, 4, 1, 64)).unwrap();
    let a = s.submit(vec![10, 11], Some(params(5))).unwrap();
    let b = s.submit(vec![20, 21], Some(params(5))).unwrap();
    let r1 = s.schedule();
    assert_eq!(r1.entries.len(), 1);
    assert_eq!(r1.entries[0].seq_id, a);
    assert_eq!(s.num_running(), 1);
    assert_eq!(s.waiting_ids(), vec![b]);
}

// A pure-prefill request (max_tokens of zero) finishes as soon as its
// prompt is fully cached, with no decode step, and frees its blocks.
#[test]
fn zero_max_tokens_finishes_after_prefill() {
    let mut s = Scheduler::new(config(10, 4, 2, 64)).unwrap();
    let a = s.submit(vec![10, 11, 12], Some(params(0))).unwrap();
    let r1 = s.schedule();
    assert_eq!(r1.entries.len(), 1);
    let done = s.apply_prefill_progress(a, 3).unwrap().unwrap();
    assert_eq!(done.status, SequenceStatus::Finished);
    assert_eq!(s.free_blocks_count(), 10);
    assert_eq!(s.num_running(), 0);
}

#[test]
fn apply_decode_unknown_sequence_errors() {
    let mut s = Scheduler::new(config(10, 4, 2, 64)).unwrap();
    assert!(matches!(
        s.apply_decode_token(7, 1),
        Err(SchedulerError::UnknownSequence)
    ));
    let a = s.submit(vec![10, 11], Some(params(5))).unwrap();
    // Still waiting, not running.
    assert!(matches!(
        s.apply_decode_token(a, 1),
        Err(SchedulerError::UnknownSequence)
    ));
    s.schedule();
    // Not fully cached yet: the prefill result must come first.
    assert!(matches!(
        s.apply_decode_token(a, 1),
        Err(SchedulerError::SequenceNotReady)
    ));
}
