use llmsched::block_allocator::BlockAllocator;
use llmsched::engine::build_output;
use llmsched::scheduler::{Scheduler, SchedulerConfig};
use llmsched::sequence::{
    FinishReason, SamplingParams, Sequence, SequenceError, SequenceStatus,
};
use llmsched::tokenizer::Tokenizer;

#[test]
fn sequence_new_rejects_empty_prompt() {
    assert!(matches!(
        Sequence::new(0, vec![], None),
        Err(SequenceError::TokenizationFailed)
    ));
}

#[test]
fn sequence_new_sets_fields() {
    let s = Sequence::new(7, vec![3, 4, 5], None).unwrap();
    assert_eq!(s.seq_id, 7);
    assert_eq!(s.status, SequenceStatus::Waiting);
    assert_eq!(s.len(), 3);
    assert_eq!(s.num_prompt_tokens, 3);
    assert_eq!(s.num_cached_tokens, 0);
    assert_eq!(s.last_token, 5);
    assert!(s.block_ids.is_empty());
    assert_eq!(s.sampling_params.max_tokens, 100);
}

#[test]
fn eos_token_finishes_unless_ignored() {
    let eos = 2;
    let mut s = Sequence::new(0, vec![10, 11], None).unwrap();
    s.append_token(eos);
    assert!(s.is_finished(eos));
    assert_eq!(s.finish_reason(eos), Some(FinishReason::Stop));

    let params = SamplingParams {
        ignore_eos: true,
        ..SamplingParams::default()
    };
    let mut s = Sequence::new(1, vec![10, 11], Some(params)).unwrap();
    s.append_token(eos);
    assert!(!s.is_finished(eos));
    assert_eq!(s.finish_reason(eos), None);
}

// Scenario: with the stop-token set {5}, a sequence that generates token
// 5 as its third generated token reports Stop with three completion
// tokens, whatever max_tokens says.
#[test]
fn stop_token_wins_over_max_tokens() {
    let cfg = SchedulerConfig {
        max_num_seqs: 2,
        max_num_batched_tokens: 64,
        max_model_len: 4096,
        block_size: 4,
        num_kvcache_blocks: 10,
        eos_token_id: 2,
        enable_chunked_prefill: false,
        max_chunked_prefill_size: 0,
    };
    let mut s = Scheduler::new(cfg).unwrap();
    let params = SamplingParams {
        max_tokens: 1000,
        stop_tokens: vec![5],
        ..SamplingParams::default()
    };
    let a = s.submit(vec![10, 11], Some(params)).unwrap();
    s.schedule();
    assert!(matches!(s.apply_prefill_progress(a, 2), Ok(None)));
    s.schedule();
    assert!(matches!(s.apply_decode_token(a, 20), Ok(None)));
    s.schedule();
    assert!(matches!(s.apply_decode_token(a, 21), Ok(None)));
    s.schedule();
    let done = s.apply_decode_token(a, 5).unwrap().unwrap();
    assert_eq!(done.status, SequenceStatus::Finished);

    let tok = Tokenizer::new(32000, 2);
    let out = build_output(&tok, &done, 2);
    assert_eq!(out.finish_reason, FinishReason::Stop);
    assert_eq!(out.completion_tokens, 3);
    assert_eq!(out.prompt_tokens, 2);
    assert_eq!(out.token_ids, vec![20, 21, 5]);
}

#[test]
fn max_tokens_reports_length() {
    let params = SamplingParams {
        max_tokens: 2,
        ..SamplingParams::default()
    };
    let mut s = Sequence::new(0, vec![10], Some(params)).unwrap();
    s.append_token(20);
    assert!(!s.is_finished(2));
    s.append_token(21);
    assert!(s.is_finished(2));
    assert_eq!(s.finish_reason(2), Some(FinishReason::Length));
}

#[test]
fn allocator_hands_out_distinct_blocks_and_reclaims_them() {
    let mut alloc = BlockAllocator::new(4, 2);
    assert_eq!(alloc.free_blocks_count(), 4);
    let mut s = Sequence::new(0, vec![1, 2, 3], None).unwrap();
    assert_eq!(alloc.num_blocks_needed(&s), 2);
    let granted = alloc.try_allocate(&mut s, 2).unwrap();
    assert_eq!(granted.len(), 2);
    assert_ne!(granted[0], granted[1]);
    assert_eq!(s.block_ids, granted);
    assert_eq!(alloc.free_blocks_count(), 2);

    // More than is free fails and changes nothing.
    assert!(alloc.try_allocate(&mut s, 3).is_err());
    assert_eq!(alloc.free_blocks_count(), 2);
    assert_eq!(s.block_ids.len(), 2);

    // Freeing returns every block; a second free is a no-op.
    alloc.free(&mut s);
    assert_eq!(alloc.free_blocks_count(), 4);
    assert!(s.block_ids.is_empty());
    assert_eq!(s.num_cached_tokens, 0);
    alloc.free(&mut s);
    assert_eq!(alloc.free_blocks_count(), 4);
    assert!(s.block_ids.is_empty());
}

#[test]
fn blocks_needed_rounds_up() {
    let alloc = BlockAllocator::new(100, 4);
    let s = Sequence::new(0, vec![9; 5], None).unwrap();
    assert_eq!(alloc.num_blocks_needed(&s), 2);
    let s = Sequence::new(1, vec![9; 4], None).unwrap();
    assert_eq!(alloc.num_blocks_needed(&s), 1);
    let s = Sequence::new(2, vec![9; 1], None).unwrap();
    assert_eq!(alloc.num_blocks_needed(&s), 1);
}

#[test]
fn tokenizer_round_trips_plain_text() {
    let tok = Tokenizer::new(32000, 2);
    assert_eq!(tok.vocab_size(), 32000);
    assert_eq!(tok.eos_token_id(), 2);
    let ids = tok.encode("hi there");
    assert_eq!(ids.len(), 8);
    assert_eq!(ids[0], 'h' as u32);
    assert_eq!(ids[1], 'i' as u32);
    let text = tok.decode(&ids);
    assert_eq!(text, "hi there");
}

#[test]
fn tokenizer_maps_out_of_vocab_to_zero_and_skips_unknown_ids() {
    let tok = Tokenizer::new(100, 2);
    let ids = tok.encode("a\u{00ff}");
    // 'a' is 97, inside the vocabulary of 100; U+00FF is outside and
    // becomes the unknown token 0.
    assert_eq!(ids, vec![97, 0]);
    // Ids outside the vocabulary decode to nothing.
    let text = tok.decode(&vec![97, 3000, 98]);
    assert_eq!(text, "ab");
}
