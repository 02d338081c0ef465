//! Engine-side glue that is pure computation: turning a completed
//! sequence into the output handed back to the client. The step loop
//! itself (submissions, the model-runner call, waiting) lives with the
//! host process and drives [`crate::scheduler::Scheduler`] through its
//! public methods.

use vstd::prelude::*;

use crate::sequence::FinishReason;
use crate::sequence::GenerationOutput;
use crate::sequence::Sequence;
use crate::tokenizer::Tokenizer;

verus! {

/// Builds the client-visible output for a completed (finished or
/// errored) sequence: the generated token ids, their decoded text, the
/// finish reason, and the prompt/completion counts.
pub fn build_output(tokenizer: &Tokenizer, seq: &Sequence, eos_token_id: u32) -> (r:
    GenerationOutput)
    requires
        seq.num_prompt_tokens <= seq.spec_len(),
        seq.spec_finish_reason(eos_token_id) is Some,
    ensures
        r.token_ids@ == seq.token_ids@.subrange(
            seq.num_prompt_tokens as int,
            seq.spec_len() as int,
        ),
        r.prompt_tokens == seq.num_prompt_tokens,
        r.completion_tokens == seq.spec_generated_len(),
        Some(r.finish_reason) == seq.spec_finish_reason(eos_token_id),
        tokenizer.spec_decodes_to(r.token_ids@, r.text@),
{
    let mut generated: Vec<u32> = Vec::new();
    let mut i: usize = seq.num_prompt_tokens;
    while i < seq.token_ids.len()
        invariant
            seq.num_prompt_tokens <= i <= seq.token_ids@.len(),
            generated@ == seq.token_ids@.subrange(seq.num_prompt_tokens as int, i as int),
        decreases seq.token_ids@.len() - i,
    {
        generated.push(seq.token_ids[i]);
        proof {
            assert(generated@ =~= seq.token_ids@.subrange(seq.num_prompt_tokens as int, i + 1));
        }
        i = i + 1;
    }
    let text = tokenizer.decode(&generated);
    let finish_reason = match seq.finish_reason(eos_token_id) {
        Some(reason) => reason,
        None => {
            proof {
                assert(false);
            }
            FinishReason::Error
        },
    };
    let completion_tokens = generated.len();
    GenerationOutput {
        text,
        token_ids: generated,
        finish_reason,
        prompt_tokens: seq.num_prompt_tokens,
        completion_tokens,
    }
}

} // verus!
