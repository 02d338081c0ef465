//! Deterministic character-level tokenizer stand-in.
//!
//! The engine needs only four operations from a tokenizer: encode,
//! decode, the end-of-stream token id and the vocabulary size; any
//! text-to-token mapping will do. This one maps each character to its
//! scalar value when that value is inside the vocabulary, and to token 0
//! otherwise; decoding maps ids back to characters and skips ids that
//! name no character of the vocabulary.

use vstd::prelude::*;

verus! {

/// The id one character encodes to: its scalar value inside the
/// vocabulary, the unknown-token id 0 outside it.
pub open spec fn spec_token_of_char(c: char, vocab_size: usize) -> u32 {
    if ((c as u32) as usize) < vocab_size {
        c as u32
    } else {
        0u32
    }
}

/// Relies on `char::from_u32`: returns `Some` exactly for Unicode scalar
/// values (everything up to 0x10FFFF except the surrogate range), and the
/// character converts back to the same number.
#[verifier::external_body]
fn char_from_u32(v: u32) -> (r: Option<char>)
    ensures
        r is Some <==> (v < 0xD800 || (0xE000 <= v && v <= 0x10FFFF)),
        r matches Some(c) ==> c as u32 == v,
{
    char::from_u32(v)
}

/// Relies on `String::push`: appends exactly one character at the end.
#[verifier::external_body]
fn push_char(s: &mut String, c: char)
    ensures
        final(s)@ == old(s)@.push(c),
{
    s.push(c)
}

pub struct Tokenizer {
    pub vocab_size: usize,
    pub eos_token_id: u32,
}

impl Tokenizer {
    /// Creates a tokenizer over ids `0 .. vocab_size` with the given
    /// end-of-stream token id.
    pub fn new(vocab_size: usize, eos_token_id: u32) -> (r: Tokenizer)
        ensures
            r.vocab_size == vocab_size,
            r.eos_token_id == eos_token_id,
    {
        Tokenizer { vocab_size, eos_token_id }
    }

    /// Whether an id decodes to a character: it is inside the vocabulary
    /// and is a Unicode scalar value.
    pub open spec fn spec_decodable(self, id: u32) -> bool {
        &&& (id as usize) < self.vocab_size
        &&& (id < 0xD800 || (0xE000 <= id && id <= 0x10FFFF))
    }

    /// What `decode` must return for `ids`: one character per decodable
    /// id, in order, carrying exactly that scalar value; other ids are
    /// skipped.
    pub open spec fn spec_decodes_to(self, ids: Seq<u32>, out: Seq<char>) -> bool
        decreases ids.len(),
    {
        if ids.len() == 0 {
            out.len() == 0
        } else if self.spec_decodable(ids.last()) {
            &&& out.len() > 0
            &&& (out.last() as u32) == ids.last()
            &&& self.spec_decodes_to(ids.drop_last(), out.drop_last())
        } else {
            self.spec_decodes_to(ids.drop_last(), out)
        }
    }

    /// Token ids of a text, one per character.
    pub fn encode(&self, text: &str) -> (r: Vec<u32>)
        ensures
            r@.len() == text@.len(),
            forall|i: int| 0 <= i < r@.len() ==> r@[i] == spec_token_of_char(
                text@[i],
                self.vocab_size,
            ),
    {
        let n = text.unicode_len();
        let mut r: Vec<u32> = Vec::new();
        let mut i: usize = 0;
        while i < n
            invariant
                i <= n,
                n == text@.len(),
                r@.len() == i,
                forall|j: int| 0 <= j < i ==> r@[j] == spec_token_of_char(
                    text@[j],
                    self.vocab_size,
                ),
            decreases n - i,
        {
            let c = text.get_char(i);
            let code = c as u32;
            if (code as usize) < self.vocab_size {
                r.push(code);
            } else {
                r.push(0);
            }
            i = i + 1;
        }
        r
    }

    /// Text of a token sequence: decodable ids become their characters,
    /// in order; other ids are skipped, as an unknown id has no text.
    pub fn decode(&self, ids: &Vec<u32>) -> (r: String)
        ensures
            self.spec_decodes_to(ids@, r@),
    {
        let mut r = String::new();
        let mut i: usize = 0;
        while i < ids.len()
            invariant
                i <= ids@.len(),
                self.spec_decodes_to(ids@.subrange(0, i as int), r@),
            decreases ids@.len() - i,
        {
            let ghost pre = r@;
            let id = ids[i];
            let decodable = (id as usize) < self.vocab_size;
            if decodable {
                match char_from_u32(id) {
                    Some(c) => {
                        push_char(&mut r, c);
                    },
                    None => {},
                }
            }
            proof {
                let head = ids@.subrange(0, i as int);
                let grown = ids@.subrange(0, i + 1);
                assert(grown.drop_last() =~= head);
                assert(grown.last() == ids@[i as int]);
                if self.spec_decodable(ids@[i as int]) {
                    assert(r@.drop_last() =~= pre);
                } else {
                    assert(r@ == pre);
                }
            }
            i = i + 1;
        }
        proof {
            assert(ids@.subrange(0, ids@.len() as int) =~= ids@);
        }
        r
    }

    pub fn eos_token_id(&self) -> (r: u32)
        ensures
            r == self.eos_token_id,
    {
        self.eos_token_id
    }

    pub fn vocab_size(&self) -> (r: usize)
        ensures
            r == self.vocab_size,
    {
        self.vocab_size
    }
}

/// Every `char` is a Unicode scalar value: at most 0x10FFFF and not a
/// surrogate.
pub proof fn lemma_char_is_scalar_value(c: char)
    ensures
        (c as u32) < 0xD800 || (0xE000 <= (c as u32) && (c as u32) <= 0x10FFFF),
{
}

/// Two characters with the same scalar value are the same character.
pub proof fn lemma_char_eq(c: char, d: char)
    requires
        (c as u32) == (d as u32),
    ensures
        c == d,
{
}

/// Round trip: a text whose characters all lie inside the vocabulary
/// encodes, character for character, to ids that decode back to exactly
/// that text.
pub proof fn lemma_encode_decode_round_trip(
    t: Tokenizer,
    text: Seq<char>,
    ids: Seq<u32>,
    out: Seq<char>,
)
    requires
        forall|i: int| 0 <= i < text.len() ==> ((text[i] as u32) as usize) < t.vocab_size,
        ids.len() == text.len(),
        forall|i: int|
            0 <= i < ids.len() ==> ids[i] == spec_token_of_char(text[i], t.vocab_size),
        t.spec_decodes_to(ids, out),
    ensures
        out == text,
    decreases text.len(),
{
    if text.len() == 0 {
        assert(out =~= text);
    } else {
        let c = text.last();
        assert(text[text.len() - 1] == c);
        assert(ids[ids.len() - 1] == ids.last());
        assert(((c as u32) as usize) < t.vocab_size);
        assert(ids.last() == spec_token_of_char(c, t.vocab_size));
        assert(ids.last() == (c as u32));
        lemma_char_is_scalar_value(c);
        assert(t.spec_decodable(ids.last()));
        assert((out.last() as u32) == (c as u32));
        lemma_char_eq(out.last(), c);
        assert(out.last() == c);
        lemma_encode_decode_round_trip(t, text.drop_last(), ids.drop_last(), out.drop_last());
        assert(out.len() == text.len());
        assert forall|i: int| 0 <= i < out.len() implies out[i] == text[i] by {
            if i < out.len() - 1 {
                assert(out.drop_last()[i] == out[i]);
                assert(text.drop_last()[i] == text[i]);
                assert(out.drop_last()[i] == text.drop_last()[i]);
            } else {
                assert(out[i] == out.last());
                assert(text[i] == text.last());
            }
        }
        assert(out =~= text);
    }
}

} // verus!
