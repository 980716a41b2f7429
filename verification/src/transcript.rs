//! What the recognition reports of the chosen hypothesis, apart from its
//! floating-point scores.
use vstd::prelude::*;

use crate::vocab::{decode_text, lemma_decode_concat, token_text, VocabDecoder};
use crate::{DECODER_START_TOKEN_ID, EOS_TOKEN_ID};

verus! {

/// `ids` without its first id where that is the start token.
pub open spec fn without_start_token(ids: Seq<i64>) -> Seq<i64> {
    if ids.len() > 0 && ids[0] == DECODER_START_TOKEN_ID {
        ids.drop_first()
    } else {
        ids
    }
}

/// Tokens generated in `ids`: its length without the start token.
pub open spec fn generated_count(ids: Seq<i64>) -> int {
    if ids.len() > 0 { ids.len() - 1 } else { 0 }
}

/// Tokens whose log-probabilities the score of `ids` accumulates: the
/// generated tokens, plus the end token where the sequence ended with one
/// that it does not hold (an end token is appended only when it is the
/// first generated token).
pub open spec fn scored_count(ids: Seq<i64>, hit_eos: bool) -> int {
    generated_count(ids) + if hit_eos && !(ids.len() > 0 && ids.last() == EOS_TOKEN_ID) {
        1int
    } else {
        0int
    }
}

/// `n`, or 1 where `n` is smaller.
pub open spec fn at_least_one(n: int) -> int {
    if n >= 1 { n } else { 1 }
}

/// The length that normalises the score of `ids`: its generated tokens, at
/// least 1.  The score is `accumulated log-prob / length ^ LENGTH_PENALTY`,
/// both for the reported score and for choosing among the hypotheses.
pub fn score_length(ids: &[i64]) -> (len: usize)
    ensures
        len == at_least_one(generated_count(ids@)),
        ids@.len() >= 2 ==> len + 1 == ids@.len(),
        ids@.len() < 2 ==> len == 1,
{
    let n = ids.len();
    if n > 1 { n - 1 } else { 1 }
}

/// The text and counts of a recognised sequence.
pub struct Transcript {
    /// The decoded text.
    pub text: String,
    /// Tokens generated: the sequence's length without the start token.
    pub token_count: usize,
    /// Tokens whose log-probabilities the sequence's score accumulates.
    pub scored_tokens: usize,
    /// The sequence was cut off at the step limit without an end token.
    pub truncated: bool,
}

/// The transcript of the sequence `ids`, which ended with the end token
/// where `hit_eos` holds.
pub fn transcribe(vocab: &VocabDecoder, ids: &[i64], hit_eos: bool) -> (t: Transcript)
    ensures
        t.text@ == decode_text(vocab@, without_start_token(ids@)),
        t.token_count == generated_count(ids@),
        t.scored_tokens == scored_count(ids@, hit_eos),
        t.truncated == !hit_eos,
        ids@.len() > 0 ==> t.token_count + 1 == ids@.len(),
        ids@.len() == 0 ==> t.token_count == 0,
        !hit_eos ==> t.scored_tokens == t.token_count,
        hit_eos && ids@.len() > 0 && ids@.last() == EOS_TOKEN_ID ==> t.scored_tokens == t.token_count,
        hit_eos && !(ids@.len() > 0 && ids@.last() == EOS_TOKEN_ID) ==> t.scored_tokens == t.token_count + 1,
{
    let n = ids.len();
    let text = if n > 0 && ids[0] == DECODER_START_TOKEN_ID {
        let rest = &ids[1..n];
        assert(rest@ =~= ids@.drop_first());
        vocab.decode(rest)
    } else {
        vocab.decode(ids)
    };
    let token_count = if n > 0 { n - 1 } else { 0 };
    let eos_held = n > 0 && ids[n - 1] == EOS_TOKEN_ID;
    let scored_tokens = if hit_eos && !eos_held { token_count + 1 } else { token_count };
    Transcript { text, token_count, scored_tokens, truncated: !hit_eos }
}

impl Transcript {
    /// The length that normalises the score (see `score_length`): the
    /// token count, at least 1.
    pub fn score_length(&self) -> (len: usize)
        ensures
            len == at_least_one(self.token_count as int),
    {
        if self.token_count > 0 { self.token_count } else { 1 }
    }

    /// The number of per-token probabilities whose geometric mean is the
    /// raw confidence: the scored tokens, at least 1.
    pub fn confidence_length(&self) -> (len: usize)
        ensures
            len == at_least_one(self.scored_tokens as int),
    {
        if self.scored_tokens > 0 { self.scored_tokens } else { 1 }
    }
}

/// Dropping the start token does not change the text: the start token is
/// a special token and prints nothing.
pub proof fn lemma_start_token_prints_nothing(vocab: Seq<Seq<char>>, ids: Seq<i64>)
    ensures
        decode_text(vocab, without_start_token(ids)) == decode_text(vocab, ids),
{
    if ids.len() > 0 && ids[0] == DECODER_START_TOKEN_ID {
        let head = seq![ids[0]];
        assert(ids =~= head + ids.drop_first());
        lemma_decode_concat(vocab, head, ids.drop_first());
        assert(head.drop_last() =~= Seq::<i64>::empty());
        assert(decode_text(vocab, head.drop_last()) == Seq::<char>::empty());
        assert(head.last() == DECODER_START_TOKEN_ID);
        assert(token_text(vocab, head.last()) == Seq::<char>::empty());
        assert(decode_text(vocab, head) =~= Seq::<char>::empty());
        assert(decode_text(vocab, head) + decode_text(vocab, ids.drop_first()) =~= decode_text(vocab, ids.drop_first()));
    }
}

/// The decoder step limit for a requested `n`: at least one step.
pub fn decode_step_limit(n: usize) -> (steps: usize)
    ensures
        steps == if n >= 1 { n } else { 1 },
{
    if n >= 1 { n } else { 1 }
}

} // verus!
