//! The beam search over decoder tokens, as a state machine.
//!
//! Each step the caller runs the decoder on the batch that `next_batch`
//! describes, scores the candidate continuations, keeps the best ones and
//! hands them to `advance`.  The state keeps every sequence, which beams are
//! finished and the finished hypotheses; scores are values of the type
//! parameter `S` that this module only carries.
use vstd::prelude::*;

use crate::ngram::{lemma_unblocked_push_keeps_ngrams_unique, ngram_blocked, no_repeated_ngram};
use crate::transcript::{generated_count, scored_count, transcribe, without_start_token, Transcript};
use crate::vocab::{decode_text, VocabDecoder};
use crate::{DECODER_START_TOKEN_ID, EOS_TOKEN_ID, NO_REPEAT_NGRAM, NUM_BEAMS};

verus! {

/// One beam: its token ids (starting with the start token), its
/// accumulated score, and whether it has emitted the end token.
pub struct Beam<S> {
    pub ids: Vec<i64>,
    pub score: S,
    pub done: bool,
}

/// A finished sequence: its ids, its score, and whether it ended with the
/// end token (`false` where the step limit cut it off).
pub struct Hypothesis<S> {
    pub ids: Vec<i64>,
    pub score: S,
    pub hit_eos: bool,
}

/// What a beam is, as a mathematical value.
pub struct BeamV<S> {
    pub ids: Seq<i64>,
    pub score: S,
    pub done: bool,
}

/// What a hypothesis is, as a mathematical value.
pub struct HypothesisV<S> {
    pub ids: Seq<i64>,
    pub score: S,
    pub hit_eos: bool,
}

impl<S> View for Beam<S> {
    type V = BeamV<S>;

    open spec fn view(&self) -> BeamV<S> {
        BeamV { ids: self.ids@, score: self.score, done: self.done }
    }
}

impl<S> View for Hypothesis<S> {
    type V = HypothesisV<S>;

    open spec fn view(&self) -> HypothesisV<S> {
        HypothesisV { ids: self.ids@, score: self.score, hit_eos: self.hit_eos }
    }
}

/// The input of one decoder run: which beams take part (by index, in
/// order), the common length of their sequences, and their ids one after
/// the other (row-major, `beam_indices.len()` rows of `seq_len` ids).
pub struct DecoderBatch {
    pub beam_indices: Vec<usize>,
    pub seq_len: usize,
    pub input_ids: Vec<i64>,
}

pub open spec fn beam_views<S>(bs: Seq<Beam<S>>) -> Seq<BeamV<S>> {
    bs.map_values(|b: Beam<S>| b@)
}

pub open spec fn hypothesis_views<S>(hs: Seq<Hypothesis<S>>) -> Seq<HypothesisV<S>> {
    hs.map_values(|h: Hypothesis<S>| h@)
}

/// A sequence that starts with the start token and holds at least one
/// token more.
pub open spec fn starts_with_start_token(ids: Seq<i64>) -> bool {
    ids.len() >= 2 && ids[0] == DECODER_START_TOKEN_ID
}

/// A sequence in which the end token does not occur.
pub open spec fn free_of_eos(ids: Seq<i64>) -> bool {
    forall|k: int| 0 <= k < ids.len() ==> ids[k] != EOS_TOKEN_ID
}

/// The beam that a first-step candidate `tok` starts: the start token
/// followed by `tok`, finished where `tok` is the end token.
pub open spec fn seed_beam<S>(tok: usize, score: S) -> BeamV<S> {
    BeamV {
        ids: seq![DECODER_START_TOKEN_ID, tok as i64],
        score: score,
        done: tok as i64 == EOS_TOKEN_ID,
    }
}

/// Beam `b` continued by `tok` with the new score: the end token finishes
/// the beam and is not appended; any other token is appended.
pub open spec fn extend_beam<S>(b: BeamV<S>, tok: i64, score: S) -> BeamV<S> {
    BeamV {
        ids: if tok == EOS_TOKEN_ID { b.ids } else { b.ids.push(tok) },
        score: score,
        done: tok == EOS_TOKEN_ID,
    }
}

/// The beams of `bs` whose `done` flag equals `done`, in order, as
/// hypotheses with `hit_eos == done`.
pub open spec fn hypotheses_where<S>(bs: Seq<BeamV<S>>, done: bool) -> Seq<HypothesisV<S>>
    decreases bs.len(),
{
    if bs.len() == 0 {
        Seq::empty()
    } else {
        let rest = hypotheses_where(bs.drop_last(), done);
        let b = bs.last();
        if b.done == done {
            rest.push(HypothesisV { ids: b.ids, score: b.score, hit_eos: done })
        } else {
            rest
        }
    }
}

/// The indices, in increasing order, of the beams of `bs` that are not
/// finished.
pub open spec fn active_indices<S>(bs: Seq<BeamV<S>>) -> Seq<usize>
    decreases bs.len(),
{
    if bs.len() == 0 {
        Seq::empty()
    } else {
        let rest = active_indices(bs.drop_last());
        if !bs.last().done {
            rest.push((bs.len() - 1) as usize)
        } else {
            rest
        }
    }
}

/// The ids of the beams at `idx`, one sequence after the other.
pub open spec fn batch_ids<S>(bs: Seq<BeamV<S>>, idx: Seq<usize>) -> Seq<i64>
    decreases idx.len(),
{
    if idx.len() == 0 {
        Seq::empty()
    } else {
        batch_ids(bs, idx.drop_last()) + bs[idx.last() as int].ids
    }
}

/// `active_indices` lists exactly the unfinished beams, each once, in
/// increasing order.
pub proof fn lemma_active_indices<S>(bs: Seq<BeamV<S>>)
    requires
        bs.len() <= usize::MAX,
    ensures
        forall|k: int|
            0 <= k < active_indices(bs).len() ==> (#[trigger] active_indices(bs)[k] as int) < bs.len()
                && !bs[active_indices(bs)[k] as int].done,
        forall|i: int| 0 <= i < bs.len() && !bs[i].done ==> active_indices(bs).contains(i as usize),
        forall|k: int, l: int|
            0 <= k < l < active_indices(bs).len() ==> active_indices(bs)[k] < active_indices(bs)[l],
    decreases bs.len(),
{
    if bs.len() > 0 {
        let pre = bs.drop_last();
        let a = active_indices(bs);
        let ap = active_indices(pre);
        lemma_active_indices(pre);
        assert forall|k: int| 0 <= k < ap.len() implies a[k] == ap[k] && (ap[k] as int) < pre.len() by {}
        assert forall|k: int| 0 <= k < a.len() implies (#[trigger] a[k] as int) < bs.len()
            && !bs[a[k] as int].done by {
            if k < ap.len() {
                assert(pre[ap[k] as int] == bs[ap[k] as int]);
            }
        }
        assert forall|i: int| 0 <= i < bs.len() && !bs[i].done implies a.contains(i as usize) by {
            if i < bs.len() - 1 {
                assert(pre[i] == bs[i]);
                let k = choose|k: int| 0 <= k < ap.len() && ap[k] == i as usize;
                assert(a[k] == i as usize);
            } else {
                assert(a[a.len() - 1] == i as usize);
            }
        }
        assert forall|k: int, l: int| 0 <= k < l < a.len() implies a[k] < a[l] by {
            if l < ap.len() {
                assert(ap[k] < ap[l]);
            } else {
                assert(a[l] == bs.len() - 1);
                assert((ap[k] as int) < pre.len());
            }
        }
    }
}

/// All beams at `idx` have `len` ids: their concatenation has
/// `idx.len() * len` of them.
proof fn lemma_batch_ids_len<S>(bs: Seq<BeamV<S>>, idx: Seq<usize>, len: nat)
    requires
        forall|k: int| 0 <= k < idx.len() ==> (#[trigger] idx[k] as int) < bs.len() && bs[idx[k] as int].ids.len() == len,
    ensures
        batch_ids(bs, idx).len() == idx.len() * len,
    decreases idx.len(),
{
    if idx.len() > 0 {
        let pre = idx.drop_last();
        assert forall|k: int| 0 <= k < pre.len() implies (#[trigger] pre[k] as int) < bs.len() && bs[pre[k] as int].ids.len() == len by {
            assert(pre[k] == idx[k]);
        }
        lemma_batch_ids_len(bs, pre, len);
        assert(idx.last() == idx[idx.len() - 1]);
        assert((idx.len() - 1) * len + len == idx.len() * len) by (nonlinear_arith);
    }
}

/// The batch is laid out row by row: with every listed beam `len` ids
/// long, id `k` of the `b`-th listed beam is at `b * len + k`.
pub proof fn lemma_batch_rows<S>(bs: Seq<BeamV<S>>, idx: Seq<usize>, len: nat)
    requires
        forall|q: int| 0 <= q < idx.len() ==> (#[trigger] idx[q] as int) < bs.len() && bs[idx[q] as int].ids.len() == len,
    ensures
        forall|b: int, k: int|
            0 <= b < idx.len() && 0 <= k < len ==> #[trigger] batch_ids(bs, idx)[b * len + k] == bs[idx[b] as int].ids[k],
    decreases idx.len(),
{
    if idx.len() > 0 {
        let pre = idx.drop_last();
        assert forall|q: int| 0 <= q < pre.len() implies (#[trigger] pre[q] as int) < bs.len() && bs[pre[q] as int].ids.len() == len by {
            assert(pre[q] == idx[q]);
        }
        lemma_batch_rows(bs, pre, len);
        lemma_batch_ids_len(bs, pre, len);
        assert forall|b: int, k: int| 0 <= b < idx.len() && 0 <= k < len implies #[trigger] batch_ids(bs, idx)[b * len + k] == bs[idx[b] as int].ids[k] by {
            let m = pre.len() as int;
            assert(batch_ids(bs, idx) == batch_ids(bs, pre) + bs[idx.last() as int].ids);
            if b < m {
                assert(b * len + k < m * len) by (nonlinear_arith)
                    requires
                        b < m,
                        k < len,
                        0 <= b,
                        0 <= k,
                ;
                assert(pre[b] == idx[b]);
            } else {
                assert(b == m);
                assert(idx.last() == idx[b]);
            }
        }
    }
}

/// The state of a beam search: the current beams (at most `NUM_BEAMS`), the
/// hypotheses finished so far, the limit on decoder runs, and, as ghost
/// state, the number of steps taken and whether every continuation taken so
/// far was one that the no-repeat n-gram rule allows.
pub struct BeamSearch<S> {
    beams: Vec<Beam<S>>,
    completed: Vec<Hypothesis<S>>,
    max_steps: usize,
    steps: Ghost<nat>,
    allowed: Ghost<bool>,
}

/// A continuation `(beam index, token, score)` that the n-gram rule allows
/// after the beam it extends (the end token is never appended).
pub open spec fn continuation_allowed<S>(bs: Seq<BeamV<S>>, c: (usize, i64, S)) -> bool {
    c.1 != EOS_TOKEN_ID ==> !ngram_blocked(bs[c.0 as int].ids, NO_REPEAT_NGRAM as int, c.1 as int)
}

impl<S: Copy> BeamSearch<S> {
    /// The current beams.
    pub closed spec fn beams_view(&self) -> Seq<BeamV<S>> {
        beam_views(self.beams@)
    }

    /// The hypotheses finished so far, in the order they finished.
    pub closed spec fn completed_view(&self) -> Seq<HypothesisV<S>> {
        hypothesis_views(self.completed@)
    }

    /// Steps taken since the search started.
    pub closed spec fn steps(&self) -> nat {
        self.steps@
    }

    /// The limit on decoder runs; the first run made the seeds, so at most
    /// `max_steps - 1` steps follow.
    pub closed spec fn max_steps(&self) -> nat {
        self.max_steps as nat
    }

    /// Every continuation taken so far was allowed by the n-gram rule.
    pub closed spec fn continuations_allowed(&self) -> bool {
        self.allowed@
    }

    /// The search is over: no beam is unfinished, or the limit is reached.
    pub open spec fn is_over(&self) -> bool {
        active_indices(self.beams_view()).len() == 0 || self.steps() + 1 >= self.max_steps()
    }

    /// At most `NUM_BEAMS` beams; at least one run allowed and no more steps
    /// taken than it allows; every beam starts with the start token and has
    /// at most `steps + 2` ids, exactly that many and no end token where it
    /// is unfinished; every hypothesis finished so far starts with the start
    /// token, has at most `steps + 2` ids and ended with the end token; where
    /// every continuation was allowed, no sequence repeats an n-gram.
    pub closed spec fn wf(&self) -> bool {
        let bs = self.beams_view();
        let cs = self.completed_view();
        &&& bs.len() <= NUM_BEAMS
        &&& 1 <= self.max_steps()
        &&& self.steps() + 1 <= self.max_steps()
        &&& forall|i: int|
            0 <= i < bs.len() ==> starts_with_start_token(#[trigger] bs[i].ids) && bs[i].ids.len()
                <= self.steps() + 2
        &&& forall|i: int|
            0 <= i < bs.len() && !(#[trigger] bs[i]).done ==> bs[i].ids.len() == self.steps() + 2
                && free_of_eos(bs[i].ids)
        &&& forall|i: int|
            0 <= i < cs.len() ==> starts_with_start_token(#[trigger] cs[i].ids) && cs[i].hit_eos
                && cs[i].ids.len() <= self.steps() + 2
        &&& self.continuations_allowed() ==> forall|i: int|
            0 <= i < bs.len() ==> no_repeated_ngram(#[trigger] bs[i].ids, NO_REPEAT_NGRAM as int)
        &&& self.continuations_allowed() ==> forall|i: int|
            0 <= i < cs.len() ==> no_repeated_ngram(#[trigger] cs[i].ids, NO_REPEAT_NGRAM as int)
    }

    /// Appends to `out` the beams whose `done` flag is `done`, as
    /// hypotheses.
    fn collect_hypotheses(beams: &Vec<Beam<S>>, done: bool, out: &mut Vec<Hypothesis<S>>)
        ensures
            hypothesis_views(final(out)@) == hypothesis_views(old(out)@) + hypotheses_where(
                beam_views(beams@),
                done,
            ),
    {
        let ghost out0 = hypothesis_views(out@);
        let n = beams.len();
        for i in 0..n
            invariant
                n == beams.len(),
                hypothesis_views(out@) == out0 + hypotheses_where(beam_views(beams@).take(i as int), done),
        {
            let ghost before = out@;
            let ghost bv = beam_views(beams@);
            assert(bv.take(i + 1).drop_last() =~= bv.take(i as int));
            assert(bv.take(i + 1).last() == bv[i as int]);
            if beams[i].done == done {
                let ids = beams[i].ids.clone();
                assert(ids@ =~= beams[i as int].ids@);
                out.push(Hypothesis { ids: ids, score: beams[i].score, hit_eos: done });
                assert(hypothesis_views(out@) =~= hypothesis_views(before).push(
                    HypothesisV { ids: bv[i as int].ids, score: bv[i as int].score, hit_eos: done },
                ));
            }
        }
        assert(beam_views(beams@).take(n as int) =~= beam_views(beams@));
    }

    /// The search after its first decoder run, limited to `max_decode_steps`
    /// runs: one beam per seed `(token, score)` (at most `NUM_BEAMS`), each
    /// holding the start token and the seed token, finished where the seed is
    /// the end token; the finished ones are also recorded as hypotheses.
    pub fn start(seeds: &Vec<(usize, S)>, max_decode_steps: usize) -> (search: Self)
        requires
            seeds.len() <= NUM_BEAMS,
            max_decode_steps >= 1,
        ensures
            search.wf(),
            search.steps() == 0,
            search.max_steps() == max_decode_steps,
            search.continuations_allowed(),
            search.beams_view() == Seq::new(
                seeds.len() as nat,
                |j: int| seed_beam(seeds[j].0, seeds[j].1),
            ),
            search.completed_view() == hypotheses_where(search.beams_view(), true),
            search.beams_view().len() == seeds.len(),
            forall|j: int|
                0 <= j < seeds.len() ==> {
                    let b = search.beams_view()[j];
                    &&& b.ids == seq![DECODER_START_TOKEN_ID, (#[trigger] seeds[j]).0 as i64]
                    &&& b.score == seeds[j].1
                    &&& b.done == (seeds[j].0 as i64 == EOS_TOKEN_ID)
                },
    {
        let mut beams: Vec<Beam<S>> = Vec::new();
        let n = seeds.len();
        for j in 0..n
            invariant
                n == seeds.len(),
                beam_views(beams@) == Seq::new(j as nat, |k: int| seed_beam(seeds[k].0, seeds[k].1)),
        {
            let (tok, score) = seeds[j];
            let t = tok as i64;
            let mut ids: Vec<i64> = Vec::new();
            ids.push(DECODER_START_TOKEN_ID);
            ids.push(t);
            let ghost before = beam_views(beams@);
            assert(ids@ =~= seq![DECODER_START_TOKEN_ID, tok as i64]);
            let beam = Beam { ids: ids, score: score, done: t == EOS_TOKEN_ID };
            assert(beam@ == seed_beam(seeds[j as int].0, seeds[j as int].1));
            beams.push(beam);
            assert(beam_views(beams@) =~= before.push(beam@));
            assert(beam_views(beams@) =~= Seq::new(
                (j + 1) as nat,
                |k: int| seed_beam(seeds[k].0, seeds[k].1),
            ));
        }
        let mut completed: Vec<Hypothesis<S>> = Vec::new();
        Self::collect_hypotheses(&beams, true, &mut completed);
        assert(hypothesis_views(completed@) =~= hypotheses_where(beam_views(beams@), true));
        let search = BeamSearch {
            beams,
            completed,
            max_steps: max_decode_steps,
            steps: Ghost(0),
            allowed: Ghost(true),
        };
        proof {
            let bs = search.beams_view();
            let cs = search.completed_view();
            lemma_hypotheses_where_members(bs, true);
            assert forall|i: int| 0 <= i < cs.len() implies starts_with_start_token(#[trigger] cs[i].ids) && cs[i].hit_eos
                && cs[i].ids.len() <= 2 && no_repeated_ngram(cs[i].ids, NO_REPEAT_NGRAM as int) by {
                let w = choose|w: int| 0 <= w < bs.len() && hypotheses_where(bs, true)[i] == (HypothesisV {
                    ids: bs[w].ids,
                    score: bs[w].score,
                    hit_eos: true,
                }) && bs[w].done == true;
                assert(bs[w] == seed_beam(seeds[w].0, seeds[w].1));
            }
        }
        search
    }

    /// The limit on decoder runs.
    pub fn max_steps_limit(&self) -> (max: usize)
        ensures
            max == self.max_steps(),
    {
        self.max_steps
    }

    /// The unfinished beams as a decoder batch (see `next_batch`), or
    /// `None` when every beam is finished.
    fn active_batch(&self) -> (batch: Option<DecoderBatch>)
        requires
            self.wf(),
        ensures
            batch is None <==> active_indices(self.beams_view()).len() == 0,
            batch matches Some(b) ==> {
                &&& b.beam_indices@ == active_indices(self.beams_view())
                &&& b.seq_len == self.steps() + 2
                &&& b.input_ids@ == batch_ids(self.beams_view(), b.beam_indices@)
                &&& b.input_ids@.len() == b.beam_indices@.len() * b.seq_len
            },
    {
        let ghost bv = self.beams_view();
        let n = self.beams.len();
        let mut idx: Vec<usize> = Vec::new();
        for i in 0..n
            invariant
                n == self.beams.len(),
                bv == self.beams_view(),
                idx@ == active_indices(bv.take(i as int)),
        {
            assert(bv.take(i + 1).drop_last() =~= bv.take(i as int));
            assert(bv.take(i + 1).last() == bv[i as int]);
            if !self.beams[i].done {
                idx.push(i);
            }
        }
        assert(bv.take(n as int) =~= bv);
        proof {
            lemma_active_indices(bv);
        }
        if idx.len() == 0 {
            return None;
        }
        let seq_len = self.beams[idx[0]].ids.len();
        let mut input_ids: Vec<i64> = Vec::new();
        let m = idx.len();
        for k in 0..m
            invariant
                m == idx.len(),
                n == self.beams.len(),
                bv == self.beams_view(),
                idx@ == active_indices(bv),
                forall|q: int|
                    0 <= q < idx.len() ==> (#[trigger] idx@[q] as int) < bv.len() && !bv[idx@[q] as int].done,
                input_ids@ == batch_ids(bv, idx@.take(k as int)),
        {
            let b = idx[k];
            assert((idx@[k as int] as int) < bv.len());
            let ghost before = input_ids@;
            let row = &self.beams[b].ids;
            let rl = row.len();
            for r in 0..rl
                invariant
                    rl == row.len(),
                    input_ids@ == before + row@.take(r as int),
            {
                input_ids.push(row[r]);
                assert(row@.take(r + 1) =~= row@.take(r as int).push(row@[r as int]));
            }
            assert(row@.take(rl as int) =~= row@);
            assert(idx@.take(k + 1).drop_last() =~= idx@.take(k as int));
            assert(bv[b as int].ids == row@);
        }
        assert(idx@.take(m as int) =~= idx@);
        proof {
            lemma_batch_ids_len(bv, idx@, (self.steps() + 2) as nat);
        }
        Some(DecoderBatch { beam_indices: idx, seq_len: seq_len, input_ids: input_ids })
    }

    /// Which beams the next decoder run takes, and its input: `None` when
    /// the search is over (see `is_over`); otherwise the indices of the
    /// unfinished beams in increasing order (at least one, at most
    /// `NUM_BEAMS`), their common length `steps + 2`, and their ids one
    /// sequence after the other.
    pub fn next_batch(&self) -> (batch: Option<DecoderBatch>)
        requires
            self.wf(),
        ensures
            batch is None <==> self.is_over(),
            batch is None <==> ((forall|i: int|
                0 <= i < self.beams_view().len() ==> (#[trigger] self.beams_view()[i]).done) || self.steps() + 1
                >= self.max_steps()),
            batch matches Some(b) ==> {
                &&& b.beam_indices@ == active_indices(self.beams_view())
                &&& 1 <= b.beam_indices@.len() <= NUM_BEAMS
                &&& b.seq_len == self.steps() + 2
                &&& b.input_ids@ == batch_ids(self.beams_view(), b.beam_indices@)
                &&& b.input_ids@.len() == b.beam_indices@.len() * b.seq_len
                &&& forall|q: int|
                    0 <= q < b.beam_indices@.len() ==> (#[trigger] b.beam_indices@[q] as int)
                        < self.beams_view().len() && !self.beams_view()[b.beam_indices@[q] as int].done
                &&& forall|i: int|
                    0 <= i < self.beams_view().len() && !(#[trigger] self.beams_view()[i]).done
                        ==> b.beam_indices@.contains(i as usize)
                &&& forall|q: int, r: int|
                    0 <= q < r < b.beam_indices@.len() ==> b.beam_indices@[q] < b.beam_indices@[r]
                &&& forall|q: int|
                    0 <= q < b.beam_indices@.len() ==> {
                        let row = self.beams_view()[#[trigger] b.beam_indices@[q] as int].ids;
                        &&& starts_with_start_token(row)
                        &&& row.len() == b.seq_len
                        &&& b.input_ids@[q * b.seq_len] == DECODER_START_TOKEN_ID
                    }
                &&& forall|q: int, k: int|
                    0 <= q < b.beam_indices@.len() && 0 <= k < b.seq_len ==> #[trigger] b.input_ids@[q
                        * b.seq_len + k] == self.beams_view()[b.beam_indices@[q] as int].ids[k]
            },
    {
        proof {
            let bv = self.beams_view();
            lemma_active_indices_len(bv);
            lemma_active_indices(bv);
            if active_indices(bv).len() == 0 {
                assert forall|i: int| 0 <= i < bv.len() implies (#[trigger] bv[i]).done by {
                    if !bv[i].done {
                        assert(active_indices(bv).contains(i as usize));
                    }
                }
            }
            if forall|i: int| 0 <= i < bv.len() ==> (#[trigger] bv[i]).done {
                if active_indices(bv).len() > 0 {
                    assert((active_indices(bv)[0] as int) < bv.len());
                    assert(!bv[active_indices(bv)[0] as int].done);
                }
            }
        }
        match self.active_batch() {
            None => None,
            Some(b) => {
                if b.seq_len - 1 >= self.max_steps {
                    None
                } else {
                    proof {
                        let bv = self.beams_view();
                        let idx = b.beam_indices@;
                        let len = b.seq_len as nat;
                        lemma_batch_rows(bv, idx, len);
                        assert forall|q: int| 0 <= q < idx.len() implies {
                            let row = bv[#[trigger] idx[q] as int].ids;
                            &&& starts_with_start_token(row)
                            &&& row.len() == b.seq_len
                            &&& b.input_ids@[q * b.seq_len] == DECODER_START_TOKEN_ID
                        } by {
                            let row = bv[idx[q] as int].ids;
                            assert(starts_with_start_token(row));
                            assert(batch_ids(bv, idx)[q * len + 0] == row[0]);
                        }
                    }
                    Some(b)
                }
            },
        }
    }

    /// One step of the search, allowed while it is not over: the beams
    /// become the continuations in `selected` (at most `NUM_BEAMS`), each
    /// `(beam index, token, new score)` continuing an unfinished beam (see
    /// `extend_beam`), and those that end with the end token are recorded as
    /// finished hypotheses after the earlier ones.
    pub fn advance(&mut self, selected: &Vec<(usize, i64, S)>)
        requires
            old(self).wf(),
            old(self).steps() + 1 < old(self).max_steps(),
            selected.len() <= NUM_BEAMS,
            forall|j: int|
                0 <= j < selected.len() ==> (#[trigger] selected[j]).0 < old(self).beams_view().len()
                    && !old(self).beams_view()[selected[j].0 as int].done,
        ensures
            final(self).wf(),
            final(self).steps() == old(self).steps() + 1,
            final(self).max_steps() == old(self).max_steps(),
            final(self).continuations_allowed() == (old(self).continuations_allowed() && forall|j: int|
                0 <= j < selected.len() ==> continuation_allowed(old(self).beams_view(), #[trigger] selected[j])),
            final(self).beams_view() == Seq::new(
                selected.len() as nat,
                |j: int|
                    extend_beam(old(self).beams_view()[selected[j].0 as int], selected[j].1, selected[j].2),
            ),
            final(self).beams_view().len() == selected.len(),
            forall|j: int|
                0 <= j < selected.len() ==> {
                    let c = #[trigger] selected[j];
                    let parent = old(self).beams_view()[c.0 as int];
                    let b = final(self).beams_view()[j];
                    &&& b.score == c.2
                    &&& b.done == (c.1 == EOS_TOKEN_ID)
                    &&& c.1 != EOS_TOKEN_ID ==> b.ids == parent.ids.push(c.1)
                    &&& c.1 == EOS_TOKEN_ID ==> b.ids == parent.ids
                },
            final(self).completed_view() == old(self).completed_view() + hypotheses_where(
                final(self).beams_view(),
                true,
            ),
            old(self).completed_view().len() <= final(self).completed_view().len(),
            forall|k: int|
                0 <= k < old(self).completed_view().len() ==> #[trigger] final(self).completed_view()[k]
                    == old(self).completed_view()[k],
            forall|j: int|
                0 <= j < selected.len() && (#[trigger] selected[j]).1 == EOS_TOKEN_ID
                    ==> final(self).completed_view().contains(
                    HypothesisV {
                        ids: old(self).beams_view()[selected[j].0 as int].ids,
                        score: selected[j].2,
                        hit_eos: true,
                    },
                ),
    {
        let ghost bv = self.beams_view();
        let ghost steps0 = self.steps@;
        let ghost allowed0 = self.allowed@;
        let ghost all_allowed = forall|j: int|
            0 <= j < selected.len() ==> continuation_allowed(bv, #[trigger] selected[j]);
        let mut next: Vec<Beam<S>> = Vec::new();
        let n = selected.len();
        for j in 0..n
            invariant
                n == selected.len(),
                bv == self.beams_view(),
                self.wf(),
                steps0 == self.steps(),
                allowed0 == self.continuations_allowed(),
                all_allowed == (forall|j: int|
                    0 <= j < selected.len() ==> continuation_allowed(bv, #[trigger] selected[j])),
                forall|q: int|
                    0 <= q < selected.len() ==> (#[trigger] selected[q]).0 < bv.len() && !bv[selected[q].0 as int].done,
                beam_views(next@) == Seq::new(
                    j as nat,
                    |k: int| extend_beam(bv[selected[k].0 as int], selected[k].1, selected[k].2),
                ),
                forall|q: int|
                    0 <= q < next@.len() ==> starts_with_start_token(#[trigger] next@[q].ids@)
                        && next@[q].ids@.len() <= steps0 + 3
                        && (!next@[q].done ==> next@[q].ids@.len() == steps0 + 3 && free_of_eos(next@[q].ids@))
                        && (next@[q].done ==> next@[q].ids@.len() == steps0 + 2)
                        && (allowed0 && all_allowed ==> no_repeated_ngram(next@[q].ids@, NO_REPEAT_NGRAM as int)),
        {
            let (idx, tok, score) = selected[j];
            let mut ids = self.beams[idx].ids.clone();
            assert(ids@ =~= bv[idx as int].ids);
            let done = tok == EOS_TOKEN_ID;
            if !done {
                ids.push(tok);
            }
            proof {
                if allowed0 && all_allowed && !done {
                    assert(continuation_allowed(bv, selected[j as int]));
                    assert(no_repeated_ngram(bv[idx as int].ids, NO_REPEAT_NGRAM as int));
                    lemma_unblocked_push_keeps_ngrams_unique(bv[idx as int].ids, tok);
                }
            }
            let beam = Beam { ids: ids, score: score, done: done };
            assert(beam@ == extend_beam(bv[selected[j as int].0 as int], selected[j as int].1, selected[j as int].2));
            let ghost before = beam_views(next@);
            next.push(beam);
            assert(beam_views(next@) =~= before.push(beam@));
        }
        self.beams = next;
        self.steps = Ghost(steps0 + 1);
        let ghost new_allowed: bool = allowed0 && all_allowed;
        self.allowed = Ghost(new_allowed);
        let ghost c0 = self.completed_view();
        Self::collect_hypotheses(&self.beams, true, &mut self.completed);
        proof {
            let nb = self.beams_view();
            let cs = self.completed_view();
            lemma_hypotheses_where_members(nb, true);
            lemma_hypotheses_where_complete(nb, true);
            assert(cs == c0 + hypotheses_where(nb, true));
            assert forall|j: int| 0 <= j < selected.len() && (#[trigger] selected[j]).1 == EOS_TOKEN_ID implies cs.contains(
                HypothesisV { ids: bv[selected[j].0 as int].ids, score: selected[j].2, hit_eos: true },
            ) by {
                let h = HypothesisV { ids: bv[selected[j].0 as int].ids, score: selected[j].2, hit_eos: true };
                assert(nb[j] == extend_beam(bv[selected[j].0 as int], selected[j].1, selected[j].2));
                assert(nb[j].done == true);
                let hw = hypotheses_where(nb, true);
                let k = choose|k: int| 0 <= k < hw.len() && hw[k] == h;
                assert(cs[c0.len() + k] == h);
            }
            assert forall|i: int| 0 <= i < nb.len() implies starts_with_start_token(#[trigger] nb[i].ids)
                && nb[i].ids.len() <= self.steps() + 2 by {
                assert(nb[i].ids == self.beams@[i].ids@);
            }
            assert(cs == c0 + hypotheses_where(nb, true));
            assert forall|i: int| 0 <= i < cs.len() implies starts_with_start_token(#[trigger] cs[i].ids) && cs[i].hit_eos
                && cs[i].ids.len() <= self.steps() + 2
                && (self.continuations_allowed() ==> no_repeated_ngram(cs[i].ids, NO_REPEAT_NGRAM as int)) by {
                if i >= c0.len() {
                    let k = i - c0.len();
                    assert(cs[i] == hypotheses_where(nb, true)[k]);
                    let w = choose|w: int| 0 <= w < nb.len() && hypotheses_where(nb, true)[k] == (HypothesisV {
                        ids: nb[w].ids,
                        score: nb[w].score,
                        hit_eos: true,
                    }) && nb[w].done == true;
                    assert(nb[w].ids == self.beams@[w].ids@);
                } else {
                    assert(c0 == old(self).completed_view());
                    assert(cs[i] == c0[i]);
                    assert(starts_with_start_token(c0[i].ids));
                    if self.continuations_allowed() {
                        assert(no_repeated_ngram(c0[i].ids, NO_REPEAT_NGRAM as int));
                    }
                }
            }
            assert forall|i: int| 0 <= i < nb.len() && !(#[trigger] nb[i]).done implies nb[i].ids.len() == self.steps() + 2 && free_of_eos(nb[i].ids) by {
                assert(nb[i].ids == self.beams@[i].ids@);
            }
            if self.continuations_allowed() {
                assert forall|i: int| 0 <= i < nb.len() implies no_repeated_ngram(#[trigger] nb[i].ids, NO_REPEAT_NGRAM as int) by {
                    assert(nb[i].ids == self.beams@[i].ids@);
                }
                assert forall|i: int| 0 <= i < cs.len() implies no_repeated_ngram(#[trigger] cs[i].ids, NO_REPEAT_NGRAM as int) by {
                }
            }
            assert(nb.len() <= NUM_BEAMS);
            assert(1 <= self.max_steps());
            assert(self.steps() + 1 <= self.max_steps());
            assert(self.continuations_allowed() ==> forall|i: int|
                0 <= i < nb.len() ==> no_repeated_ngram(#[trigger] nb[i].ids, NO_REPEAT_NGRAM as int));
            assert(self.continuations_allowed() ==> forall|i: int|
                0 <= i < cs.len() ==> no_repeated_ngram(#[trigger] cs[i].ids, NO_REPEAT_NGRAM as int));
            assert(forall|i: int|
                0 <= i < cs.len() ==> starts_with_start_token(#[trigger] cs[i].ids) && cs[i].hit_eos
                    && cs[i].ids.len() <= self.steps() + 2);
            assert(forall|i: int|
                0 <= i < nb.len() ==> starts_with_start_token(#[trigger] nb[i].ids) && nb[i].ids.len()
                    <= self.steps() + 2);
            assert(self.wf());
        }
    }

    /// The hypotheses of a search that is over (see `finish`).
    fn finished_hypotheses(self) -> (hyps: Vec<Hypothesis<S>>)
        requires
            self.wf(),
            self.is_over(),
        ensures
            hypothesis_views(hyps@) == self.completed_view() + hypotheses_where(self.beams_view(), false),
            forall|k: int|
                0 <= k < hyps.len() ==> starts_with_start_token(#[trigger] hyps@[k].ids@)
                    && 1 <= hyps@[k].ids@.len() - 1 <= self.max_steps(),
            forall|k: int|
                0 <= k < hyps.len() && !(#[trigger] hyps@[k]).hit_eos ==> free_of_eos(hyps@[k].ids@)
                    && hyps@[k].ids@.len() - 1 == self.max_steps(),
            self.continuations_allowed() ==> forall|k: int|
                0 <= k < hyps.len() ==> no_repeated_ngram(#[trigger] hyps@[k].ids@, NO_REPEAT_NGRAM as int),
    {
        let ghost c0 = self.completed_view();
        let ghost bv = self.beams_view();
        let ghost allowed = self.continuations_allowed();
        let ghost over_by_limit = self.steps() + 1 >= self.max_steps();
        proof {
            lemma_active_indices(bv);
        }
        let BeamSearch { beams, completed, max_steps, steps, allowed: _ } = self;
        assert(beam_views(beams@) == bv);
        assert(hypothesis_views(completed@) == c0);
        let mut out = completed;
        Self::collect_hypotheses(&beams, false, &mut out);
        proof {
            let hs = hypothesis_views(out@);
            assert(hs == c0 + hypotheses_where(bv, false));
            lemma_hypotheses_where_members(bv, false);
            assert forall|k: int| 0 <= k < out.len() implies starts_with_start_token(#[trigger] out@[k].ids@)
                && 1 <= out@[k].ids@.len() - 1 <= max_steps
                && (!out@[k].hit_eos ==> free_of_eos(out@[k].ids@) && out@[k].ids@.len() - 1 == max_steps)
                && (allowed ==> no_repeated_ngram(out@[k].ids@, NO_REPEAT_NGRAM as int)) by {
                assert(hs[k].ids == out@[k].ids@ && hs[k].hit_eos == out@[k].hit_eos);
                if k >= c0.len() {
                    let q = k - c0.len();
                    assert(hs[k] == hypotheses_where(bv, false)[q]);
                    let w = choose|w: int| 0 <= w < bv.len() && hypotheses_where(bv, false)[q] == (HypothesisV {
                        ids: bv[w].ids,
                        score: bv[w].score,
                        hit_eos: false,
                    }) && bv[w].done == false;
                    assert(bv[w].ids.len() == steps@ + 2);
                    assert(active_indices(bv).contains(w as usize));
                    assert(over_by_limit);
                } else {
                    assert(hs[k] == c0[k]);
                    assert(starts_with_start_token(c0[k].ids));
                }
            }
        }
        out
    }

    /// Ends a search that is over: the hypotheses finished so far, followed
    /// by the unfinished beams as hypotheses that did not hit the end token.
    /// Every hypothesis starts with the start token and holds from 1 to
    /// `max_steps` generated tokens; one that did not hit the end token holds
    /// none and exactly `max_steps` generated tokens (the limit cut it off).
    /// Where every continuation was allowed by the n-gram rule, no
    /// hypothesis repeats an n-gram.
    pub fn finish(self) -> (finished: Finished<S>)
        requires
            self.wf(),
            self.is_over(),
        ensures
            finished.wf(),
            finished.max_steps() == self.max_steps(),
            finished.continuations_allowed() == self.continuations_allowed(),
            finished.hypotheses_view() == self.completed_view() + hypotheses_where(self.beams_view(), false),
            forall|k: int|
                0 <= k < self.completed_view().len() ==> #[trigger] finished.hypotheses_view()[k]
                    == self.completed_view()[k],
            forall|i: int|
                0 <= i < self.beams_view().len() && !(#[trigger] self.beams_view()[i]).done
                    ==> finished.hypotheses_view().contains(
                    HypothesisV { ids: self.beams_view()[i].ids, score: self.beams_view()[i].score, hit_eos: false },
                ),
            forall|k: int|
                0 <= k < finished.hypotheses_view().len() ==> {
                    let h = #[trigger] finished.hypotheses_view()[k];
                    &&& starts_with_start_token(h.ids)
                    &&& 1 <= h.ids.len() - 1 <= self.max_steps()
                    &&& !h.hit_eos ==> free_of_eos(h.ids) && h.ids.len() - 1 == self.max_steps()
                    &&& self.continuations_allowed() ==> no_repeated_ngram(h.ids, NO_REPEAT_NGRAM as int)
                },
    {
        let max_steps = self.max_steps;
        let ghost allowed = self.continuations_allowed();
        let ghost c0 = self.completed_view();
        let ghost bv = self.beams_view();
        let hyps = self.finished_hypotheses();
        let finished = Finished { hyps, max_steps, allowed: Ghost(allowed) };
        proof {
            lemma_hypotheses_where_complete(bv, false);
            let all = finished.hypotheses_view();
            assert(all == c0 + hypotheses_where(bv, false));
            assert forall|i: int| 0 <= i < bv.len() && !(#[trigger] bv[i]).done implies all.contains(
                HypothesisV { ids: bv[i].ids, score: bv[i].score, hit_eos: false },
            ) by {
                let h = HypothesisV { ids: bv[i].ids, score: bv[i].score, hit_eos: false };
                let hw = hypotheses_where(bv, false);
                let k = choose|k: int| 0 <= k < hw.len() && hw[k] == h;
                assert(all[c0.len() + k] == h);
            }
            let hs = finished.hypotheses_view();
            assert forall|k: int| 0 <= k < hs.len() implies {
                let h = #[trigger] hs[k];
                &&& starts_with_start_token(h.ids)
                &&& 1 <= h.ids.len() - 1 <= max_steps
                &&& !h.hit_eos ==> free_of_eos(h.ids) && h.ids.len() - 1 == max_steps
                &&& allowed ==> no_repeated_ngram(h.ids, NO_REPEAT_NGRAM as int)
            } by {
                assert(hs[k].ids == hyps@[k].ids@ && hs[k].hit_eos == hyps@[k].hit_eos);
            }
        }
        finished
    }

    /// The current beams.
    pub fn beams(&self) -> (beams: &Vec<Beam<S>>)
        ensures
            beam_views(beams@) == self.beams_view(),
    {
        &self.beams
    }

    /// The hypotheses finished so far.
    pub fn completed(&self) -> (completed: &Vec<Hypothesis<S>>)
        ensures
            hypothesis_views(completed@) == self.completed_view(),
    {
        &self.completed
    }
}

/// The outcome of a finished search: its hypotheses, the limit on decoder
/// runs it was held to, and (as ghost state) whether every continuation it
/// took was allowed by the no-repeat n-gram rule.
pub struct Finished<S> {
    hyps: Vec<Hypothesis<S>>,
    max_steps: usize,
    allowed: Ghost<bool>,
}

impl<S: Copy> Finished<S> {
    /// The hypotheses, finished ones first, then those the limit cut off.
    pub closed spec fn hypotheses_view(&self) -> Seq<HypothesisV<S>> {
        hypothesis_views(self.hyps@)
    }

    /// The limit on decoder runs.
    pub closed spec fn max_steps(&self) -> nat {
        self.max_steps as nat
    }

    /// Every continuation taken was allowed by the n-gram rule.
    pub closed spec fn continuations_allowed(&self) -> bool {
        self.allowed@
    }

    /// Every hypothesis starts with the start token and holds from 1 to
    /// `max_steps` generated tokens; one that did not hit the end token
    /// holds none and exactly `max_steps` generated tokens; where every
    /// continuation was allowed, none repeats an n-gram.
    pub closed spec fn wf(&self) -> bool {
        forall|k: int|
            0 <= k < self.hypotheses_view().len() ==> {
                let h = #[trigger] self.hypotheses_view()[k];
                &&& starts_with_start_token(h.ids)
                &&& 1 <= h.ids.len() - 1 <= self.max_steps()
                &&& !h.hit_eos ==> free_of_eos(h.ids) && h.ids.len() - 1 == self.max_steps()
                &&& self.continuations_allowed() ==> no_repeated_ngram(h.ids, NO_REPEAT_NGRAM as int)
            }
    }

    /// The hypotheses.
    pub fn hypotheses(&self) -> (hyps: &Vec<Hypothesis<S>>)
        ensures
            hypothesis_views(hyps@) == self.hypotheses_view(),
    {
        &self.hyps
    }

    /// What the recognition reports of the hypothesis `choice` (none where
    /// there is no hypothesis to choose): its transcript (see `transcribe`),
    /// with from 1 to `max_steps` generated tokens, exactly `max_steps` where
    /// the limit cut it off; where every continuation was allowed, its ids
    /// (the start token, then the generated tokens) repeat no n-gram.
    pub fn transcribe(&self, vocab: &VocabDecoder, choice: Option<usize>) -> (t: Transcript)
        requires
            self.wf(),
            choice matches Some(i) ==> i < self.hypotheses_view().len(),
        ensures
            choice is None ==> t.text@ == Seq::<char>::empty() && t.token_count == 0 && t.scored_tokens
                == 0 && t.truncated,
            choice matches Some(i) ==> {
                let h = self.hypotheses_view()[i as int];
                &&& t.text@ == decode_text(vocab@, without_start_token(h.ids))
                &&& t.token_count == generated_count(h.ids)
                &&& t.scored_tokens == scored_count(h.ids, h.hit_eos)
                &&& t.truncated == !h.hit_eos
                &&& 1 <= t.token_count <= self.max_steps()
                &&& t.truncated ==> t.token_count == self.max_steps()
                &&& h.ids[0] == DECODER_START_TOKEN_ID
                &&& self.continuations_allowed() ==> no_repeated_ngram(h.ids, NO_REPEAT_NGRAM as int)
            },
    {
        match choice {
            None => {
                let empty: Vec<i64> = Vec::new();
                let t = transcribe(vocab, empty.as_slice(), false);
                assert(without_start_token(empty@) =~= Seq::<i64>::empty());
                assert(decode_text(vocab@, Seq::<i64>::empty()) =~= Seq::<char>::empty());
                t
            },
            Some(i) => {
                let h = &self.hyps[i];
                proof {
                    let hv = self.hypotheses_view()[i as int];
                    assert(hv.ids == h.ids@ && hv.hit_eos == h.hit_eos);
                }
                transcribe(vocab, h.ids.as_slice(), h.hit_eos)
            },
        }
    }
}

/// A beam continued by a candidate carries the candidate's accumulated
/// score, whatever the token; the end token finishes it without being
/// appended, and any other token is appended to the parent's ids.
pub proof fn lemma_continuation_carries_candidate_score<S>(parent: BeamV<S>, tok: i64, score: S)
    ensures
        extend_beam(parent, tok, score).score == score,
        extend_beam(parent, tok, score).done == (tok == EOS_TOKEN_ID),
        tok != EOS_TOKEN_ID ==> extend_beam(parent, tok, score).ids == parent.ids.push(tok),
        tok == EOS_TOKEN_ID ==> extend_beam(parent, tok, score).ids == parent.ids,
{
}

/// `active_indices` lists no more indices than there are beams.
pub proof fn lemma_active_indices_len<S>(bs: Seq<BeamV<S>>)
    ensures
        active_indices(bs).len() <= bs.len(),
    decreases bs.len(),
{
    if bs.len() > 0 {
        lemma_active_indices_len(bs.drop_last());
    }
}

/// Every beam whose flag is `done` is among the hypotheses
/// `hypotheses_where` makes, with its ids and score.
pub proof fn lemma_hypotheses_where_complete<S>(bs: Seq<BeamV<S>>, done: bool)
    ensures
        forall|i: int|
            0 <= i < bs.len() && (#[trigger] bs[i]).done == done ==> hypotheses_where(bs, done).contains(
                HypothesisV { ids: bs[i].ids, score: bs[i].score, hit_eos: done },
            ),
    decreases bs.len(),
{
    if bs.len() > 0 {
        let pre = bs.drop_last();
        lemma_hypotheses_where_complete(pre, done);
        assert forall|i: int| 0 <= i < bs.len() && (#[trigger] bs[i]).done == done implies hypotheses_where(bs, done).contains(
            HypothesisV { ids: bs[i].ids, score: bs[i].score, hit_eos: done },
        ) by {
            let h = HypothesisV { ids: bs[i].ids, score: bs[i].score, hit_eos: done };
            if i < bs.len() - 1 {
                assert(pre[i] == bs[i]);
                let k = choose|k: int| 0 <= k < hypotheses_where(pre, done).len() && hypotheses_where(pre, done)[k] == h;
                assert(hypotheses_where(bs, done)[k] == h);
            } else {
                let hw = hypotheses_where(bs, done);
                assert(hw[hw.len() - 1] == h);
            }
        }
    }
}

/// Each hypothesis that `hypotheses_where` makes is one of the beams, with
/// the flag it was selected by.
pub proof fn lemma_hypotheses_where_members<S>(bs: Seq<BeamV<S>>, done: bool)
    ensures
        forall|k: int|
            0 <= k < hypotheses_where(bs, done).len() ==> exists|i: int|
                0 <= i < bs.len() && (#[trigger] hypotheses_where(bs, done)[k]) == (HypothesisV {
                    ids: bs[i].ids,
                    score: bs[i].score,
                    hit_eos: done,
                }) && bs[i].done == done,
    decreases bs.len(),
{
    if bs.len() > 0 {
        let pre = bs.drop_last();
        lemma_hypotheses_where_members(pre, done);
        assert forall|k: int| 0 <= k < hypotheses_where(bs, done).len() implies exists|i: int|
            0 <= i < bs.len() && (#[trigger] hypotheses_where(bs, done)[k]) == (HypothesisV {
                ids: bs[i].ids,
                score: bs[i].score,
                hit_eos: done,
            }) && bs[i].done == done by {
            if k < hypotheses_where(pre, done).len() {
                let i = choose|i: int|
                    0 <= i < pre.len() && (#[trigger] hypotheses_where(pre, done)[k]) == (HypothesisV {
                        ids: pre[i].ids,
                        score: pre[i].score,
                        hit_eos: done,
                    }) && pre[i].done == done;
                assert(pre[i] == bs[i]);
            } else {
                assert(bs[bs.len() - 1] == bs.last());
            }
        }
    }
}

} // verus!
