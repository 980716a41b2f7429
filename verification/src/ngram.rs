//! The no-repeat n-gram rule of the decoder: a token that would complete an
//! n-gram already present in the sequence is blocked.
use vstd::prelude::*;

use crate::NO_REPEAT_NGRAM;

verus! {

/// The `n - 1` ids starting at `i` equal the last `n - 1` ids of `ids`, and
/// an id follows them (`i + n - 1 < ids.len()`).
pub open spec fn window_matches_suffix(ids: Seq<i64>, n: int, i: int) -> bool {
    &&& 0 <= i
    &&& i + n - 1 < ids.len()
    &&& forall|k: int| 0 <= k < n - 1 ==> #[trigger] ids[i + k] == ids[ids.len() - (n - 1) + k]
}

/// Token `tok` is blocked after `ids`: some earlier window equals the last
/// `n - 1` ids and was followed by `tok`.
pub open spec fn ngram_blocked(ids: Seq<i64>, n: int, tok: int) -> bool {
    n >= 2 && exists|i: int| window_matches_suffix(ids, n, i) && ids[i + n - 1] == tok
}

/// Same as `ngram_blocked`, looking only at windows that start before `end`.
pub open spec fn ngram_blocked_before(ids: Seq<i64>, n: int, tok: int, end: int) -> bool {
    exists|i: int| 0 <= i < end && window_matches_suffix(ids, n, i) && ids[i + n - 1] == tok
}

/// The `n` ids of `s` starting at `i` equal its last `n` ids.
pub open spec fn matches_last_ngram(s: Seq<i64>, n: int, i: int) -> bool {
    forall|k: int| 0 <= k < n ==> #[trigger] s[i + k] == s[s.len() - n + k]
}

/// The last `n` ids of `s` already occur at an earlier position.
pub open spec fn last_ngram_repeats(s: Seq<i64>, n: int) -> bool {
    s.len() >= n && exists|i: int| 0 <= i < s.len() - n && #[trigger] matches_last_ngram(s, n, i)
}

/// The `n` ids of `s` at `i` equal the `n` ids at `j`.
pub open spec fn windows_equal(s: Seq<i64>, n: int, i: int, j: int) -> bool {
    forall|k: int| 0 <= k < n ==> #[trigger] s[i + k] == s[j + k]
}

/// No n-gram occurs twice in `s`.
pub open spec fn no_repeated_ngram(s: Seq<i64>, n: int) -> bool {
    forall|i: int, j: int| 0 <= i < j && j + n <= s.len() ==> !#[trigger] windows_equal(s, n, i, j)
}

/// The scores after the rule: blocked positions hold `blocked`, the others
/// keep their score.
pub open spec fn scores_after_rule<T>(ids: Seq<i64>, scores: Seq<T>, blocked: T) -> Seq<T> {
    Seq::new(
        scores.len(),
        |j: int| if ngram_blocked(ids, NO_REPEAT_NGRAM as int, j) { blocked } else { scores[j] },
    )
}

/// Whether the `n - 1` ids at `i` equal the last `n - 1` ids.
fn window_matches(ids: &[i64], n: usize, i: usize) -> (m: bool)
    requires
        2 <= n,
        i + n - 1 < ids@.len(),
    ensures
        m == window_matches_suffix(ids@, n as int, i as int),
{
    let len = ids.len();
    let start = len - (n - 1);
    let mut k: usize = 0;
    while k < n - 1
        invariant
            2 <= n,
            len == ids@.len(),
            i + n - 1 < len,
            start == len - (n - 1),
            k <= n - 1,
            forall|q: int| 0 <= q < k ==> #[trigger] ids@[i + q] == ids@[len - (n - 1) + q],
        decreases n - 1 - k,
    {
        if ids[i + k] != ids[start + k] {
            return false;
        }
        k = k + 1;
    }
    true
}

/// Blocks, in `scores` (one score per vocabulary token), every token that
/// would repeat an n-gram of size `NO_REPEAT_NGRAM` in `ids`: its score is
/// replaced by `blocked`; every other score stays.
pub fn apply_no_repeat_ngram<T: Copy>(ids: &[i64], scores: &mut Vec<T>, blocked: T)
    ensures
        final(scores)@ == scores_after_rule(ids@, old(scores)@, blocked),
        final(scores)@.len() == old(scores)@.len(),
        forall|j: int|
            0 <= j < old(scores)@.len() && j <= i64::MAX ==> #[trigger] final(scores)@[j] == if last_ngram_repeats(
                ids@.push(j as i64),
                3,
            ) {
                blocked
            } else {
                old(scores)@[j]
            },
{
    let n = NO_REPEAT_NGRAM;
    let ghost s0 = scores@;
    let len = ids.len();
    if len < n - 1 {
        assert(scores@ =~= scores_after_rule(ids@, s0, blocked)) by {
            assert forall|j: int| 0 <= j < s0.len() implies !ngram_blocked(ids@, n as int, j) by {
                if ngram_blocked(ids@, n as int, j) {
                    let i = choose|i: int| window_matches_suffix(ids@, n as int, i) && ids@[i + n - 1] == j;
                }
            }
        }
        return;
    }
    let end = len - (n - 1);
    let vocab = scores.len();
    for i in 0..end
        invariant
            n == NO_REPEAT_NGRAM,
            len == ids@.len(),
            end == len - (n - 1),
            vocab == scores@.len(),
            vocab == s0.len(),
            forall|j: int|
                0 <= j < vocab ==> #[trigger] scores@[j] == if ngram_blocked_before(ids@, n as int, j, i as int) {
                    blocked
                } else {
                    s0[j]
                },
    {
        let m = window_matches(ids, n, i);
        let t = ids[i + n - 1];
        let hit = m && 0 <= t && (t as u64) < (vocab as u64);
        let ghost before = scores@;
        if hit {
            scores.set(t as usize, blocked);
        }
        assert forall|j: int| 0 <= j < vocab implies #[trigger] scores@[j] == if ngram_blocked_before(ids@, n as int, j, i + 1) {
            blocked
        } else {
            s0[j]
        } by {
            if hit && j == t as int {
                assert(window_matches_suffix(ids@, n as int, i as int) && ids@[i + n - 1] == j);
                assert(ngram_blocked_before(ids@, n as int, j, i + 1));
            } else {
                assert(scores@[j] == before[j]);
                if ngram_blocked_before(ids@, n as int, j, i + 1) {
                    let w = choose|w: int| 0 <= w < i + 1 && window_matches_suffix(ids@, n as int, w) && ids@[w + n - 1] == j;
                    if w == i {
                        assert(m);
                        assert(false);
                    }
                    assert(ngram_blocked_before(ids@, n as int, j, i as int));
                }
                if ngram_blocked_before(ids@, n as int, j, i as int) {
                    let w = choose|w: int| 0 <= w < i && window_matches_suffix(ids@, n as int, w) && ids@[w + n - 1] == j;
                    assert(ngram_blocked_before(ids@, n as int, j, i + 1));
                }
            }
        }
    }
    assert forall|j: int| 0 <= j < vocab implies ngram_blocked_before(ids@, n as int, j, end as int) == ngram_blocked(ids@, n as int, j) by {
        if ngram_blocked(ids@, n as int, j) {
            let w = choose|w: int| window_matches_suffix(ids@, n as int, w) && ids@[w + n - 1] == j;
            assert(0 <= w < end);
        }
    }
    assert(scores@ =~= scores_after_rule(ids@, s0, blocked));
    assert forall|j: int| 0 <= j < s0.len() && j <= i64::MAX implies #[trigger] scores@[j] == if last_ngram_repeats(ids@.push(j as i64), 3) {
        blocked
    } else {
        s0[j]
    } by {
        lemma_blocked_iff_ngram_repeats(ids@, j as i64);
        assert(j as i64 as int == j);
    }
}

/// The rule blocks exactly the tokens that would repeat an n-gram: for any
/// sequence `ids` and token `tok`, `tok` is blocked after `ids` if and only
/// if the last n-gram of `ids` followed by `tok` already occurs earlier in
/// that sequence.
pub proof fn lemma_blocked_iff_ngram_repeats(ids: Seq<i64>, tok: i64)
    ensures
        ngram_blocked(ids, NO_REPEAT_NGRAM as int, tok as int) <==> last_ngram_repeats(
            ids.push(tok),
            NO_REPEAT_NGRAM as int,
        ),
{
    let n = NO_REPEAT_NGRAM as int;
    let s = ids.push(tok);
    let len = ids.len();
    if ngram_blocked(ids, n, tok as int) {
        let i = choose|i: int| window_matches_suffix(ids, n, i) && ids[i + n - 1] == tok as int;
        assert forall|k: int| 0 <= k < n implies #[trigger] s[i + k] == s[s.len() - n + k] by {
            if k < n - 1 {
                assert(ids[i + k] == ids[len - (n - 1) + k]);
            }
        }
        assert(0 <= i < s.len() - n);
        assert(matches_last_ngram(s, n, i));
    }
    if last_ngram_repeats(s, n) {
        let i = choose|i: int| 0 <= i < s.len() - n && #[trigger] matches_last_ngram(s, n, i);
        assert forall|k: int| 0 <= k < n - 1 implies #[trigger] ids[i + k] == ids[len - (n - 1) + k] by {
            assert(s[i + k] == s[s.len() - n + k]);
        }
        let last = n - 1;
        assert(s[i + last] == s[s.len() - n + last]);
        assert(window_matches_suffix(ids, n, i));
    }
}

/// Appending a token that the rule does not block to a sequence without a
/// repeated n-gram gives a sequence without a repeated n-gram.
pub proof fn lemma_unblocked_push_keeps_ngrams_unique(ids: Seq<i64>, tok: i64)
    requires
        no_repeated_ngram(ids, NO_REPEAT_NGRAM as int),
        !ngram_blocked(ids, NO_REPEAT_NGRAM as int, tok as int),
    ensures
        no_repeated_ngram(ids.push(tok), NO_REPEAT_NGRAM as int),
{
    let n = NO_REPEAT_NGRAM as int;
    let t = ids.push(tok);
    lemma_blocked_iff_ngram_repeats(ids, tok);
    assert forall|i: int, j: int| 0 <= i < j && j + n <= t.len() implies !#[trigger] windows_equal(t, n, i, j) by {
        if j + n <= ids.len() {
            if windows_equal(t, n, i, j) {
                assert forall|k: int| 0 <= k < n implies #[trigger] ids[i + k] == ids[j + k] by {
                    assert(t[i + k] == t[j + k]);
                }
                assert(windows_equal(ids, n, i, j));
            }
        } else {
            if windows_equal(t, n, i, j) {
                assert(j == t.len() - n);
                assert forall|k: int| 0 <= k < n implies #[trigger] t[i + k] == t[t.len() - n + k] by {
                    assert(t[i + k] == t[j + k]);
                }
                assert(matches_last_ngram(t, n, i));
                assert(last_ngram_repeats(t, n));
            }
        }
    }
}

} // verus!
