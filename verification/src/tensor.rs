//! Index arithmetic on the flat tensors that the encoder and the decoder
//! exchange.
use vstd::prelude::*;

verus! {

/// The first `n` values of `data` repeated without end (nothing where
/// `data` is empty).
pub open spec fn cycled<T>(data: Seq<T>, n: nat) -> Seq<T> {
    if data.len() == 0 {
        Seq::empty()
    } else {
        Seq::new(n, |i: int| data[i % (data.len() as int)])
    }
}

/// The first `n` values of `data` repeated without end: with `n` a
/// multiple of `data.len()`, that many copies of `data` one after the
/// other (the encoder output handed once per beam to a batched decoder
/// run).
pub fn cycle_take<T: Copy>(data: &Vec<T>, n: usize) -> (out: Vec<T>)
    ensures
        out@ == cycled(data@, n as nat),
{
    let len = data.len();
    let mut out: Vec<T> = Vec::new();
    if len == 0 {
        return out;
    }
    let mut j: usize = 0;
    let ghost mut q: int = 0;
    for i in 0..n
        invariant
            len == data@.len(),
            len > 0,
            j < len,
            i == q * len + j,
            out@ =~= Seq::new(i as nat, |k: int| data@[k % (len as int)]),
    {
        proof {
            vstd::arithmetic::div_mod::lemma_fundamental_div_mod_converse(i as int, len as int, q, j as int);
        }
        out.push(data[j]);
        if j + 1 == len {
            j = 0;
            proof {
                q = q + 1;
                assert(i + 1 == q * len + j) by (nonlinear_arith)
                    requires
                        i == (q - 1) * len + (len - 1),
                        j == 0,
                ;
            }
        } else {
            j = j + 1;
        }
    }
    out
}

/// Cycling a non-empty `data` to `copies * data.len()` values gives that
/// many copies of it one after the other.
pub proof fn lemma_cycled_copies<T>(data: Seq<T>, copies: nat)
    requires
        data.len() > 0,
    ensures
        cycled(data, copies * data.len()).len() == copies * data.len(),
        forall|b: int, k: int|
            0 <= b < copies && 0 <= k < data.len() ==> #[trigger] cycled(data, copies * data.len())[b
                * data.len() + k] == data[k],
{
    let len = data.len() as int;
    assert forall|b: int, k: int| 0 <= b < copies && 0 <= k < len implies #[trigger] cycled(data, copies * data.len())[b * len + k] == data[k] by {
        assert(0 <= b * len + k < copies * len) by (nonlinear_arith)
            requires
                0 <= b < copies,
                0 <= k < len,
        ;
        vstd::arithmetic::div_mod::lemma_fundamental_div_mod_converse(b * len + k, len, b, k);
    }
}

/// Where, in the decoder's flat logits of shape `[batch, seq_len, vocab]`,
/// the scores of row `b` at its last position start.
pub fn last_position_offset(b: usize, seq_len: usize, vocab: usize) -> (offset: usize)
    requires
        seq_len >= 1,
        (b + 1) * seq_len <= usize::MAX,
        (b + 1) * seq_len * vocab <= usize::MAX,
    ensures
        offset == (b * seq_len + seq_len - 1) * vocab,
        offset + vocab <= (b + 1) * seq_len * vocab,
{
    proof {
        assert((b * seq_len + seq_len - 1) * vocab + vocab == (b + 1) * seq_len * vocab) by (nonlinear_arith);
        assert(0 <= (b * seq_len + seq_len - 1) * vocab) by (nonlinear_arith)
            requires
                seq_len >= 1,
        ;
        assert((b + 1) * seq_len == b * seq_len + seq_len) by (nonlinear_arith);
        assert(b * seq_len + seq_len - 1 <= (b + 1) * seq_len) by (nonlinear_arith);
        assert((b * seq_len + seq_len - 1) * vocab <= (b + 1) * seq_len * vocab) by (nonlinear_arith)
            requires
                seq_len >= 1,
        ;
    }
    (b * seq_len + seq_len - 1) * vocab
}

} // verus!
