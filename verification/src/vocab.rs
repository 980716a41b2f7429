//! The line-indexed vocabulary: token id `i` is line `i` of `vocab.txt`.
use vstd::prelude::*;

use crate::FIRST_TEXT_TOKEN_ID;

verus! {

/// The first index at or after `start` that holds a line feed, or
/// `s.len()` where there is none.
pub open spec fn next_newline(s: Seq<char>, start: int) -> int
    decreases s.len() - start,
{
    if start < 0 || start >= s.len() {
        s.len() as int
    } else if s[start] == '\n' {
        start
    } else {
        next_newline(s, start + 1)
    }
}

/// The text of a line whose characters are `raw`: a carriage return just
/// before the line feed that ends it belongs to the line ending.
pub open spec fn line_text(raw: Seq<char>, terminated: bool) -> Seq<char> {
    if terminated && raw.len() > 0 && raw.last() == '\r' {
        raw.drop_last()
    } else {
        raw
    }
}

/// The lines of `s` from index `start` on: split at each line feed, with
/// the `\r` of a `\r\n` ending removed, and no empty line after a final
/// line feed.
pub open spec fn lines_from(s: Seq<char>, start: int) -> Seq<Seq<char>>
    decreases s.len() - start,
{
    if start < 0 || start >= s.len() {
        Seq::empty()
    } else {
        let e = next_newline(s, start);
        proof {
            lemma_next_newline(s, start);
        }
        let line = line_text(s.subrange(start, e), e < s.len());
        if e < s.len() {
            seq![line] + lines_from(s, e + 1)
        } else {
            seq![line]
        }
    }
}

/// The lines of `s`.
pub open spec fn text_lines(s: Seq<char>) -> Seq<Seq<char>> {
    lines_from(s, 0)
}

/// `next_newline` lies between `start` and the end, and no line feed comes
/// before it.
pub proof fn lemma_next_newline(s: Seq<char>, start: int)
    requires
        0 <= start <= s.len(),
    ensures
        start <= next_newline(s, start) <= s.len(),
        next_newline(s, start) < s.len() ==> s[next_newline(s, start)] == '\n',
        forall|k: int| start <= k < next_newline(s, start) ==> s[k] != '\n',
    decreases s.len() - start,
{
    if start < s.len() && s[start] != '\n' {
        lemma_next_newline(s, start + 1);
    }
}

/// With no line feed in `[start, i)`, the next one from `start` is the
/// next one from `i`.
proof fn lemma_next_newline_skip(s: Seq<char>, start: int, i: int)
    requires
        0 <= start <= i <= s.len(),
        forall|k: int| start <= k < i ==> s[k] != '\n',
    ensures
        next_newline(s, start) == next_newline(s, i),
    decreases i - start,
{
    if start < i {
        lemma_next_newline_skip(s, start + 1, i);
    }
}

/// `t` with every leading `##` removed (the mark of a word piece that
/// continues the previous one).
pub open spec fn strip_subword_marks(t: Seq<char>) -> Seq<char>
    decreases t.len(),
{
    if t.len() >= 2 && t[0] == '#' && t[1] == '#' {
        strip_subword_marks(t.subrange(2, t.len() as int))
    } else {
        t
    }
}

/// The text that token `id` contributes: nothing for a special token or
/// an id outside the vocabulary, else the token without its leading `##`.
pub open spec fn token_text(vocab: Seq<Seq<char>>, id: i64) -> Seq<char> {
    if FIRST_TEXT_TOKEN_ID <= id && id < vocab.len() {
        strip_subword_marks(vocab[id as int])
    } else {
        Seq::empty()
    }
}

/// The text of the ids, token by token.
pub open spec fn decode_text(vocab: Seq<Seq<char>>, ids: Seq<i64>) -> Seq<char>
    decreases ids.len(),
{
    if ids.len() == 0 {
        Seq::empty()
    } else {
        decode_text(vocab, ids.drop_last()) + token_text(vocab, ids.last())
    }
}

/// The string whose characters are `chars`.
///
/// Calls std's `FromIterator<&char>` for `String` (`collect`); the contract
/// claims that the string holds exactly those characters, in order.
#[verifier::external_body]
fn string_from_chars(chars: &Vec<char>) -> (s: String)
    ensures
        s@ == chars@,
{
    chars.iter().collect()
}

pub open spec fn token_views(ts: Seq<Vec<char>>) -> Seq<Seq<char>> {
    ts.map_values(|t: Vec<char>| t@)
}

/// Where the text of `tok` starts once its leading `##` marks are skipped.
fn subword_start(tok: &Vec<char>) -> (k: usize)
    ensures
        k <= tok@.len(),
        strip_subword_marks(tok@) == tok@.subrange(k as int, tok@.len() as int),
{
    let len = tok.len();
    let mut k: usize = 0;
    assert(tok@.subrange(0, len as int) =~= tok@);
    while len - k >= 2 && tok[k] == '#' && tok[k + 1] == '#'
        invariant
            len == tok@.len(),
            k <= len,
            strip_subword_marks(tok@) == strip_subword_marks(tok@.subrange(k as int, len as int)),
        decreases len - k,
    {
        let ghost rest = tok@.subrange(k as int, len as int);
        assert(rest.subrange(2, rest.len() as int) =~= tok@.subrange(k + 2, len as int));
        k = k + 2;
    }
    k
}

/// The vocabulary: the text of each token, indexed by token id.
pub struct VocabDecoder {
    tokens: Vec<Vec<char>>,
}

impl View for VocabDecoder {
    type V = Seq<Seq<char>>;

    closed spec fn view(&self) -> Seq<Seq<char>> {
        token_views(self.tokens@)
    }
}

impl VocabDecoder {
    /// The vocabulary whose token `i` is line `i` of `content` (the text of
    /// `vocab.txt`).
    pub fn from_text(content: &str) -> (vocab: VocabDecoder)
        ensures
            vocab@ == text_lines(content@),
    {
        let mut chars: Vec<char> = Vec::new();
        for c in it: content.chars()
            invariant
                chars@ == it.seq().take(it.index() as int),
        {
            chars.push(c);
        }
        assert(chars@ == content@);
        let ghost s = chars@;
        let n = chars.len();
        let mut tokens: Vec<Vec<char>> = Vec::new();
        let mut line: Vec<char> = Vec::new();
        let mut start: usize = 0;
        for i in 0..n
            invariant
                s == chars@,
                n == s.len(),
                start <= i,
                line@ == s.subrange(start as int, i as int),
                forall|k: int| start <= k < i ==> s[k] != '\n',
                text_lines(s) == token_views(tokens@) + lines_from(s, start as int),
        {
            let c = chars[i];
            if c == '\n' {
                proof {
                    lemma_next_newline_skip(s, start as int, i as int);
                    assert(next_newline(s, start as int) == i);
                    assert(lines_from(s, start as int) == seq![line_text(line@, true)] + lines_from(s, i + 1));
                }
                let ll = line.len();
                if ll > 0 && line[ll - 1] == '\r' {
                    line.pop();
                }
                let ghost before = tokens@;
                tokens.push(line);
                assert(token_views(tokens@) =~= token_views(before).push(line_text(s.subrange(start as int, i as int), true)));
                line = Vec::new();
                start = i + 1;
                assert(line@ =~= s.subrange(start as int, i + 1));
            } else {
                line.push(c);
                assert(line@ =~= s.subrange(start as int, i + 1));
            }
        }
        if start < n {
            proof {
                lemma_next_newline_skip(s, start as int, n as int);
                assert(lines_from(s, start as int) == seq![line_text(line@, false)]);
            }
            let ghost before = tokens@;
            tokens.push(line);
            assert(token_views(tokens@) =~= token_views(before).push(s.subrange(start as int, n as int)));
        } else {
            assert(token_views(tokens@) + lines_from(s, start as int) =~= token_views(tokens@));
        }
        VocabDecoder { tokens }
    }

    /// The text of token `id` as it stands in the vocabulary (its line),
    /// `None` for an id outside it.
    pub fn token(&self, id: usize) -> (t: Option<String>)
        ensures
            t is Some <==> id < self@.len(),
            t matches Some(text) ==> text@ == self@[id as int],
    {
        if id < self.tokens.len() {
            Some(string_from_chars(&self.tokens[id]))
        } else {
            None
        }
    }

    /// Number of tokens in the vocabulary.
    pub fn len(&self) -> (n: usize)
        ensures
            n == self@.len(),
    {
        self.tokens.len()
    }

    /// The text of `ids`: each id names a token (see `token_text`); special
    /// tokens and unknown ids give nothing, and a token's leading `##`
    /// marks are dropped.
    pub fn decode(&self, ids: &[i64]) -> (text: String)
        ensures
            text@ == decode_text(self@, ids@),
    {
        let mut out: Vec<char> = Vec::new();
        let n = ids.len();
        let vlen = self.tokens.len();
        for i in 0..n
            invariant
                n == ids@.len(),
                vlen == self@.len(),
                out@ == decode_text(self@, ids@.take(i as int)),
        {
            let id = ids[i];
            let ghost before = out@;
            assert(ids@.take(i + 1).drop_last() =~= ids@.take(i as int));
            if FIRST_TEXT_TOKEN_ID <= id && (id as u64) < (vlen as u64) {
                let tok = &self.tokens[id as usize];
                assert(tok@ == self@[id as int]);
                let k = subword_start(tok);
                let tl = tok.len();
                for j in k..tl
                    invariant
                        tl == tok@.len(),
                        k <= tl,
                        out@ == before + tok@.subrange(k as int, j as int),
                {
                    out.push(tok[j]);
                    assert(tok@.subrange(k as int, j + 1) =~= tok@.subrange(k as int, j as int).push(tok@[j as int]));
                }
            } else {
                assert(out@ =~= before + token_text(self@, id));
            }
        }
        assert(ids@.take(n as int) =~= ids@);
        string_from_chars(&out)
    }
}

/// Decoding is token by token: the text of `a` followed by `b` is the text
/// of `a` followed by the text of `b`.
pub proof fn lemma_decode_concat(vocab: Seq<Seq<char>>, a: Seq<i64>, b: Seq<i64>)
    ensures
        decode_text(vocab, a + b) == decode_text(vocab, a) + decode_text(vocab, b),
    decreases b.len(),
{
    if b.len() == 0 {
        assert(a + b =~= a);
        assert(decode_text(vocab, a) + Seq::<char>::empty() =~= decode_text(vocab, a));
    } else {
        lemma_decode_concat(vocab, a, b.drop_last());
        assert((a + b).drop_last() =~= a + b.drop_last());
        assert((a + b).last() == b.last());
        assert(decode_text(vocab, a + b) =~= decode_text(vocab, a) + decode_text(vocab, b));
    }
}

/// Special tokens (ids 0 to 14: `[PAD]`, `[UNK]`, `[CLS]`, `[SEP]`,
/// `[MASK]`, `<unused0>`..`<unused9>`), negative ids and ids past the end of
/// the vocabulary print nothing.
pub proof fn lemma_unprintable_ids(vocab: Seq<Seq<char>>, id: i64)
    requires
        id < 15 || id >= vocab.len(),
    ensures
        decode_text(vocab, seq![id]) == Seq::<char>::empty(),
{
    let ids = seq![id];
    assert(ids.drop_last() =~= Seq::<i64>::empty());
    assert(decode_text(vocab, ids.drop_last()) == Seq::<char>::empty());
    assert(ids.last() == id);
    assert(decode_text(vocab, ids) =~= Seq::<char>::empty());
}

/// A text token whose line does not start with `#` prints as its line,
/// unchanged.
pub proof fn lemma_text_token_prints_its_line(vocab: Seq<Seq<char>>, id: i64)
    requires
        15 <= id < vocab.len(),
        vocab[id as int].len() == 0 || vocab[id as int][0] != '#',
    ensures
        decode_text(vocab, seq![id]) == vocab[id as int],
{
    let ids = seq![id];
    assert(ids.drop_last() =~= Seq::<i64>::empty());
    assert(decode_text(vocab, ids.drop_last()) == Seq::<char>::empty());
    assert(ids.last() == id);
    assert(decode_text(vocab, ids) =~= vocab[id as int]);
}

/// Stripping the word-piece marks removes a run of `#` of even length from
/// the front and nothing else, and leaves no `##` in front.
pub proof fn lemma_strip_subword_marks(t: Seq<char>)
    ensures
        ({
            let r = strip_subword_marks(t);
            let cut = t.len() - r.len();
            &&& 0 <= cut
            &&& cut % 2 == 0
            &&& r == t.subrange(cut, t.len() as int)
            &&& forall|i: int| 0 <= i < cut ==> t[i] == '#'
            &&& !(r.len() >= 2 && r[0] == '#' && r[1] == '#')
        }),
    decreases t.len(),
{
    if t.len() >= 2 && t[0] == '#' && t[1] == '#' {
        let u = t.subrange(2, t.len() as int);
        lemma_strip_subword_marks(u);
        let r = strip_subword_marks(u);
        assert(strip_subword_marks(t) == r);
        let cut_u = u.len() - r.len();
        assert(r =~= t.subrange(cut_u + 2, t.len() as int));
        assert forall|i: int| 0 <= i < cut_u + 2 implies t[i] == '#' by {
            if i >= 2 {
                assert(t[i] == u[i - 2]);
            }
        }
    } else {
        assert(t.subrange(0, t.len() as int) =~= t);
    }
}

/// A word-piece token `##` + `t` prints as `t` does: the continuation mark
/// is dropped (and every further leading `##`, so `####x` prints `x`).
pub proof fn lemma_subword_mark_dropped(vocab: Seq<Seq<char>>, id: i64, t: Seq<char>)
    requires
        15 <= id < vocab.len(),
        vocab[id as int] == seq!['#', '#'] + t,
    ensures
        decode_text(vocab, seq![id]) == strip_subword_marks(t),
{
    let ids = seq![id];
    assert(ids.drop_last() =~= Seq::<i64>::empty());
    assert(decode_text(vocab, ids.drop_last()) == Seq::<char>::empty());
    assert(ids.last() == id);
    let w = seq!['#', '#'] + t;
    assert(w.subrange(2, w.len() as int) =~= t);
    assert(decode_text(vocab, ids) =~= strip_subword_marks(t));
}

/// Token `id` is line `id` of the vocabulary file: decoding it alone gives
/// that line without its leading `##` marks, for every id from the first
/// text token up to the number of lines.
pub proof fn lemma_token_is_line(content: Seq<char>, id: i64)
    requires
        FIRST_TEXT_TOKEN_ID <= id < text_lines(content).len(),
    ensures
        decode_text(text_lines(content), seq![id]) == strip_subword_marks(text_lines(content)[id as int]),
{
    let ids = seq![id];
    assert(ids.drop_last() =~= Seq::<i64>::empty());
    assert(decode_text(text_lines(content), ids.drop_last()) == Seq::<char>::empty());
    assert(ids.last() == id);
    assert(decode_text(text_lines(content), ids) =~= Seq::<char>::empty() + token_text(text_lines(content), id));
}

/// The lines `ls`, each followed by the line ending `term`.
pub open spec fn with_terminator(ls: Seq<Seq<char>>, term: Seq<char>) -> Seq<char>
    decreases ls.len(),
{
    if ls.len() == 0 {
        Seq::empty()
    } else {
        ls[0] + term + with_terminator(ls.drop_first(), term)
    }
}

/// No line holds a line feed.
pub open spec fn free_of_line_feeds(ls: Seq<Seq<char>>) -> bool {
    forall|i: int, k: int| 0 <= i < ls.len() && 0 <= k < ls[i].len() ==> #[trigger] ls[i][k] != '\n'
}

/// No line ends with a carriage return.
pub open spec fn free_of_trailing_cr(ls: Seq<Seq<char>>) -> bool {
    forall|i: int| 0 <= i < ls.len() && (#[trigger] ls[i]).len() > 0 ==> ls[i].last() != '\r'
}

proof fn lemma_lines_from_terminated(p: Seq<char>, ls: Seq<Seq<char>>, term: Seq<char>)
    requires
        term == seq!['\n'] || term == seq!['\r', '\n'],
        free_of_line_feeds(ls),
        term == seq!['\n'] ==> free_of_trailing_cr(ls),
    ensures
        lines_from(p + with_terminator(ls, term), p.len() as int) == ls,
    decreases ls.len(),
{
    let s = p + with_terminator(ls, term);
    if ls.len() == 0 {
        assert(s =~= p);
        assert(ls =~= Seq::<Seq<char>>::empty());
    } else {
        let l0 = ls[0];
        let rest = ls.drop_first();
        let p2 = p + l0 + term;
        assert(s =~= p2 + with_terminator(rest, term));
        let a = p.len() as int;
        let e = a + l0.len() + term.len() - 1;
        assert forall|k: int| a <= k < e implies s[k] != '\n' by {
            if k < a + l0.len() {
                assert(s[k] == l0[k - a]);
                assert(ls[0][k - a] != '\n');
            } else {
                assert(s[k] == term[k - a - l0.len()]);
            }
        }
        assert(s[e] == '\n');
        lemma_next_newline_skip(s, a, e);
        assert(next_newline(s, a) == e);
        let raw = s.subrange(a, e);
        if term == seq!['\n'] {
            assert(raw =~= l0);
            assert(l0.len() > 0 ==> l0.last() != '\r');
        } else {
            assert(raw =~= l0.push('\r'));
            assert(raw.drop_last() =~= l0);
        }
        assert(line_text(raw, true) == l0);
        assert forall|i: int, k: int| 0 <= i < rest.len() && 0 <= k < rest[i].len() implies #[trigger] rest[i][k] != '\n' by {
            assert(rest[i] == ls[i + 1]);
        }
        if term == seq!['\n'] {
            assert forall|i: int| 0 <= i < rest.len() && (#[trigger] rest[i]).len() > 0 implies rest[i].last() != '\r' by {
                assert(rest[i] == ls[i + 1]);
            }
        }
        lemma_lines_from_terminated(p2, rest, term);
        assert(e + 1 == p2.len());
        assert(lines_from(s, a) == seq![l0] + lines_from(s, e + 1));
        assert(seq![l0] + rest =~= ls);
    }
}

/// Lines written each followed by `\r\n` are read back as they were, as
/// long as none holds a line feed.
pub proof fn lemma_crlf_lines_read_back(ls: Seq<Seq<char>>)
    requires
        free_of_line_feeds(ls),
    ensures
        text_lines(with_terminator(ls, seq!['\r', '\n'])) == ls,
{
    lemma_lines_from_terminated(Seq::empty(), ls, seq!['\r', '\n']);
    assert(Seq::<char>::empty() + with_terminator(ls, seq!['\r', '\n']) =~= with_terminator(ls, seq!['\r', '\n']));
}

/// Lines written each followed by `\n` are read back as they were, as long
/// as none holds a line feed or ends with a carriage return (which would be
/// read as part of a `\r\n` ending).
pub proof fn lemma_lf_lines_read_back(ls: Seq<Seq<char>>)
    requires
        free_of_line_feeds(ls),
        free_of_trailing_cr(ls),
    ensures
        text_lines(with_terminator(ls, seq!['\n'])) == ls,
{
    lemma_lines_from_terminated(Seq::empty(), ls, seq!['\n']);
    assert(Seq::<char>::empty() + with_terminator(ls, seq!['\n']) =~= with_terminator(ls, seq!['\n']));
}

/// The lines of `s` from `start` on do not change when a line feed is
/// added at the end, provided `s` does not end with a line ending already.
proof fn lemma_lines_from_final_newline(s: Seq<char>, start: int)
    requires
        0 <= start < s.len(),
        s.last() != '\n',
        s.last() != '\r',
    ensures
        lines_from(s.push('\n'), start) == lines_from(s, start),
    decreases s.len() - start,
{
    let t = s.push('\n');
    lemma_next_newline(s, start);
    lemma_next_newline(t, start);
    let e = next_newline(s, start);
    assert forall|k: int| start <= k < s.len() implies t[k] == s[k] by {}
    if e < s.len() {
        lemma_next_newline_skip(t, start, e);
        lemma_next_newline_skip(s, start, e);
        assert(next_newline(t, start) == e);
        assert(t.subrange(start, e) =~= s.subrange(start, e));
        assert(e + 1 < s.len());
        lemma_lines_from_final_newline(s, e + 1);
    } else {
        lemma_next_newline_skip(t, start, s.len() as int);
        assert(next_newline(t, start) == s.len());
        assert(t.subrange(start, s.len() as int) =~= s.subrange(start, s.len() as int));
        assert(lines_from(t, s.len() + 1 as int) =~= Seq::<Seq<char>>::empty());
        assert(lines_from(t, start) =~= lines_from(s, start));
    }
}

/// The final line ending is optional: a text that does not end with a
/// line ending has the same lines as that text followed by a line feed.
pub proof fn lemma_final_newline_optional(s: Seq<char>)
    requires
        s.len() > 0,
        s.last() != '\n',
        s.last() != '\r',
    ensures
        text_lines(s.push('\n')) == text_lines(s),
{
    lemma_lines_from_final_newline(s, 0);
}

} // verus!
