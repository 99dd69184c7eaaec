//! Tokenization and vocabulary construction.
//!
//! Text is normalized (ASCII lower case, a separating space inserted before
//! every `.`), split on single spaces with empty tokens skipped, and each
//! distinct token is assigned a dense identifier in first-occurrence order.

use vstd::prelude::*;

verus! {

/// A dense, non-negative identifier for a distinct token, assigned in
/// first-occurrence order starting at 0.
#[derive(Debug, Clone, Copy, PartialEq, Eq, Structural, Hash, PartialOrd, Ord)]
pub struct WordId(pub usize);

/// The character sequences of a list of words.
pub open spec fn word_views(v: Seq<String>) -> Seq<Seq<char>> {
    v.map_values(|s: String| s@)
}

/// The forward mapping: the word stored at index `i` has identifier `i`.
/// Looking a word up yields the first index holding it.
#[derive(Debug, Clone)]
pub struct WordToId(pub Vec<String>);

impl View for WordToId {
    type V = Seq<Seq<char>>;

    open spec fn view(&self) -> Seq<Seq<char>> {
        word_views(self.0@)
    }
}

impl WordToId {
    /// The identifier of `word`, or `None` when `word` is not in the
    /// vocabulary.
    pub fn get(&self, word: &str) -> (r: Option<WordId>)
        ensures
            match r {
                Some(id) => self@.contains(word@) && id.0 == word_id_of(self@, word@)
                    && id.0 < self@.len() && self@[id.0 as int] == word@,
                None => !self@.contains(word@),
            },
    {
        let owned = word.to_owned();
        let r = find_word(&self.0, &owned);
        match r {
            Some(k) => {
                proof {
                    lemma_index_of_first_is(self@, word@, k as int);
                }
                Some(WordId(k))
            },
            None => {
                proof {
                    lemma_index_of_first_none(self@, word@);
                    if self@.contains(word@) {
                        let j = choose|j: int| 0 <= j < self@.len() && self@[j] == word@;
                        assert(self@[j] == word@);
                    }
                }
                None
            },
        }
    }
}

/// The inverse mapping: identifier to word.
#[derive(Debug, Clone)]
pub struct IdToWord(pub Vec<String>);

impl View for IdToWord {
    type V = Seq<Seq<char>>;

    open spec fn view(&self) -> Seq<Seq<char>> {
        word_views(self.0@)
    }
}

impl IdToWord {
    /// The word carrying identifier `id`, or `None` when `id` is out of
    /// range.
    pub fn get(&self, id: WordId) -> (r: Option<&String>)
        ensures
            match r {
                Some(w) => id.0 < self@.len() && w@ == self@[id.0 as int],
                None => id.0 >= self@.len(),
            },
    {
        if id.0 < self.0.len() {
            Some(&self.0[id.0])
        } else {
            None
        }
    }
}

/// The first index of `w` in `vocab`, or `None` when absent.
fn find_word(vocab: &Vec<String>, w: &String) -> (r: Option<usize>)
    ensures
        match r {
            Some(k) => k < vocab@.len() && word_views(vocab@)[k as int] == w@
                && forall|j: int| 0 <= j < k ==> word_views(vocab@)[j] != w@,
            None => forall|j: int|
                0 <= j < vocab@.len() ==> word_views(vocab@)[j] != w@,
        },
{
    let n = vocab.len();
    let mut k: usize = 0;
    while k < n
        invariant
            k <= n,
            n == vocab@.len(),
            forall|j: int| 0 <= j < k ==> word_views(vocab@)[j] != w@,
        decreases n - k,
    {
        if vocab[k] == *w {
            return Some(k);
        }
        k = k + 1;
    }
    None
}

/// The ordered sequence of token identifiers, one per token of the input text.
#[derive(Debug, Clone)]
pub struct Corpus(pub Vec<WordId>);

impl View for Corpus {
    type V = Seq<int>;

    open spec fn view(&self) -> Seq<int> {
        self.0@.map_values(|w: WordId| w.0 as int)
    }
}

impl Default for Corpus {
    /// An empty corpus.
    fn default() -> (r: Self)
        ensures
            r@ == Seq::<int>::empty(),
    {
        let r = Corpus(Vec::new());
        proof {
            assert(r@ =~= Seq::<int>::empty());
        }
        r
    }
}

impl Default for WordToId {
    /// An empty vocabulary.
    fn default() -> (r: Self)
        ensures
            r@ == Seq::<Seq<char>>::empty(),
    {
        let r = WordToId(Vec::new());
        proof {
            assert(r@ =~= Seq::<Seq<char>>::empty());
        }
        r
    }
}

impl Default for IdToWord {
    /// An empty vocabulary.
    fn default() -> (r: Self)
        ensures
            r@ == Seq::<Seq<char>>::empty(),
    {
        let r = IdToWord(Vec::new());
        proof {
            assert(r@ =~= Seq::<Seq<char>>::empty());
        }
        r
    }
}

/// ASCII lower-casing of a single character.
pub open spec fn lower_char_s(c: char) -> char {
    if 'A' <= c && c <= 'Z' {
        ((c as u32) + 32) as char
    } else {
        c
    }
}

/// What a single input character contributes to the normalized text:
/// a `.` becomes a space followed by `.`, anything else is lower-cased.
pub open spec fn norm_one(c: char) -> Seq<char> {
    if c == '.' {
        seq![' ', '.']
    } else {
        seq![lower_char_s(c)]
    }
}

/// The normalized form of a whole text.
pub open spec fn norm_seq(t: Seq<char>) -> Seq<char>
    decreases t.len(),
{
    if t.len() == 0 {
        Seq::empty()
    } else {
        norm_seq(t.drop_last()) + norm_one(t.last())
    }
}

fn lower_char(c: char) -> (r: char)
    ensures
        r == lower_char_s(c),
{
    if 'A' <= c && c <= 'Z' {
        let u: u32 = (c as u32) + 32;
        let b: u8 = u as u8;
        b as char
    } else {
        c
    }
}

/// Builds the normalized character sequence of `text`.
fn normalize(text: &str) -> (r: Vec<char>)
    ensures
        r@ == norm_seq(text@),
{
    let n = text.unicode_len();
    let mut out: Vec<char> = Vec::new();
    let mut i: usize = 0;
    while i < n
        invariant
            i <= n,
            n == text@.len(),
            out@ == norm_seq(text@.take(i as int)),
        decreases n - i,
    {
        let c = text.get_char(i);
        if c == '.' {
            out.push(' ');
            out.push('.');
        } else {
            out.push(lower_char(c));
        }
        proof {
            let pre = text@.take(i as int);
            let cur = text@.take(i + 1int);
            assert(cur.drop_last() =~= pre);
            assert(cur.last() == text@[i as int]);
            assert(out@ =~= norm_seq(pre) + norm_one(text@[i as int]));
        }
        i = i + 1;
    }
    proof {
        assert(text@.take(n as int) =~= text@);
    }
    out
}

/// The token still being accumulated after scanning `s`: the suffix of `s`
/// past its last space.
pub open spec fn cur_tok(s: Seq<char>) -> Seq<char>
    decreases s.len(),
{
    if s.len() == 0 || s.last() == ' ' {
        Seq::empty()
    } else {
        cur_tok(s.drop_last()).push(s.last())
    }
}

/// The tokens completed by a space while scanning `s`.
pub open spec fn done_toks(s: Seq<char>) -> Seq<Seq<char>>
    decreases s.len(), 0int,
{
    if s.len() == 0 {
        Seq::empty()
    } else if s.last() == ' ' {
        tokens_of(s.drop_last())
    } else {
        done_toks(s.drop_last())
    }
}

/// The non-empty tokens of `s`, split on single spaces, in order.
pub open spec fn tokens_of(s: Seq<char>) -> Seq<Seq<char>>
    decreases s.len(), 1int,
{
    if cur_tok(s).len() == 0 {
        done_toks(s)
    } else {
        done_toks(s).push(cur_tok(s))
    }
}

/// Relies on String::push: appends the given character to the end of the string.
#[verifier::external_body]
fn push_char(s: &mut String, c: char)
    ensures
        final(s)@ == old(s)@.push(c),
{
    s.push(c);
}

/// Splits the normalized characters into tokens, skipping empties.
fn tokenize(norm: &Vec<char>) -> (r: Vec<String>)
    ensures
        r@.map_values(|t: String| t@) == tokens_of(norm@),
{
    let n = norm.len();
    let mut toks: Vec<String> = Vec::new();
    let mut cur: String = String::new();
    let mut j: usize = 0;
    while j < n
        invariant
            j <= n,
            n == norm@.len(),
            toks@.map_values(|t: String| t@) == done_toks(norm@.take(j as int)),
            cur@ == cur_tok(norm@.take(j as int)),
        decreases n - j,
    {
        let ghost pre = norm@.take(j as int);
        let ghost cur_seq = norm@.take(j + 1int);
        proof {
            assert(cur_seq.drop_last() =~= pre);
            assert(cur_seq.last() == norm@[j as int]);
        }
        let c = norm[j];
        if c == ' ' {
            if !cur.as_str().is_empty() {
                toks.push(cur);
                cur = String::new();
                proof {
                    assert(toks@.map_values(|t: String| t@) =~= tokens_of(pre));
                }
            }
        } else {
            push_char(&mut cur, c);
        }
        j = j + 1;
    }
    proof {
        assert(norm@.take(n as int) =~= norm@);
    }
    if !cur.as_str().is_empty() {
        toks.push(cur);
        proof {
            assert(toks@.map_values(|t: String| t@) =~= tokens_of(norm@));
        }
    }
    toks
}

/// The distinct tokens of `toks` in first-occurrence order.
pub open spec fn vocab_of(toks: Seq<Seq<char>>) -> Seq<Seq<char>>
    decreases toks.len(),
{
    if toks.len() == 0 {
        Seq::empty()
    } else {
        let pre = vocab_of(toks.drop_last());
        if pre.contains(toks.last()) {
            pre
        } else {
            pre.push(toks.last())
        }
    }
}

/// The identifier of `w` in the vocabulary `v`: the first index holding `w`,
/// or `v.len()` when `w` is absent.
pub open spec fn word_id_of(v: Seq<Seq<char>>, w: Seq<char>) -> int {
    match v.index_of_first(w) {
        Some(i) => i,
        None => v.len() as int,
    }
}

/// The vocabulary of a text: distinct normalized tokens in first-occurrence
/// order, identified by their position.
pub open spec fn vocab_spec(t: Seq<char>) -> Seq<Seq<char>> {
    vocab_of(tokens_of(norm_seq(t)))
}

/// The corpus of a text: each token replaced by its identifier.
pub open spec fn corpus_spec(t: Seq<char>) -> Seq<int> {
    Seq::new(
        tokens_of(norm_seq(t)).len(),
        |p: int| word_id_of(vocab_spec(t), tokens_of(norm_seq(t))[p]),
    )
}

/// A vocabulary never records the same token twice.
pub proof fn lemma_vocab_distinct(toks: Seq<Seq<char>>)
    ensures
        vocab_of(toks).no_duplicates(),
    decreases toks.len(),
{
    if toks.len() > 0 {
        lemma_vocab_distinct(toks.drop_last());
    }
}

/// A vocabulary holds exactly the tokens it was built from.
pub proof fn lemma_vocab_contains(toks: Seq<Seq<char>>, w: Seq<char>)
    ensures
        vocab_of(toks).contains(w) <==> toks.contains(w),
    decreases toks.len(),
{
    if toks.len() > 0 {
        let pre = toks.drop_last();
        let l = toks.last();
        lemma_vocab_contains(pre, w);
        assert(toks.contains(w) <==> (pre.contains(w) || w == l)) by {
            if pre.contains(w) {
                let k = choose|k: int| 0 <= k < pre.len() && pre[k] == w;
                assert(toks[k] == w);
            }
            if w == l {
                assert(toks[toks.len() - 1] == w);
            }
            if toks.contains(w) && w != l {
                let k = choose|k: int| 0 <= k < toks.len() && toks[k] == w;
                assert(pre[k] == w);
            }
        }
        let vp = vocab_of(pre);
        if !vp.contains(l) {
            assert(vocab_of(toks).contains(w) <==> (vp.contains(w) || w == l)) by {
                assert(vp.push(l)[vp.len() as int] == l);
                if vp.contains(w) {
                    let k = choose|k: int| 0 <= k < vp.len() && vp[k] == w;
                    assert(vp.push(l)[k] == w);
                }
                if vp.push(l).contains(w) {
                    let k = choose|k: int| 0 <= k < vp.push(l).len() && vp.push(l)[k] == w;
                    assert(k < vp.len() ==> vp[k] == w);
                }
            }
        }
    }
}

/// The first index of `w` in `v` is `k` exactly when `v[k] == w` and no
/// earlier slot holds `w`.
proof fn lemma_index_of_first_is(v: Seq<Seq<char>>, w: Seq<char>, k: int)
    requires
        0 <= k < v.len(),
        v[k] == w,
        forall|j: int| 0 <= j < k ==> v[j] != w,
    ensures
        v.index_of_first(w) == Some(k),
        word_id_of(v, w) == k,
{
    v.index_of_first_ensures(w);
    assert(v.contains(w));
    match v.index_of_first(w) {
        Some(i) => {
            if i < k {
                assert(v[i] != w);
            }
            if i > k {
                assert(v[k] != w);
            }
        },
        None => {},
    }
}

/// A token absent from every slot has no first index.
proof fn lemma_index_of_first_none(v: Seq<Seq<char>>, w: Seq<char>)
    requires
        forall|j: int| 0 <= j < v.len() ==> v[j] != w,
    ensures
        v.index_of_first(w) is None,
        word_id_of(v, w) == v.len(),
{
    v.index_of_first_ensures(w);
    match v.index_of_first(w) {
        Some(i) => {
            assert(v[i] == w);
        },
        None => {},
    }
}

/// Tokenizes `text` and assigns each distinct token a dense identifier in
/// first-occurrence order.  Returns the corpus (one identifier per token)
/// and the two directions of the vocabulary mapping.
///
/// Both mappings list the same words in the same order: the word with
/// identifier `i` sits at index `i`, which makes the pair a bijection
/// between the vocabulary and `0 .. vocab_size`.
pub fn prerocess(text: &str) -> (r: (Corpus, WordToId, IdToWord))
    ensures
        r.0@ == corpus_spec(text@),
        r.1@ == vocab_spec(text@),
        r.2@ == vocab_spec(text@),
        r.1@.no_duplicates(),
        forall|p: int| 0 <= p < r.0@.len() ==> 0 <= #[trigger] r.0@[p] < r.1@.len(),
{
    let norm = normalize(text);
    let toks = tokenize(&norm);
    let ghost tseq = toks@.map_values(|t: String| t@);
    let mut vocab: Vec<String> = Vec::new();
    let mut corpus: Vec<WordId> = Vec::new();
    let n = toks.len();
    let mut p: usize = 0;
    while p < n
        invariant
            p <= n,
            n == toks@.len(),
            tseq == toks@.map_values(|t: String| t@),
            word_views(vocab@) == vocab_of(tseq.take(p as int)),
            corpus@.len() == p,
            forall|q: int|
                0 <= q < p ==> (#[trigger] corpus@[q]).0 as int == word_id_of(
                    vocab_of(tseq.take(p as int)),
                    tseq[q],
                ),
            forall|q: int| 0 <= q < p ==> (#[trigger] corpus@[q]).0 < vocab@.len(),
        decreases n - p,
    {
        let ghost prev = tseq.take(p as int);
        let ghost next = tseq.take(p + 1int);
        let ghost pv = vocab_of(prev);
        proof {
            assert(next.drop_last() =~= prev);
            assert(next.last() == tseq[p as int]);
        }
        let r = find_word(&vocab, &toks[p]);
        match r {
            Some(k) => {
                proof {
                    assert(pv[k as int] == tseq[p as int]);
                    assert(pv.contains(tseq[p as int]));
                    assert(vocab_of(next) == pv);
                    lemma_index_of_first_is(pv, tseq[p as int], k as int);
                }
                corpus.push(WordId(k));
            },
            None => {
                let k = vocab.len();
                vocab.push(toks[p].clone());
                corpus.push(WordId(k));
                proof {
                    assert(forall|j: int| 0 <= j < pv.len() ==> pv[j] != tseq[p as int]);
                    if pv.contains(tseq[p as int]) {
                        let j = choose|j: int|
                            0 <= j < pv.len() && pv[j] == tseq[p as int];
                        assert(pv[j] == tseq[p as int]);
                    }
                    assert(vocab_of(next) =~= pv.push(tseq[p as int]));
                    assert(word_views(vocab@) =~= vocab_of(next));
                    lemma_index_of_first_is(vocab_of(next), tseq[p as int], k as int);
                    assert(pv.is_prefix_of(vocab_of(next))) by {
                        assert(pv =~= vocab_of(next).take(pv.len() as int));
                    }
                    assert forall|q: int| 0 <= q < p implies word_id_of(pv, tseq[q])
                        == word_id_of(vocab_of(next), tseq[q]) by {
                        assert(prev[q] == tseq[q]);
                        assert(prev.contains(tseq[q]));
                        lemma_vocab_contains(prev, tseq[q]);
                        lemma_word_id_stable(pv, vocab_of(next), tseq[q]);
                    }
                }
            },
        }
        p = p + 1;
    }
    proof {
        assert(tseq.take(n as int) =~= tseq);
        assert(tseq == tokens_of(norm_seq(text@)));
        lemma_vocab_distinct(tseq);
    }
    let word_to_id = WordToId(vocab.clone());
    let id_to_word = IdToWord(vocab);
    let out = Corpus(corpus);
    proof {
        assert(word_views(word_to_id.0@) =~= word_views(id_to_word.0@)) by {
            assert(forall|i: int|
                0 <= i < word_to_id.0@.len() ==> cloned(
                    id_to_word.0@[i],
                    #[trigger] word_to_id.0@[i],
                ));
            assert(forall|i: int|
                0 <= i < word_to_id.0@.len() ==> #[trigger] word_to_id.0@[i]@
                    == id_to_word.0@[i]@);
        }
        assert(out@ =~= corpus_spec(text@));
    }
    (out, word_to_id, id_to_word)
}

/// Growing a vocabulary by appending never changes the identifier of a token
/// already recorded.
pub proof fn lemma_word_id_stable(v1: Seq<Seq<char>>, v2: Seq<Seq<char>>, w: Seq<char>)
    requires
        v1.is_prefix_of(v2),
        v1.contains(w),
    ensures
        v1.index_of_first(w) == v2.index_of_first(w),
        word_id_of(v1, w) == word_id_of(v2, w),
        0 <= word_id_of(v1, w) < v1.len(),
        v1[word_id_of(v1, w)] == w,
{
    v1.index_of_first_ensures(w);
    let k = v1.index_of_first(w).unwrap();
    assert(forall|j: int| 0 <= j < v1.len() ==> v2[j] == v1[j]);
    lemma_index_of_first_is(v2, w, k);
}

/// Determinism: the corpus and the vocabulary are functions of the text
/// alone, so two runs of `prerocess` on the same text return identical
/// corpora and identical mappings.
pub proof fn lemma_prerocess_deterministic(t1: Seq<char>, t2: Seq<char>)
    requires
        t1 == t2,
    ensures
        corpus_spec(t1) == corpus_spec(t2),
        vocab_spec(t1) == vocab_spec(t2),
{
}

/// Bijection: every token that appears in the text has an identifier, that
/// identifier leads back to the very same token, and the identifiers are
/// exactly the positions `0 .. vocab_size`: each position maps to a word
/// whose identifier is that position again.
pub proof fn lemma_vocab_bijection(t: Seq<char>, w: Seq<char>)
    requires
        tokens_of(norm_seq(t)).contains(w),
    ensures
        0 <= word_id_of(vocab_spec(t), w) < vocab_spec(t).len(),
        vocab_spec(t)[word_id_of(vocab_spec(t), w)] == w,
        vocab_spec(t).no_duplicates(),
        forall|i: int|
            0 <= i < vocab_spec(t).len() ==> word_id_of(
                vocab_spec(t),
                #[trigger] vocab_spec(t)[i],
            ) == i,
{
    let v = vocab_spec(t);
    lemma_vocab_contains(tokens_of(norm_seq(t)), w);
    lemma_vocab_distinct(tokens_of(norm_seq(t)));
    v.index_of_first_ensures(w);
    assert forall|i: int| 0 <= i < v.len() implies word_id_of(v, v[i]) == i by {
        lemma_index_of_first_is(v, v[i], i);
    }
}

} // verus!
