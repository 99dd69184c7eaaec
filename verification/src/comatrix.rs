//! Co-occurrence counting.

use crate::vocab::Corpus;
use vstd::prelude::*;

verus! {

/// A square matrix of co-occurrence counts, indexed by word identifiers.
#[derive(Debug, Clone)]
pub struct CoMatrix(pub Vec<Vec<usize>>);

impl View for CoMatrix {
    type V = Seq<Seq<int>>;

    open spec fn view(&self) -> Seq<Seq<int>> {
        self.0@.map_values(|row: Vec<usize>| row@.map_values(|x: usize| x as int))
    }
}

impl Default for CoMatrix {
    /// An empty matrix.
    fn default() -> (r: Self)
        ensures
            r@ == Seq::<Seq<int>>::empty(),
    {
        let r = CoMatrix(Vec::new());
        proof {
            assert(r@ =~= Seq::<Seq<int>>::empty());
        }
        r
    }
}

/// The conditions under which a matrix cannot be built or reweighted.
#[derive(Debug, Clone, Copy, PartialEq, Eq, Structural)]
pub enum MatrixError {
    /// A co-occurrence matrix was requested for an empty corpus.
    EmptyCorpus,
    /// Totals were requested for a matrix with no rows.
    EmptyMatrix,
    /// Some word has zero total co-occurrence mass, so its PPMI column
    /// would divide by zero.
    ZeroMarginal,
    /// The total co-occurrence mass does not fit in a machine word.
    TotalOverflow,
}

/// The number of positions `q` below `n` at which word `i` stands with word
/// `j` exactly `o` places to its right (both positions inside the corpus).
pub open spec fn acount(s: Seq<int>, o: int, i: int, j: int, n: int) -> int
    decreases n,
{
    if n <= 0 {
        0
    } else {
        acount(s, o, i, j, n - 1) + if n - 1 + o < s.len() && s[n - 1] == i && s[n - 1 + o]
            == j {
            1int
        } else {
            0int
        }
    }
}

/// The co-occurrences of `i` with `j` over all offsets `1 ..= o`: for each
/// offset, the ordered pairs with `i` on the left plus those with `i` on the
/// right.
pub open spec fn ocount(s: Seq<int>, i: int, j: int, o: int) -> int
    decreases o,
{
    if o <= 0 {
        0
    } else {
        ocount(s, i, j, o - 1) + acount(s, o, i, j, s.len() as int) + acount(
            s,
            o,
            j,
            i,
            s.len() as int,
        )
    }
}

/// How often word `j` appears within `w` positions of an occurrence of word
/// `i` over the whole corpus, every occurrence counted separately.
pub open spec fn co_val(s: Seq<int>, w: int, i: int, j: int) -> int {
    ocount(s, i, j, w)
}

/// One more than the largest identifier in the corpus, 0 when it is empty.
pub open spec fn vocab_size_of(s: Seq<int>) -> int
    decreases s.len(),
{
    if s.len() == 0 {
        0
    } else {
        let pre = vocab_size_of(s.drop_last());
        if s.last() + 1 > pre {
            s.last() + 1
        } else {
            pre
        }
    }
}

proof fn lemma_acount_nonneg_mono(s: Seq<int>, o: int, i: int, j: int, n1: int, n2: int)
    requires
        n1 <= n2,
    ensures
        0 <= acount(s, o, i, j, n1) <= acount(s, o, i, j, n2),
    decreases n2,
{
    if n2 > 0 && n1 < n2 {
        lemma_acount_nonneg_mono(s, o, i, j, n1, n2 - 1);
    } else if n2 > 0 {
        lemma_acount_nonneg_mono(s, o, i, j, 0, n2 - 1);
    }
}

proof fn lemma_acount_le(s: Seq<int>, o: int, i: int, j: int, n: int)
    ensures
        acount(s, o, i, j, n) <= if n >= 0 { n } else { 0 },
    decreases n,
{
    if n > 0 {
        lemma_acount_le(s, o, i, j, n - 1);
    }
}

proof fn lemma_acount_zero(s: Seq<int>, o: int, i: int, j: int, n: int)
    requires
        o >= s.len(),
    ensures
        acount(s, o, i, j, n) == 0,
    decreases n,
{
    if n > 0 {
        lemma_acount_zero(s, o, i, j, n - 1);
    }
}

proof fn lemma_ocount_nonneg_mono(s: Seq<int>, i: int, j: int, o1: int, o2: int)
    requires
        o1 <= o2,
    ensures
        0 <= ocount(s, i, j, o1) <= ocount(s, i, j, o2),
    decreases o2,
{
    if o2 > 0 {
        lemma_acount_nonneg_mono(s, o2, i, j, 0, s.len() as int);
        lemma_acount_nonneg_mono(s, o2, j, i, 0, s.len() as int);
        if o1 < o2 {
            lemma_ocount_nonneg_mono(s, i, j, o1, o2 - 1);
        } else {
            lemma_ocount_nonneg_mono(s, i, j, 0, o2 - 1);
        }
    }
}

/// Every count is at most twice `min(o, len) * len`.
proof fn lemma_ocount_bound(s: Seq<int>, i: int, j: int, o: int)
    requires
        0 <= o,
    ensures
        ocount(s, i, j, o) <= 2 * (if o <= s.len() { o } else { s.len() as int }) * (
        s.len() as int),
    decreases o,
{
    let len = s.len() as int;
    if o <= 0 {
    } else {
        lemma_ocount_bound(s, i, j, o - 1);
        lemma_acount_le(s, o, i, j, len);
        lemma_acount_le(s, o, j, i, len);
        if o <= len {
            assert(2 * (o - 1) * len + 2 * len == 2 * o * len) by (nonlinear_arith);
        } else {
            lemma_acount_zero(s, o, i, j, len);
            lemma_acount_zero(s, o, j, i, len);
            if o - 1 <= len {
                assert(2 * (o - 1) * len <= 2 * len * len) by (nonlinear_arith)
                    requires
                        o - 1 <= len,
                        len >= 0,
                ;
            }
        }
    }
}

/// Offsets past the corpus length contribute nothing.
proof fn lemma_ocount_stable(s: Seq<int>, i: int, j: int, o: int)
    requires
        o >= s.len(),
    ensures
        ocount(s, i, j, o) == ocount(s, i, j, s.len() as int),
    decreases o,
{
    if o > s.len() {
        lemma_acount_zero(s, o, i, j, s.len() as int);
        lemma_acount_zero(s, o, j, i, s.len() as int);
        lemma_ocount_stable(s, i, j, o - 1);
    }
}

/// A bound that keeps every count inside a machine word:
/// `2 * min(w, len) * len`, the largest any cell can reach.
pub open spec fn count_cap(len: int, w: int) -> int {
    2 * (if w <= len {
        w
    } else {
        len
    }) * len
}

/// The identifiers of a corpus all lie below its vocabulary size.
pub proof fn lemma_vocab_size_bounds(s: Seq<int>)
    requires
        forall|q: int| 0 <= q < s.len() ==> #[trigger] s[q] >= 0,
    ensures
        vocab_size_of(s) >= 0,
        forall|q: int| 0 <= q < s.len() ==> #[trigger] s[q] < vocab_size_of(s),
    decreases s.len(),
{
    if s.len() > 0 {
        let pre = s.drop_last();
        assert(forall|q: int| 0 <= q < pre.len() ==> #[trigger] pre[q] == s[q]);
        lemma_vocab_size_bounds(pre);
        assert(s[s.len() - 1] == s.last());
        assert forall|q: int| 0 <= q < s.len() implies #[trigger] s[q] < vocab_size_of(s) by {
            if q < s.len() - 1 {
                assert(pre[q] == s[q]);
                assert(pre[q] < vocab_size_of(pre));
            }
        }
    }
}

/// A corpus whose identifiers all lie below a bound has a vocabulary size
/// within that bound — in particular, a corpus from `prerocess` has a
/// vocabulary size within its vocabulary's length.
pub proof fn lemma_vocab_size_le(s: Seq<int>, bound: int)
    requires
        0 <= bound,
        forall|q: int| 0 <= q < s.len() ==> #[trigger] s[q] < bound,
    ensures
        vocab_size_of(s) <= bound,
    decreases s.len(),
{
    if s.len() > 0 {
        let pre = s.drop_last();
        assert(forall|q: int| 0 <= q < pre.len() ==> #[trigger] pre[q] == s[q]);
        lemma_vocab_size_le(pre, bound);
        assert(s[s.len() - 1] == s.last());
    }
}

/// A cell part way through a pass never exceeds the cap.
proof fn lemma_partial_le_cap(s: Seq<int>, i: int, j: int, o: int, q: int, w: int)
    requires
        1 <= o,
        o <= (if w <= s.len() {
            w
        } else {
            s.len() as int
        }),
        0 <= q,
        q + 1 <= s.len(),
        0 <= w,
    ensures
        ocount(s, i, j, o - 1) + acount(s, o, i, j, q + 1) + acount(s, o, j, i, q + 1)
            <= count_cap(s.len() as int, w),
{
    let len = s.len() as int;
    let weff = if w <= len {
        w
    } else {
        len
    };
    lemma_acount_nonneg_mono(s, o, i, j, q + 1, len);
    lemma_acount_nonneg_mono(s, o, j, i, q + 1, len);
    lemma_ocount_nonneg_mono(s, i, j, o, weff);
    lemma_ocount_bound(s, i, j, weff);
}

/// Builds the co-occurrence matrix of a corpus: a `vocab_size × vocab_size`
/// matrix whose cell `(i, j)` counts how often word `j` appears within
/// `window_size` positions of an occurrence of word `i`.  Positions that
/// would fall outside the corpus are skipped; a repeated word co-occurring
/// with itself is counted like any other pair.  An empty corpus is refused
/// with an explicit error.
pub fn create_co_matrix(corpus: &Corpus, window_size: usize) -> (r: Result<
    CoMatrix,
    MatrixError,
>)
    requires
        vocab_size_of(corpus@) <= usize::MAX,
        count_cap(corpus@.len() as int, window_size as int) <= usize::MAX,
    ensures
        match r {
            Ok(m) => corpus@.len() > 0 && m@.len() == vocab_size_of(corpus@) && (forall|i: int|
                0 <= i < m@.len() ==> (#[trigger] m@[i]).len() == m@.len()) && (forall|
                i: int,
                j: int,
            |
                0 <= i < m@.len() && 0 <= j < m@.len() ==> #[trigger] m@[i][j] == co_val(
                    corpus@,
                    window_size as int,
                    i,
                    j,
                )),
            Err(e) => e == MatrixError::EmptyCorpus && corpus@.len() == 0,
        },
{
    let ghost s = corpus@;
    let len = corpus.0.len();
    if len == 0 {
        assert(corpus@.len() == 0);
        return Err(MatrixError::EmptyCorpus);
    }
    proof {
        assert(forall|q: int| 0 <= q < s.len() ==> #[trigger] s[q] >= 0);
        lemma_vocab_size_bounds(s);
    }
    let mut vs: usize = 0;
    let mut q: usize = 0;
    while q < len
        invariant
            q <= len,
            len == s.len(),
            s == corpus@,
            vs as int == vocab_size_of(s.take(q as int)),
            vocab_size_of(s) <= usize::MAX,
            forall|p: int| 0 <= p < s.len() ==> #[trigger] s[p] >= 0,
            forall|p: int| 0 <= p < s.len() ==> #[trigger] s[p] < vocab_size_of(s),
        decreases len - q,
    {
        let ghost prevs = s.take(q as int);
        let ghost nexts = s.take(q + 1int);
        proof {
            assert(nexts.drop_last() =~= prevs);
            assert(nexts.last() == s[q as int]);
        }
        let id = corpus.0[q].0;
        if id >= vs {
            vs = id + 1;
        }
        q = q + 1;
    }
    proof {
        assert(s.take(len as int) =~= s);
        assert(vs as int == vocab_size_of(s));
        assert(vs >= 1) by {
            assert(s[0] < vocab_size_of(s));
        }
    }
    let mut m: Vec<Vec<usize>> = Vec::new();
    let mut a: usize = 0;
    while a < vs
        invariant
            a <= vs,
            m@.len() == a,
            forall|i: int| 0 <= i < a ==> (#[trigger] m@[i])@.len() == vs,
            forall|i: int, j: int|
                0 <= i < a && 0 <= j < vs ==> #[trigger] m@[i]@[j] == 0,
        decreases vs - a,
    {
        let mut row: Vec<usize> = Vec::new();
        let mut b: usize = 0;
        while b < vs
            invariant
                b <= vs,
                row@.len() == b,
                forall|j: int| 0 <= j < b ==> #[trigger] row@[j] == 0,
            decreases vs - b,
        {
            row.push(0);
            b = b + 1;
        }
        m.push(row);
        a = a + 1;
    }
    let w_eff: usize = if window_size <= len {
        window_size
    } else {
        len
    };
    proof {
        let li = len as int;
        let wi = window_size as int;
        if window_size <= len {
            assert(count_cap(li, wi) == 2 * wi * li);
            assert(2 * wi <= 2 * wi * li) by (nonlinear_arith)
                requires
                    li >= 1,
                    wi >= 0,
            ;
        } else {
            assert(count_cap(li, wi) == 2 * li * li);
            assert(2 * li <= 2 * li * li) by (nonlinear_arith)
                requires
                    li >= 1,
            ;
        }
        assert(w_eff < usize::MAX);
    }
    let mut o: usize = 1;
    while o <= w_eff
        invariant
            1 <= o <= w_eff + 1,
            w_eff as int == (if window_size <= len {
                window_size as int
            } else {
                len as int
            }),
            w_eff < usize::MAX,
            len == s.len(),
            len >= 1,
            s == corpus@,
            vs as int == vocab_size_of(s),
            count_cap(len as int, window_size as int) <= usize::MAX,
            forall|p: int| 0 <= p < s.len() ==> #[trigger] s[p] < vocab_size_of(s),
            forall|p: int| 0 <= p < s.len() ==> #[trigger] s[p] >= 0,
            m@.len() == vs,
            forall|i: int| 0 <= i < vs ==> (#[trigger] m@[i])@.len() == vs,
            forall|i: int, j: int|
                0 <= i < vs && 0 <= j < vs ==> #[trigger] m@[i]@[j] as int == ocount(
                    s,
                    i,
                    j,
                    o - 1,
                ),
        decreases w_eff + 1 - o,
    {
        let mut q2: usize = 0;
        while q2 < len
            invariant
                q2 <= len,
                1 <= o <= w_eff,
                w_eff as int == (if window_size <= len {
                    window_size as int
                } else {
                    len as int
                }),
                len == s.len(),
                len >= 1,
                s == corpus@,
                vs as int == vocab_size_of(s),
                count_cap(len as int, window_size as int) <= usize::MAX,
                forall|p: int| 0 <= p < s.len() ==> #[trigger] s[p] < vocab_size_of(s),
                forall|p: int| 0 <= p < s.len() ==> #[trigger] s[p] >= 0,
                m@.len() == vs,
                forall|i: int| 0 <= i < vs ==> (#[trigger] m@[i])@.len() == vs,
                forall|i: int, j: int|
                    0 <= i < vs && 0 <= j < vs ==> #[trigger] m@[i]@[j] as int == ocount(
                        s,
                        i,
                        j,
                        o - 1,
                    ) + acount(s, o as int, i, j, q2 as int) + acount(
                        s,
                        o as int,
                        j,
                        i,
                        q2 as int,
                    ),
            decreases len - q2,
        {
            if o < len - q2 {
                let wa = corpus.0[q2].0;
                let wb = corpus.0[q2 + o].0;
                proof {
                    assert(s[q2 as int] == wa as int);
                    assert(s[q2 + o as int] == wb as int);
                    assert((wa as int) < vs as int && (wb as int) < vs as int);
                    lemma_partial_le_cap(
                        s,
                        wa as int,
                        wb as int,
                        o as int,
                        q2 as int,
                        window_size as int,
                    );
                    lemma_partial_le_cap(
                        s,
                        wb as int,
                        wa as int,
                        o as int,
                        q2 as int,
                        window_size as int,
                    );
                    lemma_acount_nonneg_mono(s, o as int, wa as int, wb as int, q2 as int, q2 + 1);
                    lemma_acount_nonneg_mono(s, o as int, wb as int, wa as int, q2 as int, q2 + 1);
                }
                let cur = m[wa][wb];
                m[wa][wb] = cur + 1;
                let cur2 = m[wb][wa];
                m[wb][wa] = cur2 + 1;
                proof {
                    assert forall|i: int, j: int|
                        0 <= i < vs && 0 <= j < vs implies #[trigger] m@[i]@[j] as int == ocount(
                        s,
                        i,
                        j,
                        o - 1,
                    ) + acount(s, o as int, i, j, q2 + 1) + acount(s, o as int, j, i, q2 + 1) by {
                        assert(acount(s, o as int, i, j, q2 + 1) == acount(s, o as int, i, j, q2 as int)
                            + if q2 + o < s.len() && s[q2 as int] == i && s[q2 + o as int] == j {
                                1int
                            } else {
                                0int
                            });
                        assert(acount(s, o as int, j, i, q2 + 1) == acount(s, o as int, j, i, q2 as int)
                            + if q2 + o < s.len() && s[q2 as int] == j && s[q2 + o as int] == i {
                                1int
                            } else {
                                0int
                            });
                    }
                }
            } else {
                proof {
                    assert forall|i: int, j: int|
                        0 <= i < vs && 0 <= j < vs implies #[trigger] m@[i]@[j] as int == ocount(
                        s,
                        i,
                        j,
                        o - 1,
                    ) + acount(s, o as int, i, j, q2 + 1) + acount(s, o as int, j, i, q2 + 1) by {
                        assert(acount(s, o as int, i, j, q2 + 1) == acount(s, o as int, i, j, q2 as int));
                        assert(acount(s, o as int, j, i, q2 + 1) == acount(s, o as int, j, i, q2 as int));
                    }
                }
            }
            q2 = q2 + 1;
        }
        o = o + 1;
    }
    let out = CoMatrix(m);
    proof {
        assert forall|i: int, j: int|
            0 <= i < out@.len() && 0 <= j < out@.len() implies #[trigger] out@[i][j] == co_val(
            s,
            window_size as int,
            i,
            j,
        ) by {
            assert(out@[i][j] == m@[i]@[j] as int);
            if window_size > len {
                lemma_ocount_stable(s, i, j, window_size as int);
            }
        }
    }
    Ok(out)
}

/// Symmetry: over a whole corpus, `j` near `i` is counted exactly as often
/// as `i` near `j`, for any window size.
pub proof fn lemma_co_symmetric(s: Seq<int>, w: int, i: int, j: int)
    ensures
        co_val(s, w, i, j) == co_val(s, w, j, i),
    decreases w,
{
    if w > 0 {
        lemma_co_symmetric(s, w - 1, i, j);
    }
}

/// Symmetry of a built matrix: any matrix whose cells hold the
/// co-occurrence counts of a corpus — as `create_co_matrix` ensures of its
/// result — is equal to its own transpose.
pub proof fn lemma_co_matrix_symmetric(mv: Seq<Seq<int>>, s: Seq<int>, w: int)
    requires
        forall|i: int, j: int|
            0 <= i < mv.len() && 0 <= j < mv.len() ==> #[trigger] mv[i][j] == co_val(s, w, i, j),
    ensures
        forall|i: int, j: int|
            0 <= i < mv.len() && 0 <= j < mv.len() ==> #[trigger] mv[i][j] == mv[j][i],
{
    assert forall|i: int, j: int|
        0 <= i < mv.len() && 0 <= j < mv.len() implies #[trigger] mv[i][j] == mv[j][i] by {
        lemma_co_symmetric(s, w, i, j);
    }
}

} // verus!
