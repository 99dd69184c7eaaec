//! Integer groundwork for the PPMI reweighting.
//!
//! PPMI compares each count against the product of its row and column
//! marginals over the total mass.  Everything about those quantities is
//! integer arithmetic and is computed and proved here; only the final
//! logarithm is left to the caller.

use crate::comatrix::{CoMatrix, MatrixError};
use vstd::prelude::*;

verus! {

/// The sum of column `j` over the first `n` rows.
pub open spec fn col_sum(m: Seq<Seq<int>>, j: int, n: int) -> int
    decreases n,
{
    if n <= 0 {
        0
    } else {
        col_sum(m, j, n - 1) + m[n - 1][j]
    }
}

/// The marginal frequency of word `j`: the sum of its column.
pub open spec fn col_total(m: Seq<Seq<int>>, j: int) -> int {
    col_sum(m, j, m.len() as int)
}

/// The sum of the first `k` column totals.
pub open spec fn mar_sum(m: Seq<Seq<int>>, k: int) -> int
    decreases k,
{
    if k <= 0 {
        0
    } else {
        mar_sum(m, k - 1) + col_total(m, k - 1)
    }
}

/// The total co-occurrence mass: the sum of every entry, taken column by
/// column.
pub open spec fn grand_total(m: Seq<Seq<int>>) -> int {
    mar_sum(m, m.len() as int)
}

/// Every row is as long as the matrix is tall.
pub open spec fn is_square(m: Seq<Seq<int>>) -> bool {
    forall|i: int| 0 <= i < m.len() ==> (#[trigger] m[i]).len() == m.len()
}

/// Every entry is non-negative.
pub open spec fn entries_nonneg(m: Seq<Seq<int>>) -> bool {
    forall|i: int, j: int|
        0 <= i < m.len() && 0 <= j < m[i].len() ==> #[trigger] m[i][j] >= 0
}

proof fn lemma_col_sum_nonneg_mono(m: Seq<Seq<int>>, j: int, n1: int, n2: int)
    requires
        is_square(m),
        entries_nonneg(m),
        0 <= j < m.len(),
        n1 <= n2 <= m.len(),
    ensures
        0 <= col_sum(m, j, n1) <= col_sum(m, j, n2),
    decreases n2,
{
    if n2 > 0 {
        if n1 < n2 {
            lemma_col_sum_nonneg_mono(m, j, n1, n2 - 1);
        } else {
            lemma_col_sum_nonneg_mono(m, j, 0, n2 - 1);
        }
    }
}

proof fn lemma_mar_sum_nonneg_mono(m: Seq<Seq<int>>, k1: int, k2: int)
    requires
        is_square(m),
        entries_nonneg(m),
        k1 <= k2 <= m.len(),
    ensures
        0 <= mar_sum(m, k1) <= mar_sum(m, k2),
    decreases k2,
{
    if k2 > 0 {
        lemma_col_sum_nonneg_mono(m, k2 - 1, 0, m.len() as int);
        if k1 < k2 {
            lemma_mar_sum_nonneg_mono(m, k1, k2 - 1);
        } else {
            lemma_mar_sum_nonneg_mono(m, 0, k2 - 1);
        }
    }
}

/// No single column outweighs the whole matrix.
proof fn lemma_col_le_grand(m: Seq<Seq<int>>, j: int)
    requires
        is_square(m),
        entries_nonneg(m),
        0 <= j < m.len(),
    ensures
        col_total(m, j) <= grand_total(m),
{
    lemma_mar_sum_nonneg_mono(m, 0, j);
    lemma_mar_sum_nonneg_mono(m, j + 1, m.len() as int);
}

/// The column totals and the total mass of a co-occurrence matrix.
pub struct CoTotals {
    /// The sum of every entry of the matrix.
    pub total: usize,
    /// For each word, the sum of its column.
    pub marginals: Vec<usize>,
}

/// Sums a square co-occurrence matrix: the marginal frequency of every word
/// and the total mass.  Fails fast, rather than divide by zero or wrap
/// later, when the matrix is empty, when the mass does not fit in a machine
/// word, or when some word has zero marginal frequency.
pub fn co_totals(c: &CoMatrix) -> (r: Result<CoTotals, MatrixError>)
    requires
        is_square(c@),
    ensures
        match r {
            Ok(t) => c@.len() > 0 && grand_total(c@) <= usize::MAX && t.total as int
                == grand_total(c@) && t.marginals@.len() == c@.len() && (forall|j: int|
                0 <= j < c@.len() ==> #[trigger] t.marginals@[j] as int == col_total(c@, j))
                && (forall|j: int| 0 <= j < c@.len() ==> col_total(c@, j) > 0),
            Err(e) => match e {
                MatrixError::EmptyMatrix => c@.len() == 0,
                MatrixError::TotalOverflow => c@.len() > 0 && grand_total(c@) > usize::MAX,
                MatrixError::ZeroMarginal => c@.len() > 0 && grand_total(c@) <= usize::MAX
                    && (exists|j: int| 0 <= j < c@.len() && col_total(c@, j) == 0),
                _ => false,
            },
        },
{
    let n = c.0.len();
    if n == 0 {
        return Err(MatrixError::EmptyMatrix);
    }
    proof {
        assert(entries_nonneg(c@)) by {
            assert forall|i: int, j: int|
                0 <= i < c@.len() && 0 <= j < c@[i].len() implies #[trigger] c@[i][j] >= 0 by {
                assert(c@[i][j] == c.0@[i]@[j] as int);
            }
        }
    }
    let mut marginals: Vec<usize> = Vec::new();
    let mut j: usize = 0;
    while j < n
        invariant
            j <= n,
            n == c@.len(),
            is_square(c@),
            entries_nonneg(c@),
            marginals@.len() == j,
            forall|k: int|
                0 <= k < j ==> #[trigger] marginals@[k] as int == col_total(c@, k),
        decreases n - j,
    {
        let mut acc: usize = 0;
        let mut i: usize = 0;
        while i < n
            invariant
                i <= n,
                j < n,
                n == c@.len(),
                is_square(c@),
                entries_nonneg(c@),
                acc as int == col_sum(c@, j as int, i as int),
            decreases n - i,
        {
            proof {
                assert(c@[i as int].len() == c@.len());
                assert(c@[i as int] == c.0@[i as int]@.map_values(|x: usize| x as int));
            }
            let v = c.0[i][j];
            proof {
                assert(c@[i as int][j as int] == c.0@[i as int]@[j as int] as int);
            }
            match acc.checked_add(v) {
                Some(x) => {
                    acc = x;
                },
                None => {
                    proof {
                        lemma_col_sum_nonneg_mono(c@, j as int, i + 1, n as int);
                        lemma_col_le_grand(c@, j as int);
                    }
                    return Err(MatrixError::TotalOverflow);
                },
            }
            i = i + 1;
        }
        marginals.push(acc);
        j = j + 1;
    }
    let mut total: usize = 0;
    let mut k: usize = 0;
    while k < n
        invariant
            k <= n,
            n == c@.len(),
            is_square(c@),
            entries_nonneg(c@),
            marginals@.len() == n,
            forall|p: int|
                0 <= p < n ==> #[trigger] marginals@[p] as int == col_total(c@, p),
            total as int == mar_sum(c@, k as int),
        decreases n - k,
    {
        match total.checked_add(marginals[k]) {
            Some(x) => {
                total = x;
            },
            None => {
                proof {
                    lemma_mar_sum_nonneg_mono(c@, k + 1, n as int);
                }
                return Err(MatrixError::TotalOverflow);
            },
        }
        k = k + 1;
    }
    let mut z: usize = 0;
    while z < n
        invariant
            z <= n,
            n == c@.len(),
            marginals@.len() == n,
            forall|p: int|
                0 <= p < n ==> #[trigger] marginals@[p] as int == col_total(c@, p),
            forall|p: int| 0 <= p < z ==> col_total(c@, p) > 0,
            total as int == grand_total(c@),
        decreases n - z,
    {
        if marginals[z] == 0 {
            proof {
                assert(col_total(c@, z as int) == 0);
            }
            return Err(MatrixError::ZeroMarginal);
        }
        z = z + 1;
    }
    Ok(CoTotals { total, marginals })
}

/// The product of a count and a total, widened so it cannot wrap however
/// large the corpus is.
pub fn wide_product(a: usize, b: usize) -> (r: u128)
    ensures
        r as int == a as int * b as int,
{
    proof {
        assert((a as int) * (b as int) <= u128::MAX) by (nonlinear_arith)
            requires
                0 <= a as int <= u64::MAX,
                0 <= b as int <= u64::MAX,
        ;
    }
    (a as u128) * (b as u128)
}

} // verus!
