//! Candidate enumeration for similarity ranking.
//!
//! A similarity query scores every vocabulary word against the query word —
//! except the query word itself.  The candidate list is built here, in
//! ascending identifier order, so that a stable sort on scores alone breaks
//! ties by first-occurrence order.

use crate::vocab::WordId;
use vstd::prelude::*;

verus! {

/// Whether some slot of `r` holds the identifier `id`.
pub open spec fn holds_id(r: Seq<WordId>, id: int) -> bool {
    exists|k: int| 0 <= k < r.len() && (#[trigger] r[k]).0 as int == id
}

/// Every identifier below `vocab_size` except `query`, in ascending order.
pub fn candidate_ids(query: WordId, vocab_size: usize) -> (r: Vec<WordId>)
    requires
        query.0 < vocab_size,
    ensures
        r@.len() == vocab_size - 1,
        forall|k: int|
            0 <= k < r@.len() ==> (#[trigger] r@[k]).0 as int == (if k < query.0 {
                k
            } else {
                k + 1
            }),
{
    let mut out: Vec<WordId> = Vec::new();
    let mut i: usize = 0;
    while i < vocab_size
        invariant
            i <= vocab_size,
            query.0 < vocab_size,
            out@.len() == (if i <= query.0 {
                i as int
            } else {
                i - 1
            }),
            forall|k: int|
                0 <= k < out@.len() ==> (#[trigger] out@[k]).0 as int == (if k < query.0 {
                    k
                } else {
                    k + 1
                }),
        decreases vocab_size - i,
    {
        if i != query.0 {
            out.push(WordId(i));
        }
        i = i + 1;
    }
    out
}

/// Self-exclusion: the candidate list never includes the query itself, and
/// includes every other vocabulary identifier exactly once.
pub proof fn lemma_candidates_self_excluding(r: Seq<WordId>, query: WordId, vocab_size: int)
    requires
        query.0 < vocab_size,
        r.len() == vocab_size - 1,
        forall|k: int|
            0 <= k < r.len() ==> (#[trigger] r[k]).0 as int == (if k < query.0 {
                k
            } else {
                k + 1
            }),
    ensures
        forall|k: int| 0 <= k < r.len() ==> (#[trigger] r[k]).0 != query.0,
        forall|k: int| 0 <= k < r.len() ==> (#[trigger] r[k]).0 < vocab_size,
        forall|id: int|
            0 <= id < vocab_size && id != query.0 ==> #[trigger] holds_id(r, id),
        r.no_duplicates(),
{
    assert forall|id: int|
        0 <= id < vocab_size && id != query.0 implies #[trigger] holds_id(r, id) by {
        let k = if id < query.0 {
            id
        } else {
            id - 1
        };
        assert(0 <= k < r.len() && r[k].0 as int == id);
    }
}

} // verus!
