//! Selecting the leading results from a ranked sequence.

use vstd::prelude::*;

use crate::rank::{sorted_desc, ScoredChunk, ScoredView};

verus! {

/// The first `limit` entries of `s`, or all of `s` when fewer are there.
pub open spec fn top_of<A>(s: Seq<A>, limit: int) -> Seq<A> {
    s.take(
        if limit <= s.len() {
            limit
        } else {
            s.len() as int
        },
    )
}

/// Return the first `min(limit, len)` ranked results, unchanged and in
/// order; no re-sorting, no re-scoring.
pub fn take_top(results: Vec<ScoredChunk>, limit: usize) -> (top: Vec<ScoredChunk>)
    ensures
        top@ == top_of(results@, limit as int),
{
    let ghost whole = results@;
    let mut top = results;
    proof {
        assert(whole.take(whole.len() as int) =~= whole);
    }
    while top.len() > limit
        invariant
            top@ == whole.take(top@.len() as int),
            top@.len() <= whole.len(),
            top@.len() >= limit || top@.len() == whole.len(),
        decreases top.len(),
    {
        let ghost before = top@;
        let _ = top.pop();
        proof {
            assert(whole.take(before.len() as int).drop_last() =~= whole.take(
                before.len() - 1,
            ));
        }
    }
    proof {
        if limit < whole.len() {
            assert(top@.len() == limit as int);
        }
        assert(top@ =~= top_of(whole, limit as int));
    }
    top
}

/// Selecting the top `limit` of an already selected top `limit` returns
/// it unchanged: selection is idempotent.
pub proof fn lemma_take_top_idempotent<A>(s: Seq<A>, limit: int)
    requires
        limit >= 0,
    ensures
        top_of(top_of(s, limit), limit) == top_of(s, limit),
{
    assert(top_of(top_of(s, limit), limit) =~= top_of(s, limit));
}

/// A `limit` at least the number of results returns all of them
/// unchanged, and a `limit` of zero returns none.
pub proof fn lemma_take_top_bounds<A>(s: Seq<A>, limit: int)
    requires
        limit >= 0,
    ensures
        limit >= s.len() ==> top_of(s, limit) == s,
        limit == 0 ==> top_of(s, limit) == Seq::<A>::empty(),
{
    if limit >= s.len() {
        assert(top_of(s, limit) =~= s);
    }
    if limit == 0 {
        assert(top_of(s, limit) =~= Seq::<A>::empty());
    }
}

/// A selected prefix of a ranked sequence is still ranked.
pub proof fn lemma_take_top_sorted(s: Seq<ScoredView>, limit: int)
    requires
        limit >= 0,
        sorted_desc(s),
    ensures
        sorted_desc(top_of(s, limit)),
{
}

} // verus!
