//! Grouping chunk texts into bounded batches for the embedding provider.
//!
//! Batches preserve the original order within and across batches, so an
//! embedding sequence assembled batch by batch, in batch order, is
//! aligned index by index with the input texts.

use vstd::prelude::*;

use crate::group::{group_count, group_of, groups_of, lemma_groups_flatten};

verus! {

/// Partition `texts` into consecutive batches of at most `batch_size`
/// entries; every batch but the last holds exactly `batch_size`.
pub fn batch_texts(texts: &Vec<String>, batch_size: usize) -> (batches: Vec<Vec<String>>)
    requires
        batch_size >= 1,
    ensures
        batches@.len() == group_count(texts@.len() as int, batch_size as int),
        forall|j: int|
            0 <= j < batches@.len() ==> (#[trigger] batches@[j]).deep_view() == group_of(
                texts.deep_view(),
                batch_size as int,
                j,
            ),
{
    let ghost ts = texts.deep_view();
    let mut batches: Vec<Vec<String>> = Vec::new();
    let mut start: usize = 0;
    proof {
        assert(0int * batch_size == 0) by (nonlinear_arith);
        assert(group_count(0, batch_size as int) == 0) by (nonlinear_arith)
            requires
                batch_size >= 1,
        ;
    }
    while start < texts.len()
        invariant
            batch_size >= 1,
            ts == texts.deep_view(),
            start <= texts.len(),
            texts.len() == ts.len(),
            start < texts.len() ==> start == batches@.len() * batch_size,
            start == texts.len() ==> batches@.len() == group_count(
                ts.len() as int,
                batch_size as int,
            ),
            forall|j: int|
                0 <= j < batches@.len() ==> (#[trigger] batches@[j]).deep_view() == group_of(
                    ts,
                    batch_size as int,
                    j,
                ),
        decreases texts.len() - start,
    {
        let ghost j = batches@.len() as int;
        let end: usize = if texts.len() - start > batch_size {
            start + batch_size
        } else {
            texts.len()
        };
        proof {
            assert((j + 1) * batch_size == j * batch_size + batch_size) by (nonlinear_arith);
            assert(group_of(ts, batch_size as int, j) =~= ts.subrange(
                start as int,
                end as int,
            ));
        }
        let mut batch: Vec<String> = Vec::new();
        let mut k: usize = start;
        while k < end
            invariant
                start <= k <= end <= texts.len(),
                ts == texts.deep_view(),
                texts.len() == ts.len(),
                batch.deep_view() == ts.subrange(start as int, k as int),
            decreases end - k,
        {
            let text: String = texts[k].clone();
            let ghost prior = batch.deep_view();
            batch.push(text);
            proof {
                assert(batch.deep_view() =~= prior.push(ts[k as int]));
                assert(ts.subrange(start as int, k + 1) =~= ts.subrange(
                    start as int,
                    k as int,
                ).push(ts[k as int]));
            }
            k = k + 1;
        }
        let ghost prior_batches = batches@;
        batches.push(batch);
        proof {
            if end == texts.len() {
                crate::group::lemma_group_count_unique(
                    ts.len() as int,
                    batch_size as int,
                    j + 1,
                );
            }
            assert(forall|m: int|
                0 <= m < prior_batches.len() ==> #[trigger] batches@[m] == prior_batches[m]);
        }
        start = end;
    }
    batches
}

/// Index alignment of batching: the element at position `i` of the input
/// stands in batch `i / size` at offset `i % size`.  Together with
/// `lemma_batches_concat` this pins where every input lands.
pub proof fn lemma_batches_align<A>(s: Seq<A>, size: int, i: int)
    requires
        size >= 1,
        0 <= i < s.len(),
    ensures
        0 <= i / size < group_count(s.len() as int, size),
        0 <= i % size < group_of(s, size, i / size).len(),
        group_of(s, size, i / size)[i % size] == s[i],
{
    let n = s.len() as int;
    let j = i / size;
    let r = i % size;
    vstd::arithmetic::div_mod::lemma_fundamental_div_mod(i, size);
    vstd::arithmetic::div_mod::lemma_mod_bound(i, size);
    vstd::arithmetic::div_mod::lemma_div_pos_is_pos(i, size);
    assert(i == size * j + r);
    vstd::arithmetic::div_mod::lemma_hoist_over_denominator(n - 1, 1, size as nat);
    vstd::arithmetic::div_mod::lemma_div_is_ordered(i, n - 1, size);
    assert(j < group_count(n, size));
    assert(size * j == j * size && (j + 1) * size == j * size + size) by (nonlinear_arith);
    assert(r < group_of(s, size, j).len());
    assert(group_of(s, size, j)[r] == s[j * size + r]);
}

/// Concatenating all batches in order gives back the input texts, so the
/// number of embeddings returned batch by batch equals the number of
/// input texts.
pub proof fn lemma_batches_concat<A>(s: Seq<A>, size: int)
    requires
        size >= 1,
    ensures
        groups_of(s, size).flatten() == s,
{
    lemma_groups_flatten(s, size);
}

} // verus!
