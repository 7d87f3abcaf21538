//! Ordering scored chunks by descending similarity.
//!
//! A similarity score is a 32-bit IEEE 754 value computed outside this
//! library; it enters here as its raw bit pattern.  `rank_key` defines a
//! total order on the patterns that agrees with the floating-point order
//! on all well-defined values and places every NaN below every other
//! value, so sorting never fails on degenerate scores.

use vstd::multiset::Multiset;
use vstd::prelude::*;

use crate::chunk::TextChunk;

verus! {

/// A chunk paired with its similarity score against the query.
pub struct ScoredChunk {
    /// Raw bits of the 32-bit floating-point similarity score.
    pub score_bits: u32,
    /// Path of the file the chunk came from.
    pub path: String,
    /// The chunk text.
    pub text: String,
}

/// Mathematical image of a `ScoredChunk`.
pub ghost struct ScoredView {
    pub score_bits: u32,
    pub path: Seq<char>,
    pub text: Seq<char>,
}

impl View for ScoredChunk {
    type V = ScoredView;

    open spec fn view(&self) -> ScoredView {
        ScoredView { score_bits: self.score_bits, path: self.path@, text: self.text@ }
    }
}

/// The views of a sequence of scored chunks.
pub open spec fn views_of(s: Seq<ScoredChunk>) -> Seq<ScoredView> {
    s.map_values(|c: ScoredChunk| c@)
}

/// Exponent and mantissa of a score bit pattern, the sign bit dropped.
pub open spec fn magnitude_of(bits: u32) -> int {
    if bits >= 0x8000_0000 {
        bits - 0x8000_0000
    } else {
        bits as int
    }
}

/// A pattern whose exponent is all ones and whose mantissa is non-zero
/// encodes a NaN.
pub open spec fn is_nan_bits(bits: u32) -> bool {
    magnitude_of(bits) > 0x7F80_0000
}

/// Total order on score bit patterns: agrees with the floating-point
/// order on non-NaN values (negative zero just below positive zero) and
/// ranks every NaN below everything else.
pub open spec fn rank_key(bits: u32) -> int {
    if is_nan_bits(bits) {
        0
    } else if bits >= 0x8000_0000 {
        0x7FFF_FFFF - magnitude_of(bits)
    } else {
        0x8000_0000 + magnitude_of(bits)
    }
}

/// `s` is ordered by non-increasing score rank.
pub open spec fn sorted_desc(s: Seq<ScoredView>) -> bool {
    forall|a: int, b: int|
        0 <= a <= b < s.len() ==> rank_key(s[a].score_bits) >= rank_key(s[b].score_bits)
}

/// Executable rank of a score bit pattern.
pub fn key_of(bits: u32) -> (key: u32)
    ensures
        key as int == rank_key(bits),
{
    let magnitude: u32 = if bits >= 0x8000_0000 {
        bits - 0x8000_0000
    } else {
        bits
    };
    if magnitude > 0x7F80_0000 {
        0
    } else if bits >= 0x8000_0000 {
        0x7FFF_FFFF - magnitude
    } else {
        0x8000_0000 + magnitude
    }
}

/// Pair each chunk with its score bits, preserving index alignment.
pub fn score_chunks(chunks: &Vec<TextChunk>, score_bits: &Vec<u32>) -> (scored: Vec<ScoredChunk>)
    requires
        chunks@.len() == score_bits@.len(),
    ensures
        scored@.len() == chunks@.len(),
        forall|i: int|
            0 <= i < scored@.len() ==> (#[trigger] scored@[i])@ == (ScoredView {
                score_bits: score_bits@[i],
                path: chunks@[i]@.path,
                text: chunks@[i]@.text,
            }),
{
    let mut scored: Vec<ScoredChunk> = Vec::new();
    let mut i: usize = 0;
    while i < chunks.len()
        invariant
            i <= chunks.len(),
            chunks@.len() == score_bits@.len(),
            scored@.len() == i,
            forall|m: int|
                0 <= m < i ==> (#[trigger] scored@[m])@ == (ScoredView {
                    score_bits: score_bits@[m],
                    path: chunks@[m]@.path,
                    text: chunks@[m]@.text,
                }),
        decreases chunks.len() - i,
    {
        let ghost prior = scored@;
        scored.push(
            ScoredChunk {
                score_bits: score_bits[i],
                path: chunks[i].path.clone(),
                text: chunks[i].text.clone(),
            },
        );
        proof {
            assert(forall|m: int| 0 <= m < prior.len() ==> #[trigger] scored@[m] == prior[m]);
        }
        i = i + 1;
    }
    scored
}

/// Sort scored chunks by non-increasing score rank.  The result is a
/// permutation of the input; the relative order of equal scores is
/// unspecified.
pub fn sort_by_score(input: Vec<ScoredChunk>) -> (sorted: Vec<ScoredChunk>)
    ensures
        sorted@.len() == input@.len(),
        views_of(sorted@).to_multiset() == views_of(input@).to_multiset(),
        sorted_desc(views_of(sorted@)),
{
    broadcast use vstd::seq_lib::group_to_multiset_ensures;

    let mut rest = input;
    let ghost whole = views_of(rest@);
    let mut sorted: Vec<ScoredChunk> = Vec::new();
    proof {
        assert(views_of(sorted@).to_multiset().add(views_of(rest@).to_multiset())
            =~= whole.to_multiset());
    }
    while rest.len() > 0
        invariant
            sorted@.len() + rest@.len() == whole.len(),
            views_of(sorted@).to_multiset().add(views_of(rest@).to_multiset())
                == whole.to_multiset(),
            sorted_desc(views_of(sorted@)),
            forall|a: int, b: int|
                0 <= a < sorted@.len() && 0 <= b < rest@.len() ==> rank_key(
                    (#[trigger] sorted@[a]).score_bits,
                ) >= rank_key((#[trigger] rest@[b]).score_bits),
        decreases rest.len(),
    {
        let mut best: usize = 0;
        let mut m: usize = 1;
        while m < rest.len()
            invariant
                rest@.len() > 0,
                best < m <= rest@.len(),
                forall|b: int|
                    0 <= b < m ==> rank_key(rest@[best as int].score_bits) >= rank_key(
                        (#[trigger] rest@[b]).score_bits,
                    ),
            decreases rest.len() - m,
        {
            if key_of(rest[m].score_bits) > key_of(rest[best].score_bits) {
                best = m;
            }
            m = m + 1;
        }
        let ghost old_rest = rest@;
        let ghost old_sorted = sorted@;
        let picked = rest.remove(best);
        sorted.push(picked);
        proof {
            broadcast use vstd::seq_lib::group_to_multiset_ensures;

            assert(picked == old_rest[best as int]);
            assert forall|b: int| 0 <= b < rest@.len() implies rank_key(
                picked.score_bits,
            ) >= rank_key((#[trigger] rest@[b]).score_bits) by {
                if b < best {
                    assert(rest@[b] == old_rest[b]);
                } else {
                    assert(rest@[b] == old_rest[b + 1]);
                }
            }
            assert(views_of(rest@) =~= views_of(old_rest).remove(best as int));
            assert(views_of(old_rest)[best as int] == picked@);
            assert(views_of(old_rest).remove(best as int).to_multiset() =~= views_of(
                old_rest,
            ).to_multiset().remove(picked@));
            assert(views_of(rest@).to_multiset() == views_of(old_rest).to_multiset().remove(
                picked@,
            ));
            assert(views_of(sorted@) =~= views_of(old_sorted).push(picked@));
            assert(views_of(old_sorted).push(picked@).to_multiset() =~= views_of(
                old_sorted,
            ).to_multiset().insert(picked@));
            assert(views_of(sorted@).to_multiset() == views_of(old_sorted).to_multiset().insert(
                picked@,
            ));
            assert(views_of(old_rest).to_multiset().count(picked@) >= 1) by {
                assert(views_of(old_rest).contains(picked@));
            }
            assert(views_of(sorted@).to_multiset().add(views_of(rest@).to_multiset())
                =~= whole.to_multiset());
            assert forall|a: int, b: int|
                0 <= a <= b < views_of(sorted@).len() implies rank_key(
                    views_of(sorted@)[a].score_bits,
                ) >= rank_key(views_of(sorted@)[b].score_bits) by {
                if b < old_sorted.len() {
                    assert(sorted@[a] == old_sorted[a] && sorted@[b] == old_sorted[b]);
                } else if a < old_sorted.len() {
                    assert(sorted@[a] == old_sorted[a] && sorted@[b] == picked);
                }
            }
        }
    }
    proof {
        assert(views_of(rest@).to_multiset() =~= Multiset::<ScoredView>::empty());
        assert(views_of(sorted@).to_multiset().add(Multiset::<ScoredView>::empty())
            =~= views_of(sorted@).to_multiset());
    }
    sorted
}

} // verus!
