//! Semantic file finder core: splits documents into bounded word chunks,
//! groups chunks into batches for an embedding provider, orders scored
//! chunks by descending similarity, and selects the top results.
//!
//! Similarity scores are produced by floating-point code outside this
//! library; they enter here as raw IEEE 754 bit patterns (`u32`), over
//! which a verified total order is defined.

pub mod batch;
pub mod chunk;
pub mod encode;
pub mod group;
pub mod rank;
pub mod select;
pub mod text;

use vstd::prelude::*;

use crate::chunk::TextChunk;
use crate::rank::{score_chunks, sort_by_score, sorted_desc, views_of, ScoredChunk, ScoredView};
use crate::select::{take_top, top_of};

verus! {

/// Number of words per text chunk, unless configured otherwise.
pub const WORD_CHUNK_SIZE: usize = 20;

/// Number of text chunks embedded in one provider call.
pub const CHUNK_EMBEDDING_BATCH_SIZE: usize = 128;

/// Configuration of one search run, as plain values.  The surrounding
/// binary parses the command line and hands the result over in this form.
pub struct Args {
    /// The directory to search in.
    pub path: String,
    /// The semantic search query, one entry per query word.
    pub query: Vec<String>,
    /// Model to use for embeddings.
    pub model: String,
    /// Number of top results to display.
    pub limit: usize,
    /// Search recursively through all subdirectories.
    pub recursive: bool,
    /// Print detailed timings.
    pub verbose: bool,
    /// Output results in JSON format instead of a table.
    pub json: bool,
    /// Accepted file extensions.
    pub extension: Vec<String>,
}

/// Case-sensitive test whether a file extension stands in the accepted
/// set; files whose extension does not are skipped by discovery.
pub fn is_accepted_extension(ext: &str, accepted: &Vec<String>) -> (r: bool)
    ensures
        r == exists|i: int| 0 <= i < accepted@.len() && (#[trigger] accepted@[i])@ == ext@,
{
    let looked_for: String = ext.to_owned();
    let mut i: usize = 0;
    while i < accepted.len()
        invariant
            i <= accepted.len(),
            looked_for@ == ext@,
            forall|m: int| 0 <= m < i ==> (#[trigger] accepted@[m])@ != ext@,
        decreases accepted.len() - i,
    {
        if accepted[i] == looked_for {
            return true;
        }
        i = i + 1;
    }
    false
}

/// The scored views that pairing `chunks` with `score_bits` yields,
/// index-aligned with both inputs.
pub open spec fn paired_views(chunks: Seq<TextChunk>, score_bits: Seq<u32>) -> Seq<ScoredView> {
    Seq::new(
        chunks.len(),
        |i: int| ScoredView {
            score_bits: score_bits[i],
            path: chunks[i]@.path,
            text: chunks[i]@.text,
        },
    )
}

/// Score, rank and select: pair each chunk with its similarity score,
/// order the pairs by non-increasing score rank, and return the first
/// `limit` of them.  The result is a prefix of a ranked permutation of
/// the chunk-score pairs.
pub fn rank_and_select(
    chunks: &Vec<TextChunk>,
    score_bits: &Vec<u32>,
    limit: usize,
) -> (top: Vec<ScoredChunk>)
    requires
        chunks@.len() == score_bits@.len(),
    ensures
        top@.len() == if limit <= chunks@.len() {
            limit as int
        } else {
            chunks@.len() as int
        },
        sorted_desc(views_of(top@)),
        exists|ranked: Seq<ScoredView>|
            {
                &&& #[trigger] sorted_desc(ranked)
                &&& ranked.to_multiset() == paired_views(chunks@, score_bits@).to_multiset()
                &&& views_of(top@) == top_of(ranked, limit as int)
            },
{
    let scored = score_chunks(chunks, score_bits);
    proof {
        assert(views_of(scored@) =~= paired_views(chunks@, score_bits@));
    }
    let ranked = sort_by_score(scored);
    let ghost ranked_views = views_of(ranked@);
    let top = take_top(ranked, limit);
    proof {
        assert(views_of(top@) =~= top_of(ranked_views, limit as int));
        crate::select::lemma_take_top_sorted(ranked_views, limit as int);
        assert(sorted_desc(ranked_views) && ranked_views.to_multiset() == paired_views(
            chunks@,
            score_bits@,
        ).to_multiset() && views_of(top@) == top_of(ranked_views, limit as int));
    }
    top
}

} // verus!
