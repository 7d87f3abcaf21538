//! Extraction of bounded-size text chunks from file contents.
//!
//! A file's content is split into whitespace-delimited words, and
//! consecutive words are grouped into chunks of a configured size, the
//! last chunk of a file holding the remainder.  A file contributes to the
//! reported file count exactly when it produced at least one chunk.

use vstd::prelude::*;

use crate::group::{group_count, group_of, groups_of, lemma_group_bounds, lemma_groups_flatten};
use crate::text::{
    is_word, join_with_spaces, join_words, lemma_words_of_are_words, lemma_words_of_join,
    split_words, words_of,
};

verus! {

/// A bounded span of words extracted from one file.
pub struct TextChunk {
    /// Path of the file the span was read from.
    pub path: String,
    /// The span itself: at most the configured number of words, joined
    /// by single spaces.
    pub text: String,
}

/// Mathematical image of a `TextChunk`.
pub ghost struct ChunkView {
    pub path: Seq<char>,
    pub text: Seq<char>,
}

impl View for TextChunk {
    type V = ChunkView;

    open spec fn view(&self) -> ChunkView {
        ChunkView { path: self.path@, text: self.text@ }
    }
}

/// A file handed to extraction: its path and its full text content.
pub struct FileText {
    pub path: String,
    pub content: String,
}

/// The chunk texts of one file's content: words grouped into runs of
/// `size`, each run joined with single spaces.
pub open spec fn chunk_texts(content: Seq<char>, size: int) -> Seq<Seq<char>> {
    Seq::new(
        group_count(words_of(content).len() as int, size) as nat,
        |j: int| join_words(group_of(words_of(content), size, j)),
    )
}

/// The chunks of one file, as views.
pub open spec fn chunk_views(path: Seq<char>, content: Seq<char>, size: int) -> Seq<ChunkView> {
    chunk_texts(content, size).map_values(|t: Seq<char>| ChunkView { path, text: t })
}

/// Split one file's content into chunks of at most `chunk_size` words.
pub fn chunk_file(path: &str, content: &str, chunk_size: usize) -> (chunks: Vec<TextChunk>)
    requires
        chunk_size >= 1,
    ensures
        chunks@.map_values(|c: TextChunk| c@) == chunk_views(path@, content@, chunk_size as int),
        chunks@.len() == group_count(words_of(content@).len() as int, chunk_size as int),
{
    let words = split_words(content);
    let ghost ws = words.deep_view();
    proof {
        assert(ws == words_of(content@));
    }
    let mut chunks: Vec<TextChunk> = Vec::new();
    let mut start: usize = 0;
    proof {
        assert(0int * chunk_size == 0) by (nonlinear_arith);
        assert(group_count(0, chunk_size as int) == 0) by (nonlinear_arith)
            requires
                chunk_size >= 1,
        ;
    }
    while start < words.len()
        invariant
            chunk_size >= 1,
            ws == words.deep_view(),
            ws == words_of(content@),
            start <= words.len(),
            words.len() == ws.len(),
            start < words.len() ==> start == chunks@.len() * chunk_size,
            start == words.len() ==> chunks@.len() == group_count(
                ws.len() as int,
                chunk_size as int,
            ),
            forall|j: int|
                0 <= j < chunks@.len() ==> (#[trigger] chunks@[j])@.path == path@,
            forall|j: int|
                0 <= j < chunks@.len() ==> (#[trigger] chunks@[j])@.text == join_words(
                    group_of(ws, chunk_size as int, j),
                ),
        decreases words.len() - start,
    {
        let ghost j = chunks@.len() as int;
        let end: usize = if words.len() - start > chunk_size {
            start + chunk_size
        } else {
            words.len()
        };
        proof {
            assert((j + 1) * chunk_size == j * chunk_size + chunk_size) by (nonlinear_arith);
            assert(group_of(ws, chunk_size as int, j) =~= ws.subrange(
                start as int,
                end as int,
            ));
        }
        let mut grouped: Vec<String> = Vec::new();
        let mut k: usize = start;
        while k < end
            invariant
                start <= k <= end <= words.len(),
                ws == words.deep_view(),
                words.len() == ws.len(),
                grouped.deep_view() == ws.subrange(start as int, k as int),
            decreases end - k,
        {
            let word: String = words[k].clone();
            let ghost prior = grouped.deep_view();
            grouped.push(word);
            proof {
                assert(grouped.deep_view() =~= prior.push(ws[k as int]));
                assert(ws.subrange(start as int, k + 1) =~= ws.subrange(
                    start as int,
                    k as int,
                ).push(ws[k as int]));
            }
            k = k + 1;
        }
        let text = join_with_spaces(&grouped);
        let owned_path: String = path.to_owned();
        let ghost prior_chunks = chunks@;
        chunks.push(TextChunk { path: owned_path, text });
        proof {
            if end == words.len() {
                crate::group::lemma_group_count_unique(
                    ws.len() as int,
                    chunk_size as int,
                    j + 1,
                );
            }
            assert(forall|m: int|
                0 <= m < prior_chunks.len() ==> #[trigger] chunks@[m] == prior_chunks[m]);
        }
        start = end;
    }
    proof {
        if ws.len() == 0 {
            assert(group_count(0, chunk_size as int) == 0) by (nonlinear_arith)
                requires
                    chunk_size >= 1,
            ;
        }
        assert(chunks@.map_values(|c: TextChunk| c@) =~= chunk_views(
            path@,
            content@,
            chunk_size as int,
        ));
    }
    chunks
}

/// True when a file yields at least one chunk, that is, holds at least
/// one word.
pub open spec fn contributes(f: FileText) -> bool {
    words_of(f.content@).len() > 0
}

/// Number of files in `files` that yield at least one chunk.
pub open spec fn contributing_count(files: Seq<FileText>) -> int
    decreases files.len(),
{
    if files.len() == 0 {
        0
    } else {
        contributing_count(files.drop_last()) + if contributes(files.last()) {
            1int
        } else {
            0int
        }
    }
}

/// All chunks of all files, in file order, as views.
pub open spec fn all_chunk_views(files: Seq<FileText>, size: int) -> Seq<ChunkView> {
    Seq::new(files.len(), |i: int| chunk_views(files[i].path@, files[i].content@, size)).flatten()
}

/// Extract the chunks of every file, in file order, together with the
/// count of files that contributed at least one chunk.
pub fn extract_chunks(files: &Vec<FileText>, chunk_size: usize) -> (r: (Vec<TextChunk>, usize))
    requires
        chunk_size >= 1,
    ensures
        r.0@.map_values(|c: TextChunk| c@) == all_chunk_views(files@, chunk_size as int),
        r.1 == contributing_count(files@),
{
    let mut chunks: Vec<TextChunk> = Vec::new();
    let mut file_count: usize = 0;
    let mut i: usize = 0;
    while i < files.len()
        invariant
            chunk_size >= 1,
            i <= files.len(),
            file_count <= i,
            chunks@.map_values(|c: TextChunk| c@) == all_chunk_views(
                files@.take(i as int),
                chunk_size as int,
            ),
            file_count == contributing_count(files@.take(i as int)),
        decreases files.len() - i,
    {
        let f = &files[i];
        let mut file_chunks = chunk_file(f.path.as_str(), f.content.as_str(), chunk_size);
        let ghost fcv = file_chunks@.map_values(|c: TextChunk| c@);
        let ghost prior = chunks@.map_values(|c: TextChunk| c@);
        if file_chunks.len() > 0 {
            file_count = file_count + 1;
        }
        proof {
            let n = words_of(files@[i as int].content@).len() as int;
            assert(group_count(n, chunk_size as int) > 0 <==> n > 0) by (nonlinear_arith)
                requires
                    chunk_size >= 1,
                    n >= 0,
            ;
            assert(files@.take(i + 1).drop_last() =~= files@.take(i as int));
            broadcast use vstd::prelude::Seq::lemma_flatten_push;

            let cat = Seq::new(
                i as nat,
                |m: int| chunk_views(files@[m].path@, files@[m].content@, chunk_size as int),
            );
            let cat1 = Seq::new(
                (i + 1) as nat,
                |m: int| chunk_views(files@[m].path@, files@[m].content@, chunk_size as int),
            );
            assert(cat1 =~= cat.push(fcv)) by {
                assert(forall|m: int|
                    0 <= m < i ==> files@.take(i as int)[m] == #[trigger] files@.take(
                        i + 1,
                    )[m]);
                assert(forall|m: int| 0 <= m < i + 1 ==> files@.take(i + 1)[m] == files@[m]);
            }
            assert(cat1.flatten() == cat.flatten() + fcv);
            assert(all_chunk_views(files@.take(i as int), chunk_size as int) == cat.flatten())
                by {
                assert(Seq::new(
                    i as nat,
                    |m: int| chunk_views(
                        files@.take(i as int)[m].path@,
                        files@.take(i as int)[m].content@,
                        chunk_size as int,
                    ),
                ) =~= cat);
            }
            assert(all_chunk_views(files@.take(i + 1), chunk_size as int) == cat1.flatten())
                by {
                assert(Seq::new(
                    (i + 1) as nat,
                    |m: int| chunk_views(
                        files@.take(i + 1)[m].path@,
                        files@.take(i + 1)[m].content@,
                        chunk_size as int,
                    ),
                ) =~= cat1);
            }
        }
        chunks.append(&mut file_chunks);
        proof {
            assert(chunks@.map_values(|c: TextChunk| c@) =~= prior + fcv);
        }
        i = i + 1;
    }
    proof {
        assert(files@.take(files@.len() as int) =~= files@);
    }
    (chunks, file_count)
}

/// A content of `size * k + r` words with `0 < r <= size` yields exactly
/// `k + 1` chunks; with `r == 0`, exactly `k`.
pub proof fn lemma_chunk_count(content: Seq<char>, size: int, k: int, r: int)
    requires
        size >= 1,
        k >= 0,
        0 <= r <= size,
        words_of(content).len() == size * k + r,
    ensures
        r > 0 ==> chunk_texts(content, size).len() == k + 1,
        r == 0 ==> chunk_texts(content, size).len() == k,
{
    crate::group::lemma_group_count_split(words_of(content).len() as int, size, k, r);
}

/// Chunk extraction reconstructs the file's words: the chunk texts of a
/// content, each split back into words and concatenated in order, give
/// exactly the content's word sequence; and every chunk holds between 1
/// and `size` words.
pub proof fn lemma_chunking_reconstructs(content: Seq<char>, size: int)
    requires
        size >= 1,
    ensures
        chunk_texts(content, size).map_values(|t: Seq<char>| words_of(t)).flatten() == words_of(
            content,
        ),
        forall|j: int|
            0 <= j < chunk_texts(content, size).len() ==> 1 <= words_of(
                #[trigger] chunk_texts(content, size)[j],
            ).len() <= size,
{
    let ws = words_of(content);
    lemma_words_of_are_words(content);
    let texts = chunk_texts(content, size);
    assert forall|j: int| 0 <= j < texts.len() implies words_of(#[trigger] texts[j]) == group_of(
        ws,
        size,
        j,
    ) && 1 <= words_of(texts[j]).len() <= size by {
        lemma_group_bounds(ws, size, j);
        let g = group_of(ws, size, j);
        assert forall|m: int| 0 <= m < g.len() implies is_word(#[trigger] g[m]) by {
            assert((j + 1) * size == j * size + size) by (nonlinear_arith);
            assert(j * size + m < ws.len());
            assert(g[m] == ws[j * size + m]);
        }
        lemma_words_of_join(g);
    }
    assert(texts.map_values(|t: Seq<char>| words_of(t)) =~= groups_of(ws, size));
    lemma_groups_flatten(ws, size);
}

} // verus!
