use sff::batch::batch_texts;
use sff::chunk::{chunk_file, extract_chunks, FileText};
use sff::encode::format_path_for_terminal;
use sff::is_accepted_extension;
use sff::rank::{key_of, score_chunks, sort_by_score, ScoredChunk};
use sff::rank_and_select;
use sff::select::take_top;
use sff::text::{join_with_spaces, split_words};

fn words(n: usize, word: &str) -> String {
    let mut out = String::new();
    for i in 0..n {
        if i > 0 {
            out.push(' ');
        }
        out.push_str(word);
    }
    out
}

#[test]
fn split_words_on_whitespace_runs() {
    let ws = split_words("  alpha\t beta\n\ngamma ");
    let expected = vec!["alpha", "beta", "gamma"];
    assert_eq!(ws.len(), expected.len());
    for (w, e) in ws.iter().zip(expected.iter()) {
        assert_eq!(w, e);
    }
}

#[test]
fn split_words_unicode_whitespace() {
    let ws = split_words("a\u{00A0}b\u{3000}c");
    assert_eq!(ws, vec!["a".to_string(), "b".to_string(), "c".to_string()]);
}

#[test]
fn split_words_empty_and_blank() {
    assert_eq!(split_words("").len(), 0);
    assert_eq!(split_words(" \t\n ").len(), 0);
}

#[test]
fn join_with_spaces_round_trip() {
    let ws = vec!["one".to_string(), "two".to_string(), "three".to_string()];
    let joined = join_with_spaces(&ws);
    assert_eq!(joined, "one two three");
    assert_eq!(split_words(&joined), ws);
}

#[test]
fn chunking_partial_last_chunk() {
    // 25 words with chunk size 20: one full chunk and one of 5 words.
    let content = words(25, "alpha");
    let chunks = chunk_file("a.txt", &content, 20);
    assert_eq!(chunks.len(), 2);
    assert_eq!(chunks[0].path, "a.txt");
    assert_eq!(chunks[0].text, words(20, "alpha"));
    assert_eq!(chunks[1].text, words(5, "alpha"));
}

#[test]
fn chunking_exact_multiple() {
    // 40 = 20 * 2 words: exactly two chunks, no remainder chunk.
    let content = words(40, "w");
    let chunks = chunk_file("f.md", &content, 20);
    assert_eq!(chunks.len(), 2);
    assert_eq!(chunks[0].text, words(20, "w"));
    assert_eq!(chunks[1].text, words(20, "w"));
}

#[test]
fn chunking_reconstructs_word_sequence() {
    let content = "a bb ccc dddd eeeee ffffff g hh iii jjjj";
    let chunks = chunk_file("x.txt", content, 3);
    assert_eq!(chunks.len(), 4);
    let mut rebuilt: Vec<String> = Vec::new();
    for c in &chunks {
        rebuilt.extend(split_words(&c.text));
        assert!(split_words(&c.text).len() <= 3);
        assert!(!split_words(&c.text).is_empty());
    }
    assert_eq!(rebuilt, split_words(content));
}

#[test]
fn chunking_empty_file_contributes_nothing() {
    let chunks = chunk_file("empty.txt", "   \n ", 20);
    assert!(chunks.is_empty());
}

#[test]
fn extract_chunks_counts_contributing_files() {
    let files = vec![
        FileText { path: "a.txt".to_string(), content: words(25, "alpha") },
        FileText { path: "empty.md".to_string(), content: "  ".to_string() },
        FileText { path: "b.md".to_string(), content: "unrelated content only".to_string() },
    ];
    let (chunks, file_count) = extract_chunks(&files, 20);
    assert_eq!(chunks.len(), 3);
    assert_eq!(file_count, 2);
    assert_eq!(chunks[0].path, "a.txt");
    assert_eq!(chunks[1].path, "a.txt");
    assert_eq!(chunks[2].path, "b.md");
}

#[test]
fn batches_align_for_several_sizes() {
    let texts: Vec<String> = (0..30).map(|i| format!("t{}", i)).collect();
    for size in [1usize, 7, 128] {
        let batches = batch_texts(&texts, size);
        let expected_batches = (texts.len() + size - 1) / size;
        assert_eq!(batches.len(), expected_batches);
        let mut flat: Vec<String> = Vec::new();
        for b in &batches {
            assert!(b.len() <= size);
            flat.extend(b.iter().cloned());
        }
        assert_eq!(flat, texts);
        for (i, t) in texts.iter().enumerate() {
            assert_eq!(&batches[i / size][i % size], t);
        }
    }
}

#[test]
fn batches_full_except_last() {
    let texts: Vec<String> = (0..20).map(|i| format!("t{}", i)).collect();
    let batches = batch_texts(&texts, 7);
    assert_eq!(batches.len(), 3);
    assert_eq!(batches[0].len(), 7);
    assert_eq!(batches[1].len(), 7);
    assert_eq!(batches[2].len(), 6);
}

fn scored(score: f32, path: &str, text: &str) -> ScoredChunk {
    ScoredChunk {
        score_bits: score.to_bits(),
        path: path.to_string(),
        text: text.to_string(),
    }
}

#[test]
fn key_orders_like_floats() {
    assert!(key_of(1.0f32.to_bits()) > key_of(0.5f32.to_bits()));
    assert!(key_of(0.5f32.to_bits()) > key_of(0.0f32.to_bits()));
    assert!(key_of(0.0f32.to_bits()) > key_of((-0.5f32).to_bits()));
    assert!(key_of((-0.5f32).to_bits()) > key_of((-1.0f32).to_bits()));
    assert!(key_of(f32::INFINITY.to_bits()) > key_of(f32::MAX.to_bits()));
    assert!(key_of(f32::MIN.to_bits()) > key_of(f32::NEG_INFINITY.to_bits()));
    assert_eq!(key_of(0.75f32.to_bits()), key_of(0.75f32.to_bits()));
}

#[test]
fn key_ranks_nan_below_everything() {
    let nan = f32::NAN.to_bits();
    assert_eq!(key_of(nan), 0);
    assert!(key_of(f32::NEG_INFINITY.to_bits()) > key_of(nan));
    assert!(key_of((-1.0f32).to_bits()) > key_of(nan));
}

#[test]
fn sort_is_descending_and_keeps_pairings() {
    let input = vec![
        scored(0.3, "c", "third"),
        scored(0.9, "a", "first"),
        scored(f32::NAN, "e", "last"),
        scored(-0.5, "d", "fourth"),
        scored(1.0, "z", "zeroth"),
    ];
    let out = sort_by_score(input);
    assert_eq!(out.len(), 5);
    let texts: Vec<&str> = out.iter().map(|c| c.text.as_str()).collect();
    assert_eq!(texts, vec!["zeroth", "first", "third", "fourth", "last"]);
    assert_eq!(out[0].path, "z");
    assert_eq!(out[4].path, "e");
    for w in out.windows(2) {
        assert!(key_of(w[0].score_bits) >= key_of(w[1].score_bits));
    }
}

#[test]
fn sort_handles_ties_and_zero_norm_scores() {
    // Degenerate chunks score exactly 0.0; they must sort below positive
    // scores and above negative ones without any panic.
    let input = vec![
        scored(0.0, "p", "zero one"),
        scored(0.7, "q", "pos"),
        scored(0.0, "r", "zero two"),
        scored(-0.2, "s", "neg"),
    ];
    let out = sort_by_score(input);
    assert_eq!(out[0].text, "pos");
    assert_eq!(out[3].text, "neg");
    assert!(out[1].text.starts_with("zero"));
    assert!(out[2].text.starts_with("zero"));
}

#[test]
fn take_top_limits_and_is_idempotent() {
    let ranked = vec![
        scored(0.9, "a", "1"),
        scored(0.8, "b", "2"),
        scored(0.7, "c", "3"),
    ];
    let top2 = take_top(ranked, 2);
    assert_eq!(top2.len(), 2);
    assert_eq!(top2[0].text, "1");
    assert_eq!(top2[1].text, "2");
    let again = take_top(top2, 2);
    assert_eq!(again.len(), 2);
    assert_eq!(again[0].text, "1");
    assert_eq!(again[1].text, "2");
}

#[test]
fn take_top_with_large_limit_returns_all_in_order() {
    let ranked = vec![scored(0.9, "a", "1"), scored(0.8, "b", "2")];
    let all = take_top(ranked, 10);
    assert_eq!(all.len(), 2);
    assert_eq!(all[0].text, "1");
    assert_eq!(all[1].text, "2");
}

#[test]
fn take_top_zero_returns_empty() {
    let ranked = vec![scored(0.9, "a", "1")];
    let none = take_top(ranked, 0);
    assert!(none.is_empty());
}

#[test]
fn score_chunks_keeps_index_alignment() {
    let chunks = chunk_file("a.txt", "one two three", 1);
    let bits = vec![0.1f32.to_bits(), 0.2f32.to_bits(), 0.3f32.to_bits()];
    let paired = score_chunks(&chunks, &bits);
    assert_eq!(paired.len(), 3);
    for (i, p) in paired.iter().enumerate() {
        assert_eq!(p.score_bits, bits[i]);
        assert_eq!(p.text, chunks[i].text);
        assert_eq!(p.path, "a.txt");
    }
}

#[test]
fn two_file_scenario_ranks_matching_file_first() {
    // A directory with two files: 25 words of "alpha" ending in "beta",
    // and an unrelated file.  With chunk size 20 and limit 10, the two
    // chunks of a.txt outrank the chunk of b.md for the query "alpha".
    let mut a_content = words(24, "alpha");
    a_content.push_str(" beta");
    let files = vec![
        FileText { path: "a.txt".to_string(), content: a_content },
        FileText { path: "b.md".to_string(), content: "unrelated content only".to_string() },
    ];
    let (chunks, file_count) = extract_chunks(&files, 20);
    assert_eq!(file_count, 2);
    assert_eq!(chunks.len(), 3);
    // Stand-in similarity against the query "alpha": a score per chunk,
    // higher for chunks that mention the query word.
    let bits: Vec<u32> = chunks
        .iter()
        .map(|c| if c.text.contains("alpha") { 0.9f32 } else { 0.1f32 }.to_bits())
        .collect();
    let top = rank_and_select(&chunks, &bits, 10);
    assert_eq!(top.len(), 3);
    assert_eq!(top[0].path, "a.txt");
    assert_eq!(top[1].path, "a.txt");
    assert_eq!(top[2].path, "b.md");
}

#[test]
fn rank_and_select_respects_limit() {
    let chunks = chunk_file("a.txt", "one two three four", 1);
    let bits = vec![
        0.1f32.to_bits(),
        0.4f32.to_bits(),
        0.2f32.to_bits(),
        0.3f32.to_bits(),
    ];
    let top = rank_and_select(&chunks, &bits, 2);
    assert_eq!(top.len(), 2);
    assert_eq!(top[0].text, "two");
    assert_eq!(top[1].text, "four");
}

#[test]
fn path_rendering_escapes_reserved_bytes() {
    let path = "/tmp/a b#c.txt".as_bytes().to_vec();
    let uri = format_path_for_terminal(&path);
    assert_eq!(String::from_utf8(uri).unwrap(), "file:///tmp/a%20b%23c.txt");
}

#[test]
fn path_rendering_escapes_non_ascii_and_controls() {
    let path: Vec<u8> = vec![b'/', 0x07, b'x', 0xC3, 0xA9];
    let uri = format_path_for_terminal(&path);
    assert_eq!(String::from_utf8(uri).unwrap(), "file:///%07x%C3%A9");
}

#[test]
fn path_rendering_keeps_plain_ascii() {
    let path = "/home/user/notes.md".as_bytes().to_vec();
    let uri = format_path_for_terminal(&path);
    assert_eq!(String::from_utf8(uri).unwrap(), "file:///home/user/notes.md");
}

#[test]
fn split_words_matches_std_split_whitespace() {
    let samples = [
        "",
        "   ",
        "plain",
        "  lead and trail  ",
        "a\u{00A0}b\u{2028}c \u{3000}d",
        "x\ty\r\nz\u{000B}w",
        "\u{85}\u{1680}word\u{205F}other\u{200A}",
    ];
    for s in samples {
        let expected: Vec<String> = s.split_whitespace().map(str::to_string).collect();
        assert_eq!(split_words(s), expected);
    }
}

#[test]
fn path_rendering_matches_percent_encoding_crate() {
    let set: &'static percent_encoding::AsciiSet = Box::leak(Box::new(percent_encoding::CONTROLS
        .add(b' ')
        .add(b'"')
        .add(b'<')
        .add(b'>')
        .add(b'?')
        .add(b'`')
        .add(b'{')
        .add(b'}')
        .add(b'#')));
    let samples = [
        "/tmp/a b#c.txt",
        "/home/user/r\u{00E9}sum\u{00E9} <draft>?.md",
        "/x/{y}/`z\"/plain-path_1.org",
    ];
    for p in samples {
        let expected = format!("file://{}", percent_encoding::utf8_percent_encode(p, set));
        let rendered = format_path_for_terminal(&p.as_bytes().to_vec());
        assert_eq!(String::from_utf8(rendered).unwrap(), expected);
    }
}

#[test]
fn extension_matching_is_case_sensitive_and_exact() {
    let accepted = vec![
        "txt".to_string(),
        "md".to_string(),
        "mdx".to_string(),
        "org".to_string(),
    ];
    assert!(is_accepted_extension("txt", &accepted));
    assert!(is_accepted_extension("org", &accepted));
    assert!(!is_accepted_extension("TXT", &accepted));
    assert!(!is_accepted_extension("rs", &accepted));
    assert!(!is_accepted_extension("", &accepted));
}
