//! Splitting text into whitespace-delimited words, and joining words back
//! together with single spaces.
//!
//! The model is a left-to-right scan: `scan_words` folds a character
//! sequence into the words completed so far plus the word currently being
//! read; `words_of` closes the scan.  `split_words` is the executable
//! counterpart, proved to return exactly `words_of` of its input.

use vstd::prelude::*;

verus! {

/// Whitespace, following the Unicode `White_Space` property that
/// `str::split_whitespace` splits on.
pub open spec fn is_space(c: char) -> bool {
    c == '\u{0009}' || c == '\u{000A}' || c == '\u{000B}' || c == '\u{000C}'
        || c == '\u{000D}' || c == '\u{0020}' || c == '\u{0085}' || c == '\u{00A0}'
        || c == '\u{1680}' || c == '\u{2000}' || c == '\u{2001}' || c == '\u{2002}'
        || c == '\u{2003}' || c == '\u{2004}' || c == '\u{2005}' || c == '\u{2006}'
        || c == '\u{2007}' || c == '\u{2008}' || c == '\u{2009}' || c == '\u{200A}'
        || c == '\u{2028}' || c == '\u{2029}' || c == '\u{202F}' || c == '\u{205F}'
        || c == '\u{3000}'
}

/// State of a left-to-right word scan over `s`: the words completed so
/// far, and the (possibly empty) word currently being read.
pub open spec fn scan_words(s: Seq<char>) -> (Seq<Seq<char>>, Seq<char>)
    decreases s.len(),
{
    if s.len() == 0 {
        (Seq::empty(), Seq::empty())
    } else {
        let prior = scan_words(s.drop_last());
        let c = s.last();
        if is_space(c) {
            if prior.1.len() == 0 {
                (prior.0, Seq::empty())
            } else {
                (prior.0.push(prior.1), Seq::empty())
            }
        } else {
            (prior.0, prior.1.push(c))
        }
    }
}

/// The whitespace-delimited words of `s`, in order.
pub open spec fn words_of(s: Seq<char>) -> Seq<Seq<char>> {
    let scanned = scan_words(s);
    if scanned.1.len() == 0 {
        scanned.0
    } else {
        scanned.0.push(scanned.1)
    }
}

/// A word is a non-empty run of non-whitespace characters.
pub open spec fn is_word(w: Seq<char>) -> bool {
    w.len() > 0 && forall|i: int| 0 <= i < w.len() ==> !is_space(#[trigger] w[i])
}

/// `ws` joined with a single space between consecutive words.
pub open spec fn join_words(ws: Seq<Seq<char>>) -> Seq<char>
    decreases ws.len(),
{
    if ws.len() == 0 {
        Seq::empty()
    } else if ws.len() == 1 {
        ws[0]
    } else {
        join_words(ws.drop_last()) + seq![' '] + ws.last()
    }
}

/// Every completed word of a scan is a word, and the pending word holds
/// no whitespace.
pub proof fn lemma_scan_words_are_words(s: Seq<char>)
    ensures
        forall|i: int|
            0 <= i < scan_words(s).0.len() ==> is_word(#[trigger] scan_words(s).0[i]),
        forall|i: int|
            0 <= i < scan_words(s).1.len() ==> !is_space(#[trigger] scan_words(s).1[i]),
    decreases s.len(),
{
    if s.len() > 0 {
        lemma_scan_words_are_words(s.drop_last());
        let prior = scan_words(s.drop_last());
        let c = s.last();
        if is_space(c) {
            if prior.1.len() > 0 {
                assert(is_word(prior.1));
                assert(scan_words(s).0 == prior.0.push(prior.1));
                assert(forall|i: int|
                    0 <= i < prior.0.len() ==> #[trigger] prior.0.push(prior.1)[i]
                        == prior.0[i]);
            }
        } else {
            assert(scan_words(s).1 == prior.1.push(c));
            assert(forall|i: int|
                0 <= i < prior.1.len() ==> #[trigger] prior.1.push(c)[i] == prior.1[i]);
        }
    }
}

/// Every word reported by `words_of` is non-empty and free of whitespace.
pub proof fn lemma_words_of_are_words(s: Seq<char>)
    ensures
        forall|i: int| 0 <= i < words_of(s).len() ==> is_word(#[trigger] words_of(s)[i]),
{
    lemma_scan_words_are_words(s);
}

/// Scanning past appended non-whitespace characters only extends the
/// pending word.
proof fn lemma_scan_append_word(s: Seq<char>, w: Seq<char>)
    requires
        forall|i: int| 0 <= i < w.len() ==> !is_space(#[trigger] w[i]),
    ensures
        scan_words(s + w).0 == scan_words(s).0,
        scan_words(s + w).1 =~= scan_words(s).1 + w,
    decreases w.len(),
{
    if w.len() == 0 {
        assert(s + w =~= s);
        assert(scan_words(s).1 + w =~= scan_words(s).1);
    } else {
        lemma_scan_append_word(s, w.drop_last());
        assert((s + w).drop_last() =~= s + w.drop_last());
        assert((s + w).last() == w.last());
        assert((scan_words(s).1 + w.drop_last()).push(w.last()) =~= scan_words(s).1 + w);
    }
}

/// The scan of a joined word sequence ends just after the last word.
proof fn lemma_scan_join(ws: Seq<Seq<char>>)
    requires
        forall|i: int| 0 <= i < ws.len() ==> is_word(#[trigger] ws[i]),
    ensures
        ws.len() == 0 ==> scan_words(join_words(ws)) == (
            Seq::<Seq<char>>::empty(),
            Seq::<char>::empty(),
        ),
        ws.len() > 0 ==> scan_words(join_words(ws)) == (ws.drop_last(), ws.last()),
    decreases ws.len(),
{
    if ws.len() == 1 {
        assert(Seq::<char>::empty() + ws[0] =~= ws[0]);
        lemma_scan_append_word(Seq::<char>::empty(), ws[0]);
        assert(scan_words(join_words(ws)).0 =~= ws.drop_last());
        assert(scan_words(join_words(ws)).1 =~= ws.last());
    } else if ws.len() > 1 {
        let dl = ws.drop_last();
        lemma_scan_join(dl);
        let a = join_words(dl);
        let b = a + seq![' '];
        assert(b.drop_last() =~= a);
        assert(is_space(b.last()));
        assert(scan_words(b).0 =~= dl.drop_last().push(dl.last()));
        assert(dl.drop_last().push(dl.last()) =~= dl);
        assert(scan_words(b).1 =~= Seq::<char>::empty());
        lemma_scan_append_word(b, ws.last());
        assert(b + ws.last() =~= join_words(ws));
        assert(scan_words(join_words(ws)).1 =~= Seq::<char>::empty() + ws.last());
        assert(Seq::<char>::empty() + ws.last() =~= ws.last());
    }
}

/// Round trip: splitting a joined sequence of words gives the words back.
pub proof fn lemma_words_of_join(ws: Seq<Seq<char>>)
    requires
        forall|i: int| 0 <= i < ws.len() ==> is_word(#[trigger] ws[i]),
    ensures
        words_of(join_words(ws)) =~= ws,
{
    lemma_scan_join(ws);
    if ws.len() > 0 {
        assert(ws.last().len() > 0);
        assert(words_of(join_words(ws)) == ws.drop_last().push(ws.last()));
        assert(ws.drop_last().push(ws.last()) =~= ws);
    }
}

/// Executable word membership test.
pub fn is_space_char(c: char) -> (r: bool)
    ensures
        r == is_space(c),
{
    c == '\u{0009}' || c == '\u{000A}' || c == '\u{000B}' || c == '\u{000C}'
        || c == '\u{000D}' || c == '\u{0020}' || c == '\u{0085}' || c == '\u{00A0}'
        || c == '\u{1680}' || c == '\u{2000}' || c == '\u{2001}' || c == '\u{2002}'
        || c == '\u{2003}' || c == '\u{2004}' || c == '\u{2005}' || c == '\u{2006}'
        || c == '\u{2007}' || c == '\u{2008}' || c == '\u{2009}' || c == '\u{200A}'
        || c == '\u{2028}' || c == '\u{2029}' || c == '\u{202F}' || c == '\u{205F}'
        || c == '\u{3000}'
}

/// Split `content` into its whitespace-delimited words.
pub fn split_words(content: &str) -> (words: Vec<String>)
    ensures
        words.deep_view() == words_of(content@),
{
    let n: usize = content.unicode_len();
    let mut words: Vec<String> = Vec::new();
    let mut start: usize = 0;
    let mut in_word: bool = false;
    let mut i: usize = 0;
    while i < n
        invariant
            i <= n,
            n == content@.len(),
            in_word ==> start < i,
            in_word ==> scan_words(content@.take(i as int)) == (
                words.deep_view(),
                content@.subrange(start as int, i as int),
            ),
            !in_word ==> scan_words(content@.take(i as int)) == (
                words.deep_view(),
                Seq::<char>::empty(),
            ),
        decreases n - i,
    {
        let c = content.get_char(i);
        proof {
            assert(content@.take(i + 1).drop_last() =~= content@.take(i as int));
            assert(content@.take(i + 1).last() == content@[i as int]);
        }
        if is_space_char(c) {
            if in_word {
                let w = content.substring_char(start, i);
                let owned: String = w.to_owned();
                let ghost prior_words = words.deep_view();
                words.push(owned);
                proof {
                    assert(words.deep_view() =~= prior_words.push(owned@));
                }
                in_word = false;
            }
        } else {
            if !in_word {
                start = i;
                in_word = true;
            }
            proof {
                assert(content@.subrange(start as int, i + 1) =~= content@.subrange(
                    start as int,
                    i as int,
                ).push(content@[i as int]));
            }
        }
        i = i + 1;
    }
    proof {
        assert(content@.take(n as int) =~= content@);
    }
    if in_word {
        let w = content.substring_char(start, n);
        let owned: String = w.to_owned();
        let ghost prior_words = words.deep_view();
        words.push(owned);
        proof {
            assert(words.deep_view() =~= prior_words.push(owned@));
        }
    }
    words
}

/// Join `words` with single spaces; used for chunk texts and for the
/// query string assembled from its words.
pub fn join_with_spaces(words: &Vec<String>) -> (joined: String)
    ensures
        joined@ == join_words(words.deep_view()),
{
    let ghost dv = words.deep_view();
    let mut joined = String::new();
    let mut i: usize = 0;
    while i < words.len()
        invariant
            i <= words.len(),
            dv == words.deep_view(),
            joined@ == join_words(dv.take(i as int)),
        decreases words.len() - i,
    {
        proof {
            assert(dv.take(i + 1).drop_last() =~= dv.take(i as int));
            assert(dv.take(i + 1).last() == dv[i as int]);
        }
        if i > 0 {
            joined.append(" ");
            proof {
                reveal_strlit(" ");
                assert(" "@ =~= seq![' ']);
            }
        }
        joined.append(words[i].as_str());
        proof {
            if i == 0 {
                assert(joined@ =~= dv[0]);
                assert(join_words(dv.take(1)) == dv.take(1)[0]);
            } else {
                assert(dv.take(i + 1).len() >= 2);
                assert(joined@ =~= join_words(dv.take(i as int)) + seq![' '] + dv[i as int]);
            }
            assert(joined@ =~= join_words(dv.take(i + 1)));
        }
        i = i + 1;
    }
    proof {
        assert(dv.take(words@.len() as int) =~= dv);
    }
    joined
}

} // verus!
