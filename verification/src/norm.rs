//! Text normalization: Unicode word segmentation followed by a repeated
//! case-fold / decompose pipeline, so that surface strings that differ only
//! in case or composition collide to the same word token.
//!
//! Indexing and querying share this pipeline; that both sides normalize
//! identically is the core correctness invariant of the search index.

use caseless::Caseless;
use unicode_normalization::UnicodeNormalization;
use unicode_segmentation::UnicodeSegmentation;
use vstd::prelude::*;

verus! {

/// Canonical decomposition (NFD) of a character sequence.
pub uninterp spec fn nfd_of(s: Seq<char>) -> Seq<char>;

/// Compatibility decomposition (NFKD) of a character sequence.
pub uninterp spec fn nfkd_of(s: Seq<char>) -> Seq<char>;

/// Unicode default case fold of a character sequence.
pub uninterp spec fn case_fold_of(s: Seq<char>) -> Seq<char>;

/// The word tokens of a text under Unicode word segmentation.
pub uninterp spec fn words_of(s: Seq<char>) -> Seq<Seq<char>>;

/// The full normalization applied to one word: decompose, case-fold,
/// decompose again, case-fold again, decompose once more.  One pass can
/// leave residual case or composition differences; the second resolves
/// them.  Tokens stay in decomposed form, so a query typed without the
/// combining marks is still a prefix of the indexed word.
pub open spec fn fold_full(s: Seq<char>) -> Seq<char> {
    nfkd_of(case_fold_of(nfkd_of(case_fold_of(nfd_of(s)))))
}

/// The normalized word tokens of a text: segmentation, then `fold_full`
/// on each token.
pub open spec fn norm_words(s: Seq<char>) -> Seq<Seq<char>> {
    words_of(s).map_values(|w: Seq<char>| fold_full(w))
}

/// Relies on `unicode_normalization::UnicodeNormalization::nfd`: canonical
/// decomposition, a function of the input characters alone.
#[verifier::external_body]
fn nfd_str(s: &str) -> (r: String)
    ensures
        r@ == nfd_of(s@),
{
    s.nfd().collect()
}

/// Relies on `unicode_normalization::UnicodeNormalization::nfkd`:
/// compatibility decomposition, a function of the input characters alone.
#[verifier::external_body]
fn nfkd_str(s: &str) -> (r: String)
    ensures
        r@ == nfkd_of(s@),
{
    s.nfkd().collect()
}

/// Relies on `caseless::Caseless::default_case_fold`: Unicode default case
/// folding, a function of the input characters alone.
#[verifier::external_body]
fn case_fold_str(s: &str) -> (r: String)
    ensures
        r@ == case_fold_of(s@),
{
    s.chars().default_case_fold().collect()
}

/// Relies on `unicode_segmentation::UnicodeSegmentation::unicode_words`:
/// locale-agnostic word segmentation, a function of the input characters
/// alone.
#[verifier::external_body]
fn split_unicode_words(text: &str) -> (r: Vec<String>)
    ensures
        r.deep_view() == words_of(text@),
{
    text.unicode_words().map(|w| w.to_string()).collect()
}

/// Normalizes a single word: the double fold/decompose pipeline.
pub fn nfkd_case_fold(text: &str) -> (r: String)
    ensures
        r@ == fold_full(text@),
{
    let a = nfd_str(text);
    let b = case_fold_str(a.as_str());
    let c = nfkd_str(b.as_str());
    let d = case_fold_str(c.as_str());
    nfkd_str(d.as_str())
}

/// Turns raw text into its sequence of normalized word tokens,
/// order-preserving, duplicates kept.
pub fn normalize(text: &str) -> (r: Vec<String>)
    ensures
        r.deep_view() == norm_words(text@),
{
    let raw = split_unicode_words(text);
    let mut out: Vec<String> = Vec::new();
    let mut i: usize = 0;
    while i < raw.len()
        invariant
            i <= raw.len(),
            raw.deep_view() == words_of(text@),
            out@.len() == i,
            forall|j: int| 0 <= j < i ==> out@[j]@ == norm_words(text@)[j],
        decreases raw.len() - i,
    {
        proof {
            assert(raw.deep_view()[i as int] == raw@[i as int]@);
        }
        let w = nfkd_case_fold(raw[i].as_str());
        out.push(w);
        i = i + 1;
    }
    proof {
        assert(out.deep_view() =~= norm_words(text@));
    }
    out
}

/// The words joined back into one display string, separated by single
/// spaces.
pub open spec fn join_spaced(ws: Seq<Seq<char>>) -> Seq<char>
    decreases ws.len(),
{
    if ws.len() == 0 {
        Seq::empty()
    } else if ws.len() == 1 {
        ws[0]
    } else {
        ws[0] + seq![' '] + join_spaced(ws.drop_first())
    }
}

proof fn lemma_join_push(ws: Seq<Seq<char>>, w: Seq<char>)
    ensures
        join_spaced(ws.push(w)) == if ws.len() == 0 {
            w
        } else {
            join_spaced(ws) + seq![' '] + w
        },
    decreases ws.len(),
{
    if ws.len() == 0 {
        assert(ws.push(w)[0] == w);
        assert(join_spaced(ws.push(w)) == w);
    } else if ws.len() == 1 {
        assert(ws.push(w).drop_first() =~= seq![w]);
        assert(seq![w].len() == 1);
        assert(join_spaced(seq![w]) == w);
        assert(ws.push(w)[0] == ws[0]);
        assert(join_spaced(ws.push(w)) == ws[0] + seq![' '] + w);
    } else {
        assert(ws.push(w).drop_first() =~= ws.drop_first().push(w));
        lemma_join_push(ws.drop_first(), w);
        assert(join_spaced(ws.push(w)) == ws[0] + seq![' '] + (join_spaced(ws.drop_first())
            + seq![' '] + w));
        assert(ws[0] + seq![' '] + (join_spaced(ws.drop_first()) + seq![' '] + w) =~= (ws[0]
            + seq![' '] + join_spaced(ws.drop_first())) + seq![' '] + w);
    }
}

/// Joins words into one space-separated display string.
pub fn join_words(words: &Vec<String>) -> (r: String)
    ensures
        r@ == join_spaced(words.deep_view()),
{
    let mut out = String::new();
    let mut i: usize = 0;
    while i < words.len()
        invariant
            i <= words.len(),
            out@ == join_spaced(words.deep_view().take(i as int)),
        decreases words.len() - i,
    {
        proof {
            assert(words.deep_view()[i as int] == words@[i as int]@);
            assert(words.deep_view().take(i as int).push(words.deep_view()[i as int])
                =~= words.deep_view().take(i as int + 1));
            lemma_join_push(words.deep_view().take(i as int), words.deep_view()[i as int]);
        }
        if i > 0 {
            out.append(" ");
            proof {
                reveal_strlit(" ");
                assert(" "@ =~= seq![' ']);
            }
        }
        out.append(words[i].as_str());
        i = i + 1;
    }
    proof {
        assert(words.deep_view().take(words@.len() as int) =~= words.deep_view());
    }
    out
}

} // verus!
