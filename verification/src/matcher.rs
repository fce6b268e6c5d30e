//! The approximate matcher: a BK-tree over the indexed vocabulary, queried
//! for the nearest word within an edit-distance tolerance.  Among equally
//! near words the lexicographically least is chosen, so correction is
//! deterministic for a fixed vocabulary and query word.

use crate::distance::word_dist;
use crate::order::lex_le;
use crate::order::lemma_lex_le_antisymmetric;
use crate::order::lemma_lex_le_total;
use crate::order::lemma_lex_le_transitive;
use crate::order::str_lex_le;
use vstd::prelude::*;

verus! {

#[verifier::external_type_specification]
#[verifier::external_body]
#[verifier::reject_recursive_types(K)]
#[verifier::reject_recursive_types(M)]
pub struct ExBKTree<K, M>(bk_tree::BKTree<K, M>);

#[verifier::external_type_specification]
#[verifier::external_body]
pub struct ExLevenshtein(bk_tree::metrics::Levenshtein);

/// The largest usable edit tolerance.  The tree's traversal adds the
/// tolerance to a stored 32-bit distance when it bounds a subtree, so the
/// tolerance must leave that sum headroom.
pub const MAX_TOLERANCE: u32 = 0x7fffffff;

/// The set of words a tree holds.
pub uninterp spec fn tree_words(
    t: bk_tree::BKTree<String, bk_tree::metrics::Levenshtein>,
) -> Set<Seq<char>>;

/// Relies on `bk_tree::BKTree::new`: the new tree holds nothing.
#[verifier::external_body]
pub(crate) fn tree_new() -> (t: bk_tree::BKTree<String, bk_tree::metrics::Levenshtein>)
    ensures
        tree_words(t) == Set::<Seq<char>>::empty(),
{
    bk_tree::BKTree::new(bk_tree::metrics::Levenshtein)
}

/// Relies on `bk_tree::BKTree::add`: inserts the word; a word already held
/// (metric distance zero) is kept once.
#[verifier::external_body]
pub(crate) fn tree_add(t: &mut bk_tree::BKTree<String, bk_tree::metrics::Levenshtein>, w: String)
    ensures
        tree_words(*final(t)) == tree_words(*old(t)).insert(w@),
{
    t.add(w);
}

/// Relies on `bk_tree::BKTree::find` with its Levenshtein metric, which
/// measures byte-level edit distance over UTF-8: yields exactly the held
/// words within `tol` edits of `w`, each with its distance.  The traversal
/// computes a per-node cutoff as a stored distance plus `tol` in 32 bits,
/// so an oversized tolerance is excluded rather than risking that sum.
#[verifier::external_body]
pub(crate) fn tree_find(
    t: &bk_tree::BKTree<String, bk_tree::metrics::Levenshtein>,
    w: &str,
    tol: u32,
) -> (r: Vec<(u32, String)>)
    requires
        tol <= MAX_TOLERANCE,
    ensures
        forall|i: int|
            0 <= i < r@.len() ==> tree_words(*t).contains((#[trigger] r@[i]).1@) && r@[i].0 as nat
                == word_dist(w@, r@[i].1@) && r@[i].0 <= tol,
        forall|v: Seq<char>|
            tree_words(*t).contains(v) && word_dist(w@, v) <= tol as nat ==> exists|i: int|
                0 <= i < r@.len() && (#[trigger] r@[i]).1@ == v,
{
    t.find(w, tol).map(|(d, k)| (d, k.clone())).collect()
}

/// `v` is a vocabulary word within `tol` edits of the query word `q`.
pub open spec fn within_tol(vocab: Set<Seq<char>>, q: Seq<char>, tol: nat, v: Seq<char>) -> bool {
    vocab.contains(v) && word_dist(q, v) <= tol
}

/// `v` comes no later than `u` in the correction order for query word `q`:
/// strictly smaller distance, or equal distance and lexicographically no
/// greater.
pub open spec fn nearer_eq(q: Seq<char>, v: Seq<char>, u: Seq<char>) -> bool {
    word_dist(q, v) < word_dist(q, u) || (word_dist(q, v) == word_dist(q, u) && lex_le(v, u))
}

/// `v` is the correction chosen for `q`: within tolerance, and no later in
/// the correction order than any other word within tolerance.
pub open spec fn best_match(vocab: Set<Seq<char>>, q: Seq<char>, tol: nat, v: Seq<char>) -> bool {
    within_tol(vocab, q, tol, v) && forall|u: Seq<char>|
        within_tol(vocab, q, tol, u) ==> nearer_eq(q, v, u)
}

/// At most one word is the chosen correction.
pub proof fn lemma_best_match_unique(
    vocab: Set<Seq<char>>,
    q: Seq<char>,
    tol: nat,
    v1: Seq<char>,
    v2: Seq<char>,
)
    requires
        best_match(vocab, q, tol, v1),
        best_match(vocab, q, tol, v2),
    ensures
        v1 == v2,
{
    assert(nearer_eq(q, v1, v2));
    assert(nearer_eq(q, v2, v1));
    lemma_lex_le_antisymmetric(v1, v2);
}

/// The correction order is transitive.
proof fn lemma_nearer_eq_transitive(q: Seq<char>, a: Seq<char>, b: Seq<char>, c: Seq<char>)
    requires
        nearer_eq(q, a, b),
        nearer_eq(q, b, c),
    ensures
        nearer_eq(q, a, c),
{
    if word_dist(q, a) == word_dist(q, b) && word_dist(q, b) == word_dist(q, c) {
        lemma_lex_le_transitive(a, b, c);
    }
}

/// The nearest held word within `tol` edits of `q`, if any: the one with
/// the least distance, ties resolved toward the lexicographically least
/// word.
pub fn nearest(
    t: &bk_tree::BKTree<String, bk_tree::metrics::Levenshtein>,
    q: &str,
    tol: u32,
) -> (r: Option<String>)
    requires
        tol <= MAX_TOLERANCE,
    ensures
        match r {
            Some(w) => best_match(tree_words(*t), q@, tol as nat, w@),
            None => forall|v: Seq<char>| !within_tol(tree_words(*t), q@, tol as nat, v),
        },
{
    let cands = tree_find(t, q, tol);
    let mut have: bool = false;
    let mut best_d: u32 = 0;
    let mut best_w: String = String::new();
    let n = cands.len();
    let mut i: usize = 0;
    while i < n
        invariant
            n == cands@.len(),
            i <= n,
            forall|j: int|
                0 <= j < n ==> tree_words(*t).contains((#[trigger] cands@[j]).1@) && cands@[j].0
                    as nat == word_dist(q@, cands@[j].1@) && cands@[j].0 <= tol,
            have <==> i > 0,
            have ==> tree_words(*t).contains(best_w@) && word_dist(q@, best_w@) <= tol as nat
                && best_d as nat == word_dist(q@, best_w@),
            have ==> forall|j: int| 0 <= j < i ==> nearer_eq(q@, best_w@, cands@[j].1@),
        decreases n - i,
    {
        let d = cands[i].0;
        let take_it = if !have {
            true
        } else if d < best_d {
            true
        } else if d == best_d {
            str_lex_le(cands[i].1.as_str(), best_w.as_str())
        } else {
            false
        };
        if take_it {
            let ghost old_have = have;
            let ghost old_best = best_w@;
            let ghost old_d = best_d;
            best_d = d;
            best_w = cands[i].1.clone();
            proof {
                assert(best_w@ == cands@[i as int].1@);
                assert(word_dist(q@, best_w@) == d as nat);
                if old_have {
                    assert(word_dist(q@, old_best) == old_d as nat);
                    assert(nearer_eq(q@, best_w@, old_best));
                }
                if old_have {
                    assert forall|j: int| 0 <= j < i + 1 implies nearer_eq(
                        q@,
                        best_w@,
                        cands@[j].1@,
                    ) by {
                        if j < i {
                            lemma_nearer_eq_transitive(q@, best_w@, old_best, cands@[j].1@);
                        } else {
                            lemma_lex_le_total(best_w@, best_w@);
                        }
                    }
                } else {
                    assert forall|j: int| 0 <= j < i + 1 implies nearer_eq(
                        q@,
                        best_w@,
                        cands@[j].1@,
                    ) by {
                        lemma_lex_le_total(best_w@, best_w@);
                    }
                }
            }
        } else {
            proof {
                assert(word_dist(q@, cands@[i as int].1@) == d as nat);
                assert(nearer_eq(q@, best_w@, cands@[i as int].1@)) by {
                    if d == best_d {
                        lemma_lex_le_total(best_w@, cands@[i as int].1@);
                    }
                }
            }
        }
        have = true;
        i = i + 1;
    }
    if have {
        proof {
            assert forall|u: Seq<char>|
                within_tol(tree_words(*t), q@, tol as nat, u) implies nearer_eq(
                q@,
                best_w@,
                u,
            ) by {
                let j = choose|j: int| 0 <= j < cands@.len() && (#[trigger] cands@[j]).1@ == u;
                assert(nearer_eq(q@, best_w@, cands@[j].1@));
            }
        }
        Some(best_w)
    } else {
        proof {
            assert forall|v: Seq<char>| true implies !within_tol(
                tree_words(*t),
                q@,
                tol as nat,
                v,
            ) by {
                if within_tol(tree_words(*t), q@, tol as nat, v) {
                    let j = choose|j: int|
                        0 <= j < cands@.len() && (#[trigger] cands@[j]).1@ == v;
                    assert(0 <= j < 0);
                }
            }
        }
        None
    }
}

} // verus!
