//! The library's stated laws, proved once and for all over the
//! specification functions that the public contracts use.

use crate::index::exact_weight;
use crate::index::prefix_weight;
use crate::index::IndexEntry;
use crate::order::is_prefix_of;
use crate::order::lex_le;
use crate::posting::kw_has;
use crate::search::conj_weight;
use crate::search::lemma_rank_total_ordering;
use crate::search::match_weight;
use crate::search::pair_views;
use crate::search::rank_rel;
use crate::search::ranked_post;
use crate::search::sat_add_many;
use crate::weights::lemma_sat_add_pos;
use crate::weights::lemma_sat_mul_pos;
use vstd::prelude::*;
use vstd::seq_lib::lemma_sorted_unique;

verus! {

broadcast use vstd::seq_lib::group_to_multiset_ensures;

/// Insertion is additive: accumulating `weight` once per occurrence
/// amounts to adding `weight * occurrences`, clamped only at the largest
/// representable weight.
pub proof fn law_weight_additivity(a: u64, weight: u64, n: nat)
    ensures
        sat_add_many(a, weight, n) == if a + weight * n <= u64::MAX {
            (a + weight * n) as u64
        } else {
            u64::MAX
        },
    decreases n,
{
    if n > 0 {
        law_weight_additivity(a, weight, (n - 1) as nat);
        assert(weight * ((n - 1) as nat) + weight == weight * n) by (nonlinear_arith)
            requires
                n >= 1,
        ;
    }
}

proof fn lemma_conj_pos(es: Seq<IndexEntry>, ws: Seq<Seq<char>>, k: Seq<char>)
    ensures
        conj_weight(es, ws, k) > 0 <==> (forall|i: int|
            0 <= i < ws.len() ==> prefix_weight(es, ws[i], k) > 0),
    decreases ws.len(),
{
    if ws.len() > 0 {
        lemma_conj_pos(es, ws.drop_last(), k);
        lemma_sat_mul_pos(conj_weight(es, ws.drop_last(), k), prefix_weight(es, ws.last(), k));
        assert(forall|i: int|
            0 <= i < ws.drop_last().len() ==> #[trigger] ws.drop_last()[i] == ws[i]);
        if conj_weight(es, ws, k) > 0 {
            assert forall|i: int| 0 <= i < ws.len() implies prefix_weight(es, ws[i], k) > 0 by {
                if i < ws.len() - 1 {
                    assert(ws.drop_last()[i] == ws[i]);
                } else {
                    assert(ws.last() == ws[i]);
                }
            }
        }
        if forall|i: int| 0 <= i < ws.len() ==> prefix_weight(es, ws[i], k) > 0 {
            assert(prefix_weight(es, ws.last(), k) > 0);
        }
    }
}

/// Queries are conjunctive: a key matches exactly when every query word's
/// prefix lookup gives it positive weight, and an empty query matches
/// nothing.
pub proof fn law_conjunctive(es: Seq<IndexEntry>, ws: Seq<Seq<char>>, k: Seq<char>)
    ensures
        match_weight(es, ws, k) > 0 <==> (ws.len() > 0 && forall|i: int|
            0 <= i < ws.len() ==> prefix_weight(es, ws[i], k) > 0),
{
    lemma_conj_pos(es, ws, k);
}

/// Prefix matching: a key indexed under a word is reached by every prefix
/// of that word.
pub proof fn law_prefix_reach(es: Seq<IndexEntry>, q: Seq<char>, w: Seq<char>, k: Seq<char>)
    requires
        is_prefix_of(q, w),
        exact_weight(es, w, k) > 0,
    ensures
        prefix_weight(es, q, k) > 0,
    decreases es.len(),
{
    if es.len() > 0 {
        if es[0].word@ == w {
            lemma_sat_add_pos(
                crate::posting::kw_weight(es[0].posting@, k),
                prefix_weight(es.drop_first(), q, k),
            );
        } else {
            law_prefix_reach(es.drop_first(), q, w, k);
            if is_prefix_of(q, es[0].word@) {
                lemma_sat_add_pos(
                    crate::posting::kw_weight(es[0].posting@, k),
                    prefix_weight(es.drop_first(), q, k),
                );
            }
        }
    }
}

/// A one-word query weighs each key exactly as the word's prefix lookup
/// does; with `law_prefix_reach`, a key indexed under any extension of the
/// query word is matched.
pub proof fn law_single_word_query(es: Seq<IndexEntry>, q: Seq<char>, k: Seq<char>)
    ensures
        match_weight(es, seq![q], k) == prefix_weight(es, q, k),
{
    let ws = seq![q];
    assert(ws.drop_last() =~= Seq::<Seq<char>>::empty());
    assert(ws.last() == q);
    assert(conj_weight(es, ws.drop_last(), k) == 1);
    assert(crate::weights::sat_mul_spec(1u64, prefix_weight(es, q, k)) == prefix_weight(
        es,
        q,
        k,
    )) by (nonlinear_arith);
}

/// Query evaluation is deterministic: two finished result lists for the
/// same index and the same normalized query words carry the same keys,
/// the same weights, in the same order.  In particular, two query texts
/// that normalize to the same words receive identical results.
pub proof fn law_results_determined(
    es: Seq<IndexEntry>,
    ws: Seq<Seq<char>>,
    r1: Seq<(String, u64)>,
    r2: Seq<(String, u64)>,
)
    requires
        ranked_post(es, ws, r1),
        ranked_post(es, ws, r2),
    ensures
        pair_views(r1) == pair_views(r2),
{
    let pv1 = pair_views(r1);
    let pv2 = pair_views(r2);
    assert(forall|x: int| 0 <= x < pv1.len() ==> #[trigger] pv1[x] == (r1[x].0@, r1[x].1));
    assert(forall|x: int| 0 <= x < pv2.len() ==> #[trigger] pv2[x] == (r2[x].0@, r2[x].1));
    assert(pv1.no_duplicates()) by {
        assert forall|x: int, y: int|
            0 <= x < pv1.len() && 0 <= y < pv1.len() && x != y implies pv1[x] != pv1[y] by {
            if x < y {
                assert(r1[x].0@ != r1[y].0@);
            } else {
                assert(r1[y].0@ != r1[x].0@);
            }
        }
    }
    assert(pv2.no_duplicates()) by {
        assert forall|x: int, y: int|
            0 <= x < pv2.len() && 0 <= y < pv2.len() && x != y implies pv2[x] != pv2[y] by {
            if x < y {
                assert(r2[x].0@ != r2[y].0@);
            } else {
                assert(r2[y].0@ != r2[x].0@);
            }
        }
    }
    assert forall|p: (Seq<char>, u64)| pv1.contains(p) implies pv2.contains(p) by {
        let x = choose|x: int| 0 <= x < pv1.len() && pv1[x] == p;
        assert(r1[x].1 == match_weight(es, ws, r1[x].0@) && r1[x].1 > 0);
        assert(kw_has(r2, r1[x].0@));
        let y = choose|y: int| 0 <= y < r2.len() && (#[trigger] r2[y]).0@ == r1[x].0@;
        assert(r2[y].1 == match_weight(es, ws, r2[y].0@));
        assert(pv2[y] == p);
    }
    assert forall|p: (Seq<char>, u64)| pv2.contains(p) implies pv1.contains(p) by {
        let x = choose|x: int| 0 <= x < pv2.len() && pv2[x] == p;
        assert(r2[x].1 == match_weight(es, ws, r2[x].0@) && r2[x].1 > 0);
        assert(kw_has(r1, r2[x].0@));
        let y = choose|y: int| 0 <= y < r1.len() && (#[trigger] r1[y]).0@ == r2[x].0@;
        assert(r1[y].1 == match_weight(es, ws, r1[y].0@));
        assert(pv1[y] == p);
    }
    pv1.lemma_multiset_has_no_duplicates();
    pv2.lemma_multiset_has_no_duplicates();
    assert(pv1.to_multiset() =~= pv2.to_multiset()) by {
        assert forall|p: (Seq<char>, u64)| true implies pv1.to_multiset().count(p)
            == pv2.to_multiset().count(p) by {
            if pv1.contains(p) {
                assert(pv2.contains(p));
                assert(pv1.to_multiset().count(p) == 1);
                assert(pv2.to_multiset().count(p) == 1);
            } else {
                assert(!pv2.contains(p));
                assert(pv1.to_multiset().count(p) == 0);
                assert(pv2.to_multiset().count(p) == 0);
            }
        }
    }
    lemma_rank_total_ordering();
    lemma_sorted_unique(pv1, pv2, rank_rel());
}

/// Ranking is by strictly descending weight, ties broken by ascending key
/// order: of two results, the earlier one never carries less weight, and
/// among equal weights the keys ascend.
pub proof fn law_ranking_order(
    es: Seq<IndexEntry>,
    ws: Seq<Seq<char>>,
    r: Seq<(String, u64)>,
    i: int,
    j: int,
)
    requires
        ranked_post(es, ws, r),
        0 <= i < j < r.len(),
    ensures
        r[i].1 >= r[j].1,
        r[i].1 == r[j].1 ==> lex_le(r[i].0@, r[j].0@),
{
    assert(pair_views(r)[i] == (r[i].0@, r[i].1));
    assert(pair_views(r)[j] == (r[j].0@, r[j].1));
    assert((rank_rel())(pair_views(r)[i], pair_views(r)[j]));
}

/// A key with strictly more combined weight stands strictly earlier in
/// the results.
pub proof fn law_heavier_first(
    es: Seq<IndexEntry>,
    ws: Seq<Seq<char>>,
    r: Seq<(String, u64)>,
    i: int,
    j: int,
)
    requires
        ranked_post(es, ws, r),
        0 <= i < r.len(),
        0 <= j < r.len(),
        r[i].1 > r[j].1,
    ensures
        i < j,
{
    if j < i {
        law_ranking_order(es, ws, r, j, i);
    }
}

} // verus!
