//! The query evaluator: normalizes query text, looks each word up by
//! prefix, intersects the per-word results conjunctively by multiplying
//! weights, ranks by descending combined weight, and falls back to
//! edit-distance correction of the query words when the exact pass finds
//! nothing.

use crate::index::exact_weight;
use crate::index::prefix_weight;
use crate::index::IndexEntry;
use crate::index::PostingIndex;
use crate::matcher::best_match;
use crate::matcher::lemma_best_match_unique;
use crate::matcher::nearest;
use crate::matcher::tree_add;
use crate::matcher::tree_new;
use crate::matcher::tree_words;
use crate::matcher::within_tol;
use crate::norm::join_spaced;
use crate::norm::join_words;
use crate::norm::norm_words;
use crate::norm::normalize;
use crate::order::is_prefix_of;
use crate::order::lemma_lex_le_antisymmetric;
use crate::order::lemma_lex_le_total;
use crate::order::lemma_lex_le_transitive;
use crate::order::lex_le;
use crate::order::str_lex_le;
use crate::posting::kw_distinct;
use crate::posting::kw_has;
use crate::posting::kw_positive;
use crate::posting::kw_weight;
use crate::posting::kw_wf;
use crate::posting::lemma_kw_weight_absent;
use crate::posting::lemma_kw_weight_at;
use crate::posting::lemma_kw_weight_push;
use crate::posting::posting_get;
use crate::weights::sat_add_spec;
use crate::weights::sat_mul;
use crate::weights::sat_mul_spec;
use vstd::prelude::*;
use vstd::relations::sorted_by;
use vstd::relations::total_ordering;
use vstd::seq_lib::lemma_sorted_unique;

verus! {

broadcast use vstd::seq_lib::group_to_multiset_ensures;

/// Edit tolerance for query-word correction.
pub const CORRECTION_TOLERANCE: u32 = 3;

/// The combined weight of key `k` for the conjunction of the query words
/// `ws`: the clamped product of the per-word prefix weights.  The empty
/// conjunction has the neutral weight.
pub open spec fn conj_weight(es: Seq<IndexEntry>, ws: Seq<Seq<char>>, k: Seq<char>) -> u64
    decreases ws.len(),
{
    if ws.len() == 0 {
        1
    } else {
        sat_mul_spec(conj_weight(es, ws.drop_last(), k), prefix_weight(es, ws.last(), k))
    }
}

/// The weight a query with words `ws` assigns to key `k`; a query with no
/// words matches nothing.
pub open spec fn match_weight(es: Seq<IndexEntry>, ws: Seq<Seq<char>>, k: Seq<char>) -> u64 {
    if ws.len() == 0 {
        0
    } else {
        conj_weight(es, ws, k)
    }
}

/// Some key matches the query words.
pub open spec fn any_hit(es: Seq<IndexEntry>, ws: Seq<Seq<char>>) -> bool {
    exists|k: Seq<char>| match_weight(es, ws, k) > 0
}

/// The mathematical values of a result list: each key's characters with
/// its weight.
pub open spec fn pair_views(r: Seq<(String, u64)>) -> Seq<(Seq<char>, u64)> {
    r.map_values(|p: (String, u64)| (p.0@, p.1))
}

/// Result order: strictly descending weight, ties by ascending key.
pub open spec fn rank_le(a: (Seq<char>, u64), b: (Seq<char>, u64)) -> bool {
    b.1 < a.1 || (a.1 == b.1 && lex_le(a.0, b.0))
}

/// The result order as a relation value.
pub open spec fn rank_rel() -> spec_fn((Seq<char>, u64), (Seq<char>, u64)) -> bool {
    |a: (Seq<char>, u64), b: (Seq<char>, u64)| rank_le(a, b)
}

/// What a finished result list for query words `ws` looks like: one entry
/// per matching key, carrying exactly the query's weight for that key,
/// sorted by descending weight with ties broken by key order.
pub open spec fn ranked_post(es: Seq<IndexEntry>, ws: Seq<Seq<char>>, r: Seq<(String, u64)>) -> bool {
    &&& kw_distinct(r)
    &&& forall|i: int|
        0 <= i < r.len() ==> (#[trigger] r[i]).1 == match_weight(es, ws, r[i].0@) && r[i].1 > 0
    &&& forall|k: Seq<char>| match_weight(es, ws, k) > 0 ==> kw_has(r, k)
    &&& sorted_by(pair_views(r), rank_rel())
}

/// The word a query word is corrected to: the vocabulary word nearest in
/// edit distance within the tolerance, ties resolved toward the
/// lexicographically least; the word itself when nothing is near enough.
pub open spec fn correct_word(vocab: Set<Seq<char>>, w: Seq<char>) -> Seq<char> {
    if exists|v: Seq<char>| best_match(vocab, w, CORRECTION_TOLERANCE as nat, v) {
        choose|v: Seq<char>| best_match(vocab, w, CORRECTION_TOLERANCE as nat, v)
    } else {
        w
    }
}

/// Each query word corrected independently.
pub open spec fn corrected(vocab: Set<Seq<char>>, ws: Seq<Seq<char>>) -> Seq<Seq<char>> {
    ws.map_values(|w: Seq<char>| correct_word(vocab, w))
}

/// The result order relates every pair.
pub proof fn lemma_rank_total(a: (Seq<char>, u64), b: (Seq<char>, u64))
    ensures
        rank_le(a, b) || rank_le(b, a),
{
    lemma_lex_le_total(a.0, b.0);
}

/// Results below each other in the result order are equal.
pub proof fn lemma_rank_antisymmetric(a: (Seq<char>, u64), b: (Seq<char>, u64))
    requires
        rank_le(a, b),
        rank_le(b, a),
    ensures
        a == b,
{
    lemma_lex_le_antisymmetric(a.0, b.0);
}

/// The result order is transitive.
pub proof fn lemma_rank_transitive(a: (Seq<char>, u64), b: (Seq<char>, u64), c: (Seq<char>, u64))
    requires
        rank_le(a, b),
        rank_le(b, c),
    ensures
        rank_le(a, c),
{
    if a.1 == b.1 && b.1 == c.1 {
        lemma_lex_le_transitive(a.0, b.0, c.0);
    }
}

/// The result order is a total order.
pub proof fn lemma_rank_total_ordering()
    ensures
        total_ordering(rank_rel()),
{
    let r = rank_rel();
    assert forall|x: (Seq<char>, u64)| #[trigger] r(x, x) by {
        lemma_rank_total(x, x);
    }
    assert forall|x: (Seq<char>, u64), y: (Seq<char>, u64)| #[trigger] r(x, y) && #[trigger] r(
        y,
        x,
    ) implies x == y by {
        lemma_rank_antisymmetric(x, y);
    }
    assert forall|x: (Seq<char>, u64), y: (Seq<char>, u64), z: (Seq<char>, u64)|
        #[trigger] r(x, y) && #[trigger] r(y, z) implies r(x, z) by {
        lemma_rank_transitive(x, y, z);
    }
    assert forall|x: (Seq<char>, u64), y: (Seq<char>, u64)| true implies #[trigger] r(x, y)
        || #[trigger] r(y, x) by {
        lemma_rank_total(x, y);
    }
}

/// Compares two results in the result order.
fn rank_pair_le(a: &(String, u64), b: &(String, u64)) -> (res: bool)
    ensures
        res == rank_le((a.0@, a.1), (b.0@, b.1)),
{
    if b.1 < a.1 {
        true
    } else if a.1 == b.1 {
        str_lex_le(a.0.as_str(), b.0.as_str())
    } else {
        false
    }
}

/// Keeps the keys present in both mappings, multiplying their weights;
/// weights clamp at the largest representable value.
fn intersect(acc: &Vec<(String, u64)>, m: &Vec<(String, u64)>) -> (r: Vec<(String, u64)>)
    requires
        kw_wf(acc@),
    ensures
        kw_wf(r@),
        forall|k: Seq<char>|
            kw_weight(r@, k) == sat_mul_spec(kw_weight(acc@, k), kw_weight(m@, k)),
{
    let mut r: Vec<(String, u64)> = Vec::new();
    let n = acc.len();
    let mut i: usize = 0;
    while i < n
        invariant
            kw_wf(acc@),
            n == acc@.len(),
            i <= n,
            kw_wf(r@),
            forall|x: int| 0 <= x < r@.len() ==> kw_has(acc@.take(i as int), (#[trigger] r@[x]).0@),
            forall|k: Seq<char>|
                kw_weight(r@, k) == if kw_has(acc@.take(i as int), k) {
                    sat_mul_spec(kw_weight(acc@, k), kw_weight(m@, k))
                } else {
                    0u64
                },
        decreases n - i,
    {
        let w2 = sat_mul(acc[i].1, posting_get(m, &acc[i].0));
        let ghost r0 = r@;
        if w2 > 0 {
            r.push((acc[i].0.clone(), w2));
        }
        proof {
            let ai = acc@[i as int];
            assert(acc@.take(i as int).push(ai) =~= acc@.take(i as int + 1));
            assert(!kw_has(acc@.take(i as int), ai.0@)) by {
                if kw_has(acc@.take(i as int), ai.0@) {
                    let x = choose|x: int| 0 <= x < i && (#[trigger] acc@.take(i as int)[x]).0@ == ai.0@;
                    assert(acc@[x].0@ == acc@[i as int].0@);
                }
            }
            assert(kw_weight(r0, ai.0@) == 0);
            lemma_kw_weight_at(acc@, i as int);
            if w2 > 0 {
                let rn = r@[r0.len() as int];
                assert(r@ == r0.push(rn));
                assert(rn.0@ == ai.0@ && rn.1 == w2);
                assert(kw_distinct(r@)) by {
                    assert(forall|x: int| 0 <= x < r0.len() ==> #[trigger] r@[x] == r0[x]);
                    assert forall|x: int, y: int| 0 <= x < y < r@.len() implies r@[x].0@
                        != r@[y].0@ by {
                        if y == r0.len() {
                            if r@[x].0@ == ai.0@ {
                                assert(kw_has(acc@.take(i as int), r0[x].0@));
                            }
                        }
                    }
                }
                assert(kw_positive(r@)) by {
                    assert(forall|x: int| 0 <= x < r0.len() ==> #[trigger] r@[x] == r0[x]);
                }
                assert forall|k: Seq<char>| true implies kw_weight(r@, k) == if kw_has(
                    acc@.take(i as int + 1),
                    k,
                ) {
                    sat_mul_spec(kw_weight(acc@, k), kw_weight(m@, k))
                } else {
                    0u64
                } by {
                    lemma_kw_weight_push(r0, rn, k);
                    if !kw_has(r0, k) {
                        lemma_kw_weight_absent(r0, k);
                    }
                    assert(kw_has(acc@.take(i as int + 1), k) == (kw_has(acc@.take(i as int), k)
                        || k == ai.0@)) by {
                        if kw_has(acc@.take(i as int + 1), k) {
                            let x = choose|x: int|
                                0 <= x < i + 1 && (#[trigger] acc@.take(i as int + 1)[x]).0@ == k;
                            if x < i {
                                assert(acc@.take(i as int)[x].0@ == k);
                            }
                        }
                        if kw_has(acc@.take(i as int), k) {
                            let x = choose|x: int|
                                0 <= x < i && (#[trigger] acc@.take(i as int)[x]).0@ == k;
                            assert(acc@.take(i as int + 1)[x].0@ == k);
                        }
                        if k == ai.0@ {
                            assert(acc@.take(i as int + 1)[i as int].0@ == k);
                        }
                    }
                }
            } else {
                assert forall|k: Seq<char>| true implies kw_weight(r@, k) == if kw_has(
                    acc@.take(i as int + 1),
                    k,
                ) {
                    sat_mul_spec(kw_weight(acc@, k), kw_weight(m@, k))
                } else {
                    0u64
                } by {
                    assert(kw_has(acc@.take(i as int + 1), k) == (kw_has(acc@.take(i as int), k)
                        || k == ai.0@)) by {
                        if kw_has(acc@.take(i as int + 1), k) {
                            let x = choose|x: int|
                                0 <= x < i + 1 && (#[trigger] acc@.take(i as int + 1)[x]).0@ == k;
                            if x < i {
                                assert(acc@.take(i as int)[x].0@ == k);
                            }
                        }
                        if kw_has(acc@.take(i as int), k) {
                            let x = choose|x: int|
                                0 <= x < i && (#[trigger] acc@.take(i as int)[x]).0@ == k;
                            assert(acc@.take(i as int + 1)[x].0@ == k);
                        }
                        if k == ai.0@ {
                            assert(acc@.take(i as int + 1)[i as int].0@ == k);
                        }
                    }
                }
            }
            assert forall|x: int| 0 <= x < r@.len() implies kw_has(
                acc@.take(i as int + 1),
                (#[trigger] r@[x]).0@,
            ) by {
                if x < r0.len() {
                    assert(r@[x] == r0[x]);
                    let y = choose|y: int|
                        0 <= y < i && (#[trigger] acc@.take(i as int)[y]).0@ == r0[x].0@;
                    assert(acc@.take(i as int + 1)[y].0@ == r0[x].0@);
                } else {
                    assert(r@[x].0@ == ai.0@);
                    assert(acc@.take(i as int + 1)[i as int].0@ == ai.0@);
                }
            }
        }
        i = i + 1;
    }
    proof {
        assert(acc@.take(n as int) =~= acc@);
        assert forall|k: Seq<char>| true implies kw_weight(r@, k) == sat_mul_spec(
            kw_weight(acc@, k),
            kw_weight(m@, k),
        ) by {
            if !kw_has(acc@, k) {
                lemma_kw_weight_absent(acc@, k);
            }
        }
    }
    r
}

/// Sorts results by descending weight, ties by ascending key.
fn sort_pairs(v: Vec<(String, u64)>) -> (r: Vec<(String, u64)>)
    ensures
        pair_views(r@).to_multiset() == pair_views(v@).to_multiset(),
        sorted_by(pair_views(r@), rank_rel()),
{
    let mut r: Vec<(String, u64)> = Vec::new();
    let n = v.len();
    let mut i: usize = 0;
    proof {
        assert(pair_views(v@.take(0)) =~= Seq::<(Seq<char>, u64)>::empty());
        assert(pair_views(r@) =~= Seq::<(Seq<char>, u64)>::empty());
    }
    while i < n
        invariant
            n == v@.len(),
            i <= n,
            sorted_by(pair_views(r@), rank_rel()),
            pair_views(r@).to_multiset() == pair_views(v@.take(i as int)).to_multiset(),
        decreases n - i,
    {
        let e = (v[i].0.clone(), v[i].1);
        let ghost ev = (e.0@, e.1);
        let ghost r0 = r@;
        let mut pos: usize = 0;
        while pos < r.len() && rank_pair_le(&r[pos], &e)
            invariant
                r@ == r0,
                pos <= r0.len(),
                ev == (e.0@, e.1),
                forall|j: int| 0 <= j < pos ==> rank_le(pair_views(r0)[j], ev),
            decreases r0.len() - pos,
        {
            proof {
                assert(pair_views(r0)[pos as int] == (r0[pos as int].0@, r0[pos as int].1));
            }
            pos = pos + 1;
        }
        r.insert(pos, e);
        proof {
            let pv0 = pair_views(r0);
            let pv1 = pair_views(r@);
            assert(r@ == r0.insert(pos as int, e));
            assert(pv1 =~= pv0.insert(pos as int, ev)) by {
                assert(forall|x: int|
                    0 <= x < pos ==> #[trigger] r@[x] == r0[x]);
                assert(r@[pos as int] == e);
                assert(forall|x: int|
                    pos < x < r@.len() ==> #[trigger] r@[x] == r0[x - 1]);
                assert(forall|x: int|
                    0 <= x < pos ==> #[trigger] pv0.insert(pos as int, ev)[x] == pv0[x]);
                assert(forall|x: int|
                    pos < x < pv1.len() ==> #[trigger] pv0.insert(pos as int, ev)[x] == pv0[x
                        - 1]);
            }
            if pos < r0.len() {
                assert(rank_le(ev, pv0[pos as int])) by {
                    assert(pair_views(r0)[pos as int] == (r0[pos as int].0@, r0[pos as int].1));
                    lemma_rank_total(ev, pv0[pos as int]);
                }
            }
            assert(sorted_by(pv1, rank_rel())) by {
                assert forall|x: int, y: int| 0 <= x < y < pv1.len() implies (rank_rel())(
                    pv1[x],
                    pv1[y],
                ) by {
                    if x < pos && y < pos {
                    } else if x < pos && y == pos {
                        assert(pv1[x] == pv0[x]);
                        assert(rank_le(pv0[x], ev));
                    } else if x == pos && y > pos {
                        assert(pv1[y] == pv0[y - 1]);
                        if y - 1 >= pos {
                            assert(rank_le(ev, pv0[pos as int]));
                            if y - 1 > pos {
                                assert((rank_rel())(pv0[pos as int], pv0[y - 1]));
                                lemma_rank_transitive(ev, pv0[pos as int], pv0[y - 1]);
                            }
                        }
                    } else if x < pos && y > pos {
                        assert(pv1[x] == pv0[x]);
                        assert(pv1[y] == pv0[y - 1]);
                        if y - 1 == x {
                            assert(rank_le(pv0[x], ev));
                            assert(rank_le(ev, pv0[pos as int]));
                        } else {
                            assert((rank_rel())(pv0[x], pv0[y - 1]));
                        }
                    } else {
                        assert(x > pos || (x == pos && y == pos));
                        assert(pv1[x] == pv0[x - 1]);
                        assert(pv1[y] == pv0[y - 1]);
                        assert((rank_rel())(pv0[x - 1], pv0[y - 1]));
                    }
                }
            }
            assert(pv1.to_multiset() == pair_views(v@.take(i as int + 1)).to_multiset()) by {
                vstd::seq_lib::to_multiset_insert(pv0, pos as int, ev);
                assert(pair_views(v@.take(i as int + 1)) =~= pair_views(v@.take(i as int)).push(
                    ev,
                )) by {
                    assert(v@.take(i as int + 1) =~= v@.take(i as int).push(v@[i as int]));
                }
                assert(pair_views(v@.take(i as int)).push(ev).to_multiset() =~= pair_views(
                    v@.take(i as int),
                ).to_multiset().insert(ev));
            }
        }
        i = i + 1;
    }
    proof {
        assert(v@.take(n as int) =~= v@);
    }
    r
}


/// How many of the words have `q` as a prefix.
pub open spec fn count_prefix_in(ws: Seq<Seq<char>>, q: Seq<char>) -> nat
    decreases ws.len(),
{
    if ws.len() == 0 {
        0
    } else {
        count_prefix_in(ws.drop_last(), q) + if is_prefix_of(q, ws.last()) {
            1nat
        } else {
            0nat
        }
    }
}

/// How many of the words equal `w`.
pub open spec fn count_eq_in(ws: Seq<Seq<char>>, w: Seq<char>) -> nat
    decreases ws.len(),
{
    if ws.len() == 0 {
        0
    } else {
        count_eq_in(ws.drop_last(), w) + if ws.last() == w {
            1nat
        } else {
            0nat
        }
    }
}

/// `weight` added to `a` `times` times, clamping at each step.
pub open spec fn sat_add_many(a: u64, weight: u64, times: nat) -> u64
    decreases times,
{
    if times == 0 {
        a
    } else {
        sat_add_spec(sat_add_many(a, weight, (times - 1) as nat), weight)
    }
}

proof fn lemma_sat_add_many_zero(a: u64, n: nat)
    ensures
        sat_add_many(a, 0, n) == a,
    decreases n,
{
    if n > 0 {
        lemma_sat_add_many_zero(a, (n - 1) as nat);
    }
}

proof fn lemma_take_to_set_push(ws: Seq<Seq<char>>, i: int)
    requires
        0 <= i < ws.len(),
    ensures
        ws.take(i + 1).to_set() =~= ws.take(i).to_set().insert(ws[i]),
{
    assert forall|a: Seq<char>|
        ws.take(i + 1).to_set().contains(a) implies ws.take(i).to_set().insert(ws[i]).contains(
        a,
    ) by {
        let x = choose|x: int| 0 <= x < i + 1 && #[trigger] ws.take(i + 1)[x] == a;
        if x < i {
            assert(ws.take(i)[x] == a);
            assert(ws.take(i).contains(a));
        } else {
            assert(a == ws[i]);
        }
    }
    assert forall|a: Seq<char>|
        ws.take(i).to_set().insert(ws[i]).contains(a) implies ws.take(i + 1).to_set().contains(
        a,
    ) by {
        if a == ws[i] {
            assert(ws.take(i + 1)[i] == a);
            assert(ws.take(i + 1).contains(a));
        } else {
            let x = choose|x: int| 0 <= x < i && #[trigger] ws.take(i)[x] == a;
            assert(ws.take(i + 1)[x] == a);
            assert(ws.take(i + 1).contains(a));
        }
    }
}

/// A correctly weighted, deduplicated, sorted list is a finished result
/// list.
proof fn lemma_ranked_from_sorted(
    es: Seq<IndexEntry>,
    ws: Seq<Seq<char>>,
    acc: Seq<(String, u64)>,
    r: Seq<(String, u64)>,
)
    requires
        kw_wf(acc),
        forall|k: Seq<char>| kw_weight(acc, k) == match_weight(es, ws, k),
        pair_views(r).to_multiset() == pair_views(acc).to_multiset(),
        sorted_by(pair_views(r), rank_rel()),
    ensures
        ranked_post(es, ws, r),
{
    let pa = pair_views(acc);
    let pr = pair_views(r);
    assert(forall|x: int| 0 <= x < pa.len() ==> #[trigger] pa[x] == (acc[x].0@, acc[x].1));
    assert(forall|x: int| 0 <= x < pr.len() ==> #[trigger] pr[x] == (r[x].0@, r[x].1));
    assert(pa.no_duplicates()) by {
        assert forall|x: int, y: int|
            0 <= x < pa.len() && 0 <= y < pa.len() && x != y implies pa[x] != pa[y] by {
            if x < y {
                assert(acc[x].0@ != acc[y].0@);
            } else {
                assert(acc[y].0@ != acc[x].0@);
            }
        }
    }
    pa.lemma_multiset_has_no_duplicates();
    pr.lemma_multiset_has_no_duplicates_conv();
    assert forall|x: int| 0 <= x < r.len() implies (#[trigger] r[x]).1 == match_weight(
        es,
        ws,
        r[x].0@,
    ) && r[x].1 > 0 by {
        assert(pr[x] == (r[x].0@, r[x].1));
        assert(pr.contains(pr[x]));
        assert(pa.to_multiset().count(pr[x]) > 0);
        assert(pa.contains(pr[x]));
        let y = choose|y: int| 0 <= y < pa.len() && pa[y] == pr[x];
        assert(pa[y] == (acc[y].0@, acc[y].1));
        lemma_kw_weight_at(acc, y);
        assert(kw_weight(acc, r[x].0@) == r[x].1);
    }
    assert(kw_distinct(r)) by {
        assert forall|i: int, j: int| 0 <= i < j < r.len() implies r[i].0@ != r[j].0@ by {
            if r[i].0@ == r[j].0@ {
                assert(pr.contains(pr[i]));
                assert(pr.contains(pr[j]));
                assert(pa.to_multiset().count(pr[i]) > 0);
                assert(pa.to_multiset().count(pr[j]) > 0);
                assert(pa.contains(pr[i]));
                assert(pa.contains(pr[j]));
                let y1 = choose|y: int| 0 <= y < pa.len() && pa[y] == pr[i];
                let y2 = choose|y: int| 0 <= y < pa.len() && pa[y] == pr[j];
                assert(acc[y1].0@ == r[i].0@);
                assert(acc[y2].0@ == r[j].0@);
                if y1 != y2 {
                    if y1 < y2 {
                        assert(acc[y1].0@ != acc[y2].0@);
                    } else {
                        assert(acc[y2].0@ != acc[y1].0@);
                    }
                }
                assert(pr[i] == pr[j]);
                assert(false);
            }
        }
    }
    assert forall|k: Seq<char>| match_weight(es, ws, k) > 0 implies kw_has(r, k) by {
        assert(kw_weight(acc, k) > 0);
        if !kw_has(acc, k) {
            lemma_kw_weight_absent(acc, k);
        }
        let y = choose|y: int| 0 <= y < acc.len() && (#[trigger] acc[y]).0@ == k;
        assert(pa[y] == (acc[y].0@, acc[y].1));
        assert(pa.contains(pa[y]));
        assert(pr.to_multiset().count(pa[y]) > 0);
        assert(pr.contains(pa[y]));
        let x = choose|x: int| 0 <= x < pr.len() && pr[x] == pa[y];
        assert(r[x].0@ == k);
    }
}

/// A finished result list is nonempty exactly when some key matches.
pub proof fn lemma_hit_nonempty(es: Seq<IndexEntry>, ws: Seq<Seq<char>>, r: Seq<(String, u64)>)
    requires
        ranked_post(es, ws, r),
    ensures
        (r.len() > 0) == any_hit(es, ws),
{
    if r.len() > 0 {
        assert(match_weight(es, ws, r[0].0@) > 0);
    }
    if any_hit(es, ws) {
        let k = choose|k: Seq<char>| match_weight(es, ws, k) > 0;
        assert(kw_has(r, k));
        assert(r.len() > 0);
    }
}

/// One immutable search snapshot: the prefix-searchable posting index and
/// the vocabulary tree for approximate matching, always built together.
pub struct SearchIndex {
    pub index: PostingIndex,
    pub tree: bk_tree::BKTree<String, bk_tree::metrics::Levenshtein>,
}

impl SearchIndex {
    /// Structural invariant: the index is well-formed and the matcher
    /// holds exactly the indexed vocabulary, so corrections never come
    /// from outside the index.
    pub open spec fn wf(self) -> bool {
        self.index.wf() && tree_words(self.tree) == self.index.words()
    }

    /// An empty snapshot.
    pub fn new() -> (r: SearchIndex)
        ensures
            r.wf(),
            r.index.entries@.len() == 0,
    {
        let index = PostingIndex::new();
        let tree = tree_new();
        let r = SearchIndex { index, tree };
        proof {
            assert(tree_words(r.tree) =~= r.index.words());
        }
        r
    }

    /// Normalizes `text` and adds `weight` to the accumulated weight of
    /// every `(word, key)` pair, registering each word in the vocabulary.
    /// Repeated words in one text accumulate once per occurrence.
    pub fn add(&mut self, key: &String, text: &str, weight: u64)
        requires
            old(self).wf(),
        ensures
            final(self).wf(),
            forall|q: Seq<char>, k: Seq<char>|
                prefix_weight(final(self).index.entries@, q, k) == if k == key@ {
                    sat_add_many(
                        prefix_weight(old(self).index.entries@, q, k),
                        weight,
                        count_prefix_in(norm_words(text@), q),
                    )
                } else {
                    prefix_weight(old(self).index.entries@, q, k)
                },
            forall|w: Seq<char>, k: Seq<char>|
                exact_weight(final(self).index.entries@, w, k) == if k == key@ {
                    sat_add_many(
                        exact_weight(old(self).index.entries@, w, k),
                        weight,
                        count_eq_in(norm_words(text@), w),
                    )
                } else {
                    exact_weight(old(self).index.entries@, w, k)
                },
            final(self).index.words() == if weight > 0 {
                old(self).index.words().union(norm_words(text@).to_set())
            } else {
                old(self).index.words()
            },
    {
        let ghost ws = norm_words(text@);
        let ghost es0 = self.index.entries@;
        let ghost w0 = self.index.words();
        if weight == 0 {
            proof {
                assert forall|q: Seq<char>, k: Seq<char>| true implies prefix_weight(
                    self.index.entries@,
                    q,
                    k,
                ) == if k == key@ {
                    sat_add_many(prefix_weight(es0, q, k), 0, count_prefix_in(ws, q))
                } else {
                    prefix_weight(es0, q, k)
                } by {
                    lemma_sat_add_many_zero(prefix_weight(es0, q, k), count_prefix_in(ws, q));
                }
                assert forall|w: Seq<char>, k: Seq<char>| true implies exact_weight(
                    self.index.entries@,
                    w,
                    k,
                ) == if k == key@ {
                    sat_add_many(exact_weight(es0, w, k), 0, count_eq_in(ws, w))
                } else {
                    exact_weight(es0, w, k)
                } by {
                    lemma_sat_add_many_zero(exact_weight(es0, w, k), count_eq_in(ws, w));
                }
            }
            return ;
        }
        let words = normalize(text);
        let mut i: usize = 0;
        proof {
            assert(ws.take(0) =~= Seq::<Seq<char>>::empty());
            assert(w0.union(ws.take(0).to_set()) =~= w0);
        }
        while i < words.len()
            invariant
                self.index.wf(),
                tree_words(self.tree) == self.index.words(),
                words.deep_view() == ws,
                i <= words@.len(),
                weight > 0,
                es0 == old(self).index.entries@,
                w0 == old(self).index.words(),
                forall|q: Seq<char>, k: Seq<char>|
                    prefix_weight(self.index.entries@, q, k) == if k == key@ {
                        sat_add_many(
                            prefix_weight(es0, q, k),
                            weight,
                            count_prefix_in(ws.take(i as int), q),
                        )
                    } else {
                        prefix_weight(es0, q, k)
                    },
                forall|w: Seq<char>, k: Seq<char>|
                    exact_weight(self.index.entries@, w, k) == if k == key@ {
                        sat_add_many(
                            exact_weight(es0, w, k),
                            weight,
                            count_eq_in(ws.take(i as int), w),
                        )
                    } else {
                        exact_weight(es0, w, k)
                    },
                self.index.words() == w0.union(ws.take(i as int).to_set()),
            decreases words@.len() - i,
        {
            let ghost mid = self.index.entries@;
            let ghost midw = self.index.words();
            let wstr = words[i].clone();
            proof {
                assert(wstr@ == words.deep_view()[i as int]);
                assert(wstr@ == ws[i as int]);
            }
            self.index.add_word(key, wstr, weight);
            tree_add(&mut self.tree, words[i].clone());
            proof {
                assert(ws.take(i as int + 1).drop_last() =~= ws.take(i as int));
                assert(ws.take(i as int + 1).last() == ws[i as int]);
                assert forall|q: Seq<char>, k: Seq<char>| true implies prefix_weight(
                    self.index.entries@,
                    q,
                    k,
                ) == if k == key@ {
                    sat_add_many(
                        prefix_weight(es0, q, k),
                        weight,
                        count_prefix_in(ws.take(i as int + 1), q),
                    )
                } else {
                    prefix_weight(es0, q, k)
                } by {
                    assert(count_prefix_in(ws.take(i as int + 1), q) == count_prefix_in(
                        ws.take(i as int),
                        q,
                    ) + if is_prefix_of(q, ws[i as int]) {
                        1nat
                    } else {
                        0nat
                    });
                }
                assert forall|w: Seq<char>, k: Seq<char>| true implies exact_weight(
                    self.index.entries@,
                    w,
                    k,
                ) == if k == key@ {
                    sat_add_many(
                        exact_weight(es0, w, k),
                        weight,
                        count_eq_in(ws.take(i as int + 1), w),
                    )
                } else {
                    exact_weight(es0, w, k)
                } by {
                    assert(count_eq_in(ws.take(i as int + 1), w) == count_eq_in(
                        ws.take(i as int),
                        w,
                    ) + if ws[i as int] == w {
                        1nat
                    } else {
                        0nat
                    });
                }
                lemma_take_to_set_push(ws, i as int);
                assert(self.index.words() == w0.union(ws.take(i as int + 1).to_set())) by {
                    assert(self.index.words() == midw.insert(ws[i as int]));
                    assert(midw.insert(ws[i as int]) =~= w0.union(ws.take(i as int + 1).to_set()));
                }
            }
            i = i + 1;
        }
        proof {
            assert(ws.take(words@.len() as int) =~= ws);
        }
    }

    /// The exact evaluation pass: prefix lookup per word, conjunctive
    /// intersection by weight product, ranking.
    fn query_exact(&self, words: &Vec<String>) -> (r: Vec<(String, u64)>)
        requires
            self.index.wf(),
        ensures
            ranked_post(self.index.entries@, words.deep_view(), r@),
    {
        let ghost es = self.index.entries@;
        let ghost ws = words.deep_view();
        if words.len() == 0 {
            let r: Vec<(String, u64)> = Vec::new();
            proof {
                assert(pair_views(r@) =~= Seq::<(Seq<char>, u64)>::empty());
                assert(ranked_post(es, ws, r@));
            }
            return r;
        }
        let mut acc = self.index.lookup_prefix(words[0].as_str());
        proof {
            assert(words@[0]@ == ws[0]);
            assert(ws.take(1).drop_last() =~= ws.take(0));
            assert(ws.take(1).last() == ws[0]);
            assert(ws.take(0).len() == 0);
            assert forall|k: Seq<char>| true implies kw_weight(acc@, k) == conj_weight(
                es,
                ws.take(1),
                k,
            ) by {
                assert(conj_weight(es, ws.take(0), k) == 1);
                assert(sat_mul_spec(1u64, prefix_weight(es, ws[0], k)) == prefix_weight(
                    es,
                    ws[0],
                    k,
                )) by (nonlinear_arith);
            }
        }
        let mut i: usize = 1;
        while i < words.len()
            invariant
                self.index.wf(),
                es == self.index.entries@,
                ws == words.deep_view(),
                ws.len() == words@.len(),
                1 <= i <= ws.len(),
                kw_wf(acc@),
                forall|k: Seq<char>| kw_weight(acc@, k) == conj_weight(es, ws.take(i as int), k),
            decreases words@.len() - i,
        {
            let m = self.index.lookup_prefix(words[i].as_str());
            let acc2 = intersect(&acc, &m);
            proof {
                assert(words@[i as int]@ == ws[i as int]);
                assert(ws.take(i as int + 1).drop_last() =~= ws.take(i as int));
                assert(ws.take(i as int + 1).last() == ws[i as int]);
            }
            acc = acc2;
            i = i + 1;
        }
        let ghost accv = acc@;
        proof {
            assert(ws.take(ws.len() as int) =~= ws);
        }
        let sorted = sort_pairs(acc);
        proof {
            lemma_ranked_from_sorted(es, ws, accv, sorted@);
        }
        sorted
    }

    /// Evaluates a query: results ranked by strictly descending combined
    /// weight, ties by ascending key.  When the exact pass over the
    /// normalized query words matches nothing, each word is corrected
    /// against the indexed vocabulary within the edit tolerance and the
    /// same evaluation runs again; a correction string is reported only
    /// when that retry found something.
    pub fn query(&self, text: &str) -> (r: (Vec<(String, u64)>, Option<String>))
        requires
            self.wf(),
        ensures
            ({
                let ws = norm_words(text@);
                let es = self.index.entries@;
                let cs = corrected(tree_words(self.tree), ws);
                &&& any_hit(es, ws) ==> ranked_post(es, ws, r.0@) && r.1 is None
                &&& !any_hit(es, ws) && any_hit(es, cs) ==> ranked_post(es, cs, r.0@) && (
                r.1 matches Some(c) && c@ == join_spaced(cs))
                &&& !any_hit(es, ws) && !any_hit(es, cs) ==> r.0@.len() == 0 && r.1 is None
            }),
    {
        let ghost es = self.index.entries@;
        let ghost ws = norm_words(text@);
        let ghost vocab = tree_words(self.tree);
        let ghost cs = corrected(vocab, ws);
        let words = normalize(text);
        let exact = self.query_exact(&words);
        proof {
            lemma_hit_nonempty(es, ws, exact@);
        }
        if exact.len() > 0 {
            return (exact, None);
        }
        let mut cwords: Vec<String> = Vec::new();
        let mut i: usize = 0;
        while i < words.len()
            invariant
                self.wf(),
                es == self.index.entries@,
                vocab == tree_words(self.tree),
                words.deep_view() == ws,
                cs == corrected(vocab, ws),
                i <= words@.len(),
                cwords@.len() == i,
                forall|j: int| 0 <= j < i ==> (#[trigger] cwords@[j])@ == cs[j],
            decreases words@.len() - i,
        {
            proof {
                assert(words.deep_view()[i as int] == words@[i as int]@);
            }
            match nearest(&self.tree, words[i].as_str(), CORRECTION_TOLERANCE) {
                Some(w) => {
                    proof {
                        let picked = choose|v: Seq<char>|
                            best_match(vocab, ws[i as int], CORRECTION_TOLERANCE as nat, v);
                        lemma_best_match_unique(
                            vocab,
                            ws[i as int],
                            CORRECTION_TOLERANCE as nat,
                            picked,
                            w@,
                        );
                        assert(correct_word(vocab, ws[i as int]) == w@);
                    }
                    cwords.push(w);
                },
                None => {
                    proof {
                        if exists|v: Seq<char>|
                            best_match(vocab, ws[i as int], CORRECTION_TOLERANCE as nat, v) {
                            let v = choose|v: Seq<char>|
                                best_match(vocab, ws[i as int], CORRECTION_TOLERANCE as nat, v);
                            assert(within_tol(vocab, ws[i as int], CORRECTION_TOLERANCE as nat, v));
                            assert(false);
                        }
                        assert(correct_word(vocab, ws[i as int]) == ws[i as int]);
                    }
                    cwords.push(words[i].clone());
                },
            }
            i = i + 1;
        }
        proof {
            assert(cwords.deep_view() =~= cs);
        }
        let corrected_results = self.query_exact(&cwords);
        proof {
            lemma_hit_nonempty(es, cs, corrected_results@);
        }
        if corrected_results.len() > 0 {
            let display = join_words(&cwords);
            (corrected_results, Some(display))
        } else {
            (corrected_results, None)
        }
    }
}


/// The mathematical values of a record batch: key, field text, weight.
pub open spec fn rec_views(rs: Seq<(String, String, u64)>) -> Seq<(Seq<char>, Seq<char>, u64)> {
    rs.map_values(|t: (String, String, u64)| (t.0@, t.1@, t.2))
}

/// The prefix mapping an index holds after ingesting a record batch, one
/// insertion per record.
pub open spec fn batch_prefix_weight(
    rs: Seq<(Seq<char>, Seq<char>, u64)>,
    q: Seq<char>,
    k: Seq<char>,
) -> u64
    decreases rs.len(),
{
    if rs.len() == 0 {
        0
    } else {
        let prev = batch_prefix_weight(rs.drop_last(), q, k);
        let rec = rs.last();
        if k == rec.0 {
            sat_add_many(prev, rec.2, count_prefix_in(norm_words(rec.1), q))
        } else {
            prev
        }
    }
}

/// The exact mapping an index holds after ingesting a record batch.
pub open spec fn batch_exact_weight(
    rs: Seq<(Seq<char>, Seq<char>, u64)>,
    w: Seq<char>,
    k: Seq<char>,
) -> u64
    decreases rs.len(),
{
    if rs.len() == 0 {
        0
    } else {
        let prev = batch_exact_weight(rs.drop_last(), w, k);
        let rec = rs.last();
        if k == rec.0 {
            sat_add_many(prev, rec.2, count_eq_in(norm_words(rec.1), w))
        } else {
            prev
        }
    }
}

/// The vocabulary an index holds after ingesting a record batch.
pub open spec fn batch_words(rs: Seq<(Seq<char>, Seq<char>, u64)>) -> Set<Seq<char>>
    decreases rs.len(),
{
    if rs.len() == 0 {
        Set::<Seq<char>>::empty()
    } else {
        let rec = rs.last();
        batch_words(rs.drop_last()).union(
            if rec.2 > 0 {
                norm_words(rec.1).to_set()
            } else {
                Set::<Seq<char>>::empty()
            },
        )
    }
}

impl SearchIndex {
    /// Constructs one immutable snapshot from a full batch of
    /// `(key, field_text, field_weight)` insertions, in one pass.
    pub fn build(records: &Vec<(String, String, u64)>) -> (r: SearchIndex)
        ensures
            r.wf(),
            forall|q: Seq<char>, k: Seq<char>|
                prefix_weight(r.index.entries@, q, k) == batch_prefix_weight(
                    rec_views(records@),
                    q,
                    k,
                ),
            forall|w: Seq<char>, k: Seq<char>|
                exact_weight(r.index.entries@, w, k) == batch_exact_weight(
                    rec_views(records@),
                    w,
                    k,
                ),
            r.index.words() == batch_words(rec_views(records@)),
    {
        let ghost rv = rec_views(records@);
        let mut s = SearchIndex::new();
        proof {
            assert(rv.take(0) =~= Seq::<(Seq<char>, Seq<char>, u64)>::empty());
            assert(s.index.words() =~= Set::<Seq<char>>::empty()) by {
                assert(s.index.entries@.len() == 0);
            }
            assert(forall|q: Seq<char>, k: Seq<char>|
                prefix_weight(s.index.entries@, q, k) == 0);
            assert(forall|w: Seq<char>, k: Seq<char>| exact_weight(s.index.entries@, w, k) == 0);
        }
        let n = records.len();
        let mut i: usize = 0;
        while i < n
            invariant
                s.wf(),
                n == records@.len(),
                i <= n,
                rv == rec_views(records@),
                rv.len() == n,
                forall|q: Seq<char>, k: Seq<char>|
                    prefix_weight(s.index.entries@, q, k) == batch_prefix_weight(
                        rv.take(i as int),
                        q,
                        k,
                    ),
                forall|w: Seq<char>, k: Seq<char>|
                    exact_weight(s.index.entries@, w, k) == batch_exact_weight(
                        rv.take(i as int),
                        w,
                        k,
                    ),
                s.index.words() == batch_words(rv.take(i as int)),
            decreases n - i,
        {
            let ghost mid_p = s.index.entries@;
            let ghost mid_words = s.index.words();
            let rec = &records[i];
            proof {
                assert(rv[i as int] == (records@[i as int].0@, records@[i as int].1@, records@[
                i as int].2));
            }
            s.add(&rec.0, rec.1.as_str(), rec.2);
            proof {
                assert(rv.take(i as int + 1).drop_last() =~= rv.take(i as int));
                assert(rv.take(i as int + 1).last() == rv[i as int]);
                if rec.2 > 0 {
                    assert(s.index.words() =~= batch_words(rv.take(i as int + 1)));
                } else {
                    assert(s.index.words() =~= batch_words(rv.take(i as int + 1)));
                }
            }
            i = i + 1;
        }
        proof {
            assert(rv.take(n as int) =~= rv);
        }
        s
    }
}

} // verus!
