//! Posting lists: per-word mappings from record key to accumulated weight,
//! represented as vectors of `(key, weight)` pairs with distinct keys and
//! strictly positive weights.  An absent key carries weight zero.

use crate::weights::{sat_add, sat_add_spec};
use crate::weights::{sat_sub, sat_sub_spec};
use vstd::prelude::*;

verus! {

/// The weight a posting list assigns to key `k`; zero when `k` is absent.
pub open spec fn kw_weight(p: Seq<(String, u64)>, k: Seq<char>) -> u64
    decreases p.len(),
{
    if p.len() == 0 {
        0
    } else if p[0].0@ == k {
        p[0].1
    } else {
        kw_weight(p.drop_first(), k)
    }
}

/// Key `k` occurs in the posting list.
pub open spec fn kw_has(p: Seq<(String, u64)>, k: Seq<char>) -> bool {
    exists|i: int| 0 <= i < p.len() && p[i].0@ == k
}

/// No key occurs twice.
pub open spec fn kw_distinct(p: Seq<(String, u64)>) -> bool {
    forall|i: int, j: int| 0 <= i < j < p.len() ==> p[i].0@ != p[j].0@
}

/// Every present key carries a positive weight.
pub open spec fn kw_positive(p: Seq<(String, u64)>) -> bool {
    forall|i: int| 0 <= i < p.len() ==> p[i].1 > 0
}

/// A well-formed posting list: distinct keys, positive weights.
pub open spec fn kw_wf(p: Seq<(String, u64)>) -> bool {
    kw_distinct(p) && kw_positive(p)
}

/// In a duplicate-free posting list, the weight of `k` is the weight stored
/// at any index holding `k`.
pub proof fn lemma_kw_weight_at(p: Seq<(String, u64)>, i: int)
    requires
        kw_distinct(p),
        0 <= i < p.len(),
    ensures
        kw_weight(p, p[i].0@) == p[i].1,
    decreases p.len(),
{
    if i > 0 {
        assert(p[0].0@ != p[i].0@);
        assert(p.drop_first()[i - 1] == p[i]);
        assert(kw_distinct(p.drop_first())) by {
            assert(forall|x: int|
                0 <= x < p.drop_first().len() ==> #[trigger] p.drop_first()[x] == p[x + 1]);
        }
        lemma_kw_weight_at(p.drop_first(), i - 1);
    }
}

/// An absent key carries weight zero.
pub proof fn lemma_kw_weight_absent(p: Seq<(String, u64)>, k: Seq<char>)
    requires
        !kw_has(p, k),
    ensures
        kw_weight(p, k) == 0,
    decreases p.len(),
{
    if p.len() > 0 {
        assert(p[0].0@ != k);
        assert(forall|i: int|
            0 <= i < p.drop_first().len() ==> #[trigger] p.drop_first()[i] == p[i + 1]);
        lemma_kw_weight_absent(p.drop_first(), k);
    }
}

/// Appending a pair with a fresh key extends the mapping at exactly that key.
pub proof fn lemma_kw_weight_push(p: Seq<(String, u64)>, e: (String, u64), k: Seq<char>)
    ensures
        kw_weight(p.push(e), k) == if kw_has(p, k) {
            kw_weight(p, k)
        } else if e.0@ == k {
            e.1
        } else {
            0u64
        },
    decreases p.len(),
{
    if p.len() == 0 {
        assert(p.push(e)[0] == e);
        assert(p.push(e).len() == 1);
        if e.0@ != k {
            assert(!kw_has(p, k));
            assert(kw_weight(p.push(e), k) == kw_weight(p.push(e).drop_first(), k));
        }
    } else {
        assert(p.push(e)[0] == p[0]);
        assert(p.push(e).drop_first() =~= p.drop_first().push(e));
        lemma_kw_weight_push(p.drop_first(), e, k);
        if p[0].0@ == k {
            assert(kw_has(p, k));
        } else {
            assert(kw_has(p, k) == kw_has(p.drop_first(), k)) by {
                if kw_has(p, k) {
                    let i = choose|i: int| 0 <= i < p.len() && p[i].0@ == k;
                    assert(i > 0);
                    assert(p.drop_first()[i - 1] == p[i]);
                }
                if kw_has(p.drop_first(), k) {
                    let i = choose|i: int|
                        0 <= i < p.drop_first().len() && p.drop_first()[i].0@ == k;
                    assert(p[i + 1] == p.drop_first()[i]);
                }
            }
        }
    }
}

/// Updating the weight stored at one index changes the mapping at exactly
/// that key.
pub proof fn lemma_kw_weight_update(p: Seq<(String, u64)>, i: int, e: (String, u64), k: Seq<char>)
    requires
        kw_distinct(p),
        0 <= i < p.len(),
        e.0@ == p[i].0@,
    ensures
        kw_weight(p.update(i, e), k) == if k == p[i].0@ {
            e.1
        } else {
            kw_weight(p, k)
        },
    decreases p.len(),
{
    let q = p.update(i, e);
    assert(q.len() == p.len());
    if i == 0 {
        assert(q[0] == e);
        assert(q.drop_first() =~= p.drop_first());
    } else {
        assert(q[0] == p[0]);
        assert(q.drop_first() =~= p.drop_first().update(i - 1, e));
        assert(kw_distinct(p.drop_first())) by {
            assert(forall|x: int|
                0 <= x < p.drop_first().len() ==> #[trigger] p.drop_first()[x] == p[x + 1]);
        }
        assert(p.drop_first()[i - 1] == p[i]);
        lemma_kw_weight_update(p.drop_first(), i - 1, e, k);
        if k == p[i].0@ {
            assert(p[0].0@ != p[i].0@);
        }
    }
}

/// Looks up the weight of `key`; zero when absent.
pub fn posting_get(p: &Vec<(String, u64)>, key: &String) -> (r: u64)
    ensures
        r == kw_weight(p@, key@),
{
    let mut i: usize = 0;
    proof {
        assert(p@.skip(0) =~= p@);
    }
    while i < p.len()
        invariant
            i <= p@.len(),
            kw_weight(p@, key@) == kw_weight(p@.skip(i as int), key@),
            forall|j: int| 0 <= j < i ==> p@[j].0@ != key@,
        decreases p@.len() - i,
    {
        proof {
            assert(p@.skip(i as int)[0] == p@[i as int]);
            assert(p@.skip(i as int).drop_first() =~= p@.skip(i as int + 1));
        }
        if p[i].0 == *key {
            return p[i].1;
        }
        i = i + 1;
    }
    proof {
        assert(p@.skip(i as int).len() == 0);
    }
    0
}

/// Adds `weight` to the accumulated weight of `key`, clamping at the
/// largest representable weight; a key whose accumulated weight would be
/// zero is not materialized.
pub fn posting_accumulate(acc: &mut Vec<(String, u64)>, key: &String, weight: u64)
    requires
        kw_wf(old(acc)@),
    ensures
        kw_wf(final(acc)@),
        forall|k: Seq<char>|
            kw_weight(final(acc)@, k) == if k == key@ {
                sat_add_spec(kw_weight(old(acc)@, k), weight)
            } else {
                kw_weight(old(acc)@, k)
            },
{
    let ghost p0 = acc@;
    let mut i: usize = 0;
    while i < acc.len()
        invariant
            acc@ == p0,
            p0 == old(acc)@,
            kw_wf(p0),
            i <= p0.len(),
            forall|j: int| 0 <= j < i ==> p0[j].0@ != key@,
        decreases p0.len() - i,
    {
        if acc[i].0 == *key {
            let w0 = acc[i].1;
            let k0 = acc[i].0.clone();
            let w1 = sat_add(w0, weight);
            acc[i] = (k0, w1);
            proof {
                assert(p0[i as int].1 > 0);
                assert(w1 > 0);
                assert(acc@ == p0.update(i as int, acc@[i as int]));
                assert(kw_distinct(acc@)) by {
                    assert(forall|x: int|
                        0 <= x < acc@.len() ==> #[trigger] acc@[x].0@ == p0[x].0@);
                }
                assert(kw_positive(acc@)) by {
                    assert(forall|x: int|
                        0 <= x < acc@.len() && x != i ==> #[trigger] acc@[x].1 == p0[x].1);
                }
                assert forall|k: Seq<char>| true implies kw_weight(acc@, k) == if k == key@ {
                    sat_add_spec(kw_weight(p0, k), weight)
                } else {
                    kw_weight(p0, k)
                } by {
                    lemma_kw_weight_update(p0, i as int, acc@[i as int], k);
                    if k == key@ {
                        lemma_kw_weight_at(p0, i as int);
                    }
                }
            }
            return ;
        }
        i = i + 1;
    }
    proof {
        assert(!kw_has(p0, key@));
        lemma_kw_weight_absent(p0, key@);
    }
    if weight > 0 {
        acc.push((key.clone(), weight));
        proof {
            let n = p0.len() as int;
            assert(acc@ == p0.push(acc@[n]));
            assert(acc@[n].0@ == key@ && acc@[n].1 == weight);
            assert forall|k: Seq<char>| true implies kw_weight(acc@, k) == if k == key@ {
                sat_add_spec(kw_weight(p0, k), weight)
            } else {
                kw_weight(p0, k)
            } by {
                lemma_kw_weight_push(p0, acc@[n], k);
                if !kw_has(p0, k) {
                    lemma_kw_weight_absent(p0, k);
                }
            }
            assert(kw_distinct(acc@)) by {
                assert(forall|x: int| 0 <= x < p0.len() ==> #[trigger] acc@[x] == p0[x]);
            }
            assert(kw_positive(acc@)) by {
                assert(forall|x: int| 0 <= x < p0.len() ==> #[trigger] acc@[x] == p0[x]);
            }
        }
    }
}

/// Copies a posting list.
pub fn posting_clone(p: &Vec<(String, u64)>) -> (r: Vec<(String, u64)>)
    ensures
        r@ == p@,
{
    let mut r: Vec<(String, u64)> = Vec::new();
    let mut i: usize = 0;
    while i < p.len()
        invariant
            i <= p@.len(),
            r@ =~= p@.take(i as int),
        decreases p@.len() - i,
    {
        r.push((p[i].0.clone(), p[i].1));
        proof {
            assert(r@ =~= p@.take(i as int + 1));
        }
        i = i + 1;
    }
    proof {
        assert(p@.take(p@.len() as int) =~= p@);
    }
    r
}


/// Removing the pair at one index deletes exactly that key from the
/// mapping.
pub proof fn lemma_kw_weight_remove(p: Seq<(String, u64)>, i: int, k: Seq<char>)
    requires
        kw_distinct(p),
        0 <= i < p.len(),
    ensures
        kw_weight(p.remove(i), k) == if k == p[i].0@ {
            0u64
        } else {
            kw_weight(p, k)
        },
    decreases p.len(),
{
    let q = p.remove(i);
    if i == 0 {
        assert(q =~= p.drop_first());
        if k == p[0].0@ {
            assert(!kw_has(p.drop_first(), k)) by {
                if kw_has(p.drop_first(), k) {
                    let x = choose|x: int|
                        0 <= x < p.drop_first().len() && (#[trigger] p.drop_first()[x]).0@ == k;
                    assert(p[x + 1].0@ == k);
                }
            }
            lemma_kw_weight_absent(p.drop_first(), k);
        }
    } else {
        assert(q[0] == p[0]);
        assert(q.drop_first() =~= p.drop_first().remove(i - 1));
        lemma_kw_wf_drop_first_distinct(p);
        assert(p.drop_first()[i - 1] == p[i]);
        lemma_kw_weight_remove(p.drop_first(), i - 1, k);
        if k == p[i].0@ {
            assert(p[0].0@ != p[i].0@);
        }
    }
}

proof fn lemma_kw_wf_drop_first_distinct(p: Seq<(String, u64)>)
    requires
        kw_distinct(p),
        p.len() > 0,
    ensures
        kw_distinct(p.drop_first()),
{
    assert(forall|x: int|
        0 <= x < p.drop_first().len() ==> #[trigger] p.drop_first()[x] == p[x + 1]);
}

/// Subtracts `weight` from the accumulated weight of `key`, clamping at
/// zero; a key whose weight reaches zero is pruned from the list.
pub fn posting_discount(p: &mut Vec<(String, u64)>, key: &String, weight: u64)
    requires
        kw_wf(old(p)@),
    ensures
        kw_wf(final(p)@),
        forall|k: Seq<char>|
            kw_weight(final(p)@, k) == if k == key@ {
                sat_sub_spec(kw_weight(old(p)@, k), weight)
            } else {
                kw_weight(old(p)@, k)
            },
        final(p)@.len() >= old(p)@.len() - 1,
{
    let ghost p0 = p@;
    let mut i: usize = 0;
    while i < p.len()
        invariant
            p@ == p0,
            p0 == old(p)@,
            kw_wf(p0),
            i <= p0.len(),
            forall|j: int| 0 <= j < i ==> p0[j].0@ != key@,
        decreases p0.len() - i,
    {
        if p[i].0 == *key {
            let w0 = p[i].1;
            if w0 > weight {
                let k0 = p[i].0.clone();
                let w1 = w0 - weight;
                p[i] = (k0, w1);
                proof {
                    assert(p@ == p0.update(i as int, p@[i as int]));
                    assert(kw_distinct(p@)) by {
                        assert(forall|x: int|
                            0 <= x < p@.len() ==> #[trigger] p@[x].0@ == p0[x].0@);
                    }
                    assert(kw_positive(p@)) by {
                        assert(forall|x: int|
                            0 <= x < p@.len() && x != i ==> #[trigger] p@[x].1 == p0[x].1);
                    }
                    assert forall|k: Seq<char>| true implies kw_weight(p@, k) == if k == key@ {
                        sat_sub_spec(kw_weight(p0, k), weight)
                    } else {
                        kw_weight(p0, k)
                    } by {
                        lemma_kw_weight_update(p0, i as int, p@[i as int], k);
                        if k == key@ {
                            lemma_kw_weight_at(p0, i as int);
                        }
                    }
                }
            } else {
                let ghost removed = p0[i as int];
                p.remove(i);
                proof {
                    assert(p@ == p0.remove(i as int));
                    assert(kw_distinct(p@)) by {
                        assert forall|x: int, y: int| 0 <= x < y < p@.len() implies p@[x].0@
                            != p@[y].0@ by {
                            let px: int = if x < i { x } else { x + 1 };
                            let py: int = if y < i { y } else { y + 1 };
                            assert(p@[x] == p0[px]);
                            assert(p@[y] == p0[py]);
                        }
                    }
                    assert(kw_positive(p@)) by {
                        assert forall|x: int| 0 <= x < p@.len() implies p@[x].1 > 0 by {
                            let px: int = if x < i { x } else { x + 1 };
                            assert(p@[x] == p0[px]);
                        }
                    }
                    assert forall|k: Seq<char>| true implies kw_weight(p@, k) == if k == key@ {
                        sat_sub_spec(kw_weight(p0, k), weight)
                    } else {
                        kw_weight(p0, k)
                    } by {
                        lemma_kw_weight_remove(p0, i as int, k);
                        if k == key@ {
                            lemma_kw_weight_at(p0, i as int);
                        }
                    }
                }
            }
            return ;
        }
        i = i + 1;
    }
    proof {
        assert(!kw_has(p0, key@));
        lemma_kw_weight_absent(p0, key@);
    }
}

} // verus!
