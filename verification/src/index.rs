//! The posting index: a mapping from normalized word to posting list,
//! searchable by word prefix.  Weights for the same `(word, key)` pair
//! accumulate across insertions; prefix lookup merges the postings of every
//! indexed word extending the queried prefix, summing weights per key.

use crate::order::is_prefix_of;
use crate::order::str_has_prefix;
use crate::posting::kw_distinct;
use crate::posting::kw_has;
use crate::posting::kw_weight;
use crate::posting::kw_wf;
use crate::posting::lemma_kw_weight_absent;
use crate::posting::lemma_kw_weight_push;
use crate::posting::posting_accumulate;
use crate::posting::posting_clone;
use crate::posting::posting_discount;
use crate::weights::sat_add_spec;
use crate::weights::sat_sub_spec;
use vstd::prelude::*;

verus! {

/// One indexed word together with its posting list.
pub struct IndexEntry {
    pub word: String,
    pub posting: Vec<(String, u64)>,
}

/// No word owns two entries.
pub open spec fn entries_distinct(es: Seq<IndexEntry>) -> bool {
    forall|i: int, j: int| 0 <= i < j < es.len() ==> es[i].word@ != es[j].word@
}

/// Well-formed entry list: distinct words, each posting well-formed and
/// holding at least one key, so an indexed word always has a positive
/// match.
pub open spec fn entries_wf(es: Seq<IndexEntry>) -> bool {
    &&& entries_distinct(es)
    &&& forall|i: int| 0 <= i < es.len() ==> kw_wf(#[trigger] es[i].posting@)
    &&& forall|i: int| 0 <= i < es.len() ==> (#[trigger] es[i].posting@).len() > 0
}

/// Word `w` has an entry.
pub open spec fn has_word(es: Seq<IndexEntry>, w: Seq<char>) -> bool {
    exists|i: int| 0 <= i < es.len() && es[i].word@ == w
}

/// The set of indexed words: the vocabulary.
pub open spec fn word_set(es: Seq<IndexEntry>) -> Set<Seq<char>> {
    Set::new(|w: Seq<char>| has_word(es, w))
}

/// The weight the index assigns to key `k` under exactly the word `w`;
/// zero when `w` is not indexed or `k` is absent from its posting.
pub open spec fn exact_weight(es: Seq<IndexEntry>, w: Seq<char>, k: Seq<char>) -> u64
    decreases es.len(),
{
    if es.len() == 0 {
        0
    } else if es[0].word@ == w {
        kw_weight(es[0].posting@, k)
    } else {
        exact_weight(es.drop_first(), w, k)
    }
}

/// The weight key `k` accumulates over every indexed word having `q` as a
/// prefix: the clamped sum of the per-word posting weights.
pub open spec fn prefix_weight(es: Seq<IndexEntry>, q: Seq<char>, k: Seq<char>) -> u64
    decreases es.len(),
{
    if es.len() == 0 {
        0
    } else {
        let rest = prefix_weight(es.drop_first(), q, k);
        if is_prefix_of(q, es[0].word@) {
            sat_add_spec(kw_weight(es[0].posting@, k), rest)
        } else {
            rest
        }
    }
}

proof fn lemma_es_drop_first(es: Seq<IndexEntry>)
    requires
        es.len() > 0,
    ensures
        forall|x: int|
            0 <= x < es.drop_first().len() ==> #[trigger] es.drop_first()[x] == es[x + 1],
{
}

/// In a duplicate-free entry list, the exact weight under `es[i].word` is
/// read from `es[i]`'s posting.
pub proof fn lemma_exact_weight_at(es: Seq<IndexEntry>, i: int, k: Seq<char>)
    requires
        entries_distinct(es),
        0 <= i < es.len(),
    ensures
        exact_weight(es, es[i].word@, k) == kw_weight(es[i].posting@, k),
    decreases es.len(),
{
    if i > 0 {
        lemma_es_drop_first(es);
        assert(entries_distinct(es.drop_first()));
        lemma_exact_weight_at(es.drop_first(), i - 1, k);
    }
}

/// A word with no entry assigns weight zero to every key.
pub proof fn lemma_exact_weight_absent(es: Seq<IndexEntry>, w: Seq<char>, k: Seq<char>)
    requires
        !has_word(es, w),
    ensures
        exact_weight(es, w, k) == 0,
    decreases es.len(),
{
    if es.len() > 0 {
        lemma_es_drop_first(es);
        assert(!has_word(es.drop_first(), w));
        lemma_exact_weight_absent(es.drop_first(), w, k);
    }
}

/// Appending an entry for a fresh word extends the exact mapping at
/// exactly that word.
pub proof fn lemma_exact_weight_push(es: Seq<IndexEntry>, e: IndexEntry, w: Seq<char>, k: Seq<char>)
    ensures
        exact_weight(es.push(e), w, k) == if has_word(es, w) {
            exact_weight(es, w, k)
        } else if e.word@ == w {
            kw_weight(e.posting@, k)
        } else {
            0u64
        },
    decreases es.len(),
{
    if es.len() == 0 {
        assert(es.push(e)[0] == e);
        if e.word@ != w {
            assert(exact_weight(es.push(e), w, k) == exact_weight(es.push(e).drop_first(), w, k));
        }
    } else {
        assert(es.push(e)[0] == es[0]);
        assert(es.push(e).drop_first() =~= es.drop_first().push(e));
        lemma_es_drop_first(es);
        lemma_exact_weight_push(es.drop_first(), e, w, k);
        if es[0].word@ != w {
            assert(has_word(es, w) == has_word(es.drop_first(), w)) by {
                if has_word(es, w) {
                    let i = choose|i: int| 0 <= i < es.len() && es[i].word@ == w;
                    assert(es.drop_first()[i - 1] == es[i]);
                }
                if has_word(es.drop_first(), w) {
                    let i = choose|i: int|
                        0 <= i < es.drop_first().len() && es.drop_first()[i].word@ == w;
                    assert(es[i + 1] == es.drop_first()[i]);
                }
            }
        }
    }
}

/// Appending an entry adds its posting's contribution to the prefix
/// mapping of every prefix of its word.
pub proof fn lemma_prefix_weight_push(
    es: Seq<IndexEntry>,
    e: IndexEntry,
    q: Seq<char>,
    k: Seq<char>,
)
    ensures
        prefix_weight(es.push(e), q, k) == if is_prefix_of(q, e.word@) {
            sat_add_spec(prefix_weight(es, q, k), kw_weight(e.posting@, k))
        } else {
            prefix_weight(es, q, k)
        },
    decreases es.len(),
{
    if es.len() == 0 {
        assert(es.push(e).len() == 1);
        assert(es.push(e)[0] == e);
        assert(es.push(e).drop_first() =~= Seq::<IndexEntry>::empty());
        assert(prefix_weight(es.push(e).drop_first(), q, k) == 0);
        assert(prefix_weight(es, q, k) == 0);
        if is_prefix_of(q, e.word@) {
            assert(prefix_weight(es.push(e), q, k) == sat_add_spec(
                kw_weight(e.posting@, k),
                0,
            ));
            crate::weights::lemma_sat_add_comm(kw_weight(e.posting@, k), 0);
            assert(prefix_weight(es.push(e), q, k) == sat_add_spec(
                0,
                kw_weight(e.posting@, k),
            ));
        } else {
            assert(prefix_weight(es.push(e), q, k) == 0);
        }
    } else {
        assert(es.push(e)[0] == es[0]);
        assert(es.push(e).drop_first() =~= es.drop_first().push(e));
        lemma_prefix_weight_push(es.drop_first(), e, q, k);
        if is_prefix_of(q, e.word@) {
            assert(prefix_weight(es.drop_first().push(e), q, k) == sat_add_spec(
                prefix_weight(es.drop_first(), q, k),
                kw_weight(e.posting@, k),
            ));
            if is_prefix_of(q, es[0].word@) {
                assert(prefix_weight(es.push(e), q, k) == sat_add_spec(
                    kw_weight(es[0].posting@, k),
                    prefix_weight(es.push(e).drop_first(), q, k),
                ));
                crate::weights::lemma_sat_add_assoc(
                    kw_weight(es[0].posting@, k),
                    prefix_weight(es.drop_first(), q, k),
                    kw_weight(e.posting@, k),
                );
                assert(prefix_weight(es.push(e), q, k) == sat_add_spec(
                    sat_add_spec(kw_weight(es[0].posting@, k), prefix_weight(es.drop_first(), q, k)),
                    kw_weight(e.posting@, k),
                ));
                assert(prefix_weight(es, q, k) == sat_add_spec(
                    kw_weight(es[0].posting@, k),
                    prefix_weight(es.drop_first(), q, k),
                ));
            } else {
                assert(prefix_weight(es.push(e), q, k) == prefix_weight(
                    es.push(e).drop_first(),
                    q,
                    k,
                ));
            }
        } else {
            assert(prefix_weight(es.drop_first().push(e), q, k) == prefix_weight(
                es.drop_first(),
                q,
                k,
            ));
        }
    }
}


/// Replacing an entry's posting by one whose weights grew by `weight` at
/// key `key` grows the prefix mapping by `weight` at that key, under every
/// prefix of the entry's word.
pub proof fn lemma_prefix_weight_update_add(
    es: Seq<IndexEntry>,
    i: int,
    e2: IndexEntry,
    key: Seq<char>,
    weight: u64,
    q: Seq<char>,
    k: Seq<char>,
)
    requires
        0 <= i < es.len(),
        e2.word@ == es[i].word@,
        forall|k2: Seq<char>|
            kw_weight(e2.posting@, k2) == if k2 == key {
                sat_add_spec(kw_weight(es[i].posting@, k2), weight)
            } else {
                kw_weight(es[i].posting@, k2)
            },
    ensures
        prefix_weight(es.update(i, e2), q, k) == if is_prefix_of(q, es[i].word@) && k == key {
            sat_add_spec(prefix_weight(es, q, k), weight)
        } else {
            prefix_weight(es, q, k)
        },
    decreases es.len(),
{
    let es2 = es.update(i, e2);
    lemma_es_drop_first(es);
    if i == 0 {
        assert(es2[0] == e2);
        assert(es2.drop_first() =~= es.drop_first());
        if is_prefix_of(q, es[0].word@) && k == key {
            crate::weights::lemma_sat_add_comm(kw_weight(es[0].posting@, k), weight);
            crate::weights::lemma_sat_add_assoc(
                weight,
                kw_weight(es[0].posting@, k),
                prefix_weight(es.drop_first(), q, k),
            );
            crate::weights::lemma_sat_add_comm(
                weight,
                sat_add_spec(kw_weight(es[0].posting@, k), prefix_weight(es.drop_first(), q, k)),
            );
        }
    } else {
        assert(es2[0] == es[0]);
        assert(es2.drop_first() =~= es.drop_first().update(i - 1, e2));
        assert(es.drop_first()[i - 1] == es[i]);
        lemma_prefix_weight_update_add(es.drop_first(), i - 1, e2, key, weight, q, k);
        if is_prefix_of(q, es[i].word@) && k == key && is_prefix_of(q, es[0].word@) {
            crate::weights::lemma_sat_add_assoc(
                kw_weight(es[0].posting@, k),
                prefix_weight(es.drop_first(), q, k),
                weight,
            );
        }
    }
}

/// Like `lemma_prefix_weight_update_add`, for the exact mapping.
pub proof fn lemma_exact_weight_update_add(
    es: Seq<IndexEntry>,
    i: int,
    e2: IndexEntry,
    key: Seq<char>,
    weight: u64,
    w: Seq<char>,
    k: Seq<char>,
)
    requires
        entries_distinct(es),
        0 <= i < es.len(),
        e2.word@ == es[i].word@,
        forall|k2: Seq<char>|
            kw_weight(e2.posting@, k2) == if k2 == key {
                sat_add_spec(kw_weight(es[i].posting@, k2), weight)
            } else {
                kw_weight(es[i].posting@, k2)
            },
    ensures
        exact_weight(es.update(i, e2), w, k) == if w == es[i].word@ && k == key {
            sat_add_spec(exact_weight(es, w, k), weight)
        } else {
            exact_weight(es, w, k)
        },
    decreases es.len(),
{
    let es2 = es.update(i, e2);
    lemma_es_drop_first(es);
    if i == 0 {
        assert(es2[0] == e2);
        assert(es2.drop_first() =~= es.drop_first());
    } else {
        assert(es2[0] == es[0]);
        assert(es2.drop_first() =~= es.drop_first().update(i - 1, e2));
        assert(entries_distinct(es.drop_first()));
        assert(es.drop_first()[i - 1] == es[i]);
        lemma_exact_weight_update_add(es.drop_first(), i - 1, e2, key, weight, w, k);
        if w == es[i].word@ {
            assert(es[0].word@ != es[i].word@);
        }
    }
}

/// A prefix-searchable mapping from normalized word to posting list.
pub struct PostingIndex {
    pub entries: Vec<IndexEntry>,
}

impl PostingIndex {
    /// Structural invariant of the index.
    pub open spec fn wf(self) -> bool {
        entries_wf(self.entries@)
    }

    /// The indexed vocabulary.
    pub open spec fn words(self) -> Set<Seq<char>> {
        word_set(self.entries@)
    }

    /// An empty index: no word, no weight.
    pub fn new() -> (r: PostingIndex)
        ensures
            r.wf(),
            r.entries@.len() == 0,
            forall|w: Seq<char>, k: Seq<char>| exact_weight(r.entries@, w, k) == 0,
            forall|q: Seq<char>, k: Seq<char>| prefix_weight(r.entries@, q, k) == 0,
            r.words() =~= Set::<Seq<char>>::empty(),
    {
        let r = PostingIndex { entries: Vec::new() };
        proof {
            assert(r.words() =~= Set::<Seq<char>>::empty());
        }
        r
    }

    /// Adds `weight` to the accumulated weight of `(word, key)`, creating
    /// the entry as needed and registering `word` in the vocabulary.  A
    /// pair whose accumulated weight would be zero is not materialized, so
    /// an indexed word always has a key with positive weight.
    pub fn add_word(&mut self, key: &String, word: String, weight: u64)
        requires
            old(self).wf(),
        ensures
            final(self).wf(),
            forall|w: Seq<char>, k: Seq<char>|
                exact_weight(final(self).entries@, w, k) == if w == word@ && k == key@ {
                    sat_add_spec(exact_weight(old(self).entries@, w, k), weight)
                } else {
                    exact_weight(old(self).entries@, w, k)
                },
            forall|q: Seq<char>, k: Seq<char>|
                prefix_weight(final(self).entries@, q, k) == if is_prefix_of(q, word@) && k
                    == key@ {
                    sat_add_spec(prefix_weight(old(self).entries@, q, k), weight)
                } else {
                    prefix_weight(old(self).entries@, q, k)
                },
            final(self).words() == if weight > 0 {
                old(self).words().insert(word@)
            } else {
                old(self).words()
            },
    {
        let ghost es0 = self.entries@;
        let n = self.entries.len();
        let mut i: usize = 0;
        while i < n
            invariant
                self.entries@ == es0,
                es0 == old(self).entries@,
                entries_wf(es0),
                n == es0.len(),
                i <= n,
                forall|j: int| 0 <= j < i ==> es0[j].word@ != word@,
            decreases n - i,
        {
            if self.entries[i].word == word {
                let mut p = posting_clone(&self.entries[i].posting);
                posting_accumulate(&mut p, key, weight);
                let ghost pview = p@;
                let e2 = IndexEntry { word, posting: p };
                self.entries[i] = e2;
                proof {
                    let e2v = self.entries@[i as int];
                    assert(self.entries@ == es0.update(i as int, e2v));
                    assert(e2v.word@ == es0[i as int].word@);
                    assert(e2v.posting@ == pview);
                    assert(kw_wf(pview));
                    assert(pview.len() > 0) by {
                        assert(kw_weight(es0[i as int].posting@, es0[i as int].posting@[0].0@)
                            != 0) by {
                            crate::posting::lemma_kw_weight_at(es0[i as int].posting@, 0);
                        }
                        if pview.len() == 0 {
                            assert(!kw_has(pview, es0[i as int].posting@[0].0@));
                            lemma_kw_weight_absent(pview, es0[i as int].posting@[0].0@);
                        }
                    }
                    assert(entries_wf(self.entries@)) by {
                        assert(forall|x: int|
                            0 <= x < es0.len() && x != i ==> #[trigger] self.entries@[x]
                                == es0[x]);
                    }
                    assert forall|w: Seq<char>, k: Seq<char>| true implies exact_weight(
                        self.entries@,
                        w,
                        k,
                    ) == if w == word@ && k == key@ {
                        sat_add_spec(exact_weight(es0, w, k), weight)
                    } else {
                        exact_weight(es0, w, k)
                    } by {
                        lemma_exact_weight_update_add(es0, i as int, e2v, key@, weight, w, k);
                        if w == word@ && k == key@ {
                            lemma_exact_weight_at(es0, i as int, k);
                        }
                        if w == es0[i as int].word@ && w != word@ {
                            assert(false);
                        }
                    }
                    assert forall|q: Seq<char>, k: Seq<char>| true implies prefix_weight(
                        self.entries@,
                        q,
                        k,
                    ) == if is_prefix_of(q, word@) && k == key@ {
                        sat_add_spec(prefix_weight(es0, q, k), weight)
                    } else {
                        prefix_weight(es0, q, k)
                    } by {
                        lemma_prefix_weight_update_add(es0, i as int, e2v, key@, weight, q, k);
                    }
                    assert(final(self).words() == if weight > 0 {
                        old(self).words().insert(word@)
                    } else {
                        old(self).words()
                    }) by {
                        assert(has_word(es0, word@));
                        assert forall|w: Seq<char>| true implies (has_word(self.entries@, w)
                            == has_word(es0, w)) by {
                            if has_word(self.entries@, w) {
                                let x = choose|x: int|
                                    0 <= x < self.entries@.len() && self.entries@[x].word@ == w;
                                assert(es0[x].word@ == w);
                            }
                            if has_word(es0, w) {
                                let x = choose|x: int|
                                    0 <= x < es0.len() && es0[x].word@ == w;
                                assert(self.entries@[x].word@ == w);
                            }
                        }
                        assert(word_set(self.entries@) =~= word_set(es0));
                        if weight > 0 {
                            assert(word_set(es0).insert(word@) =~= word_set(es0));
                        }
                    }
                }
                return ;
            }
            i = i + 1;
        }
        proof {
            assert(!has_word(es0, word@));
        }
        if weight > 0 {
            let mut p: Vec<(String, u64)> = Vec::new();
            p.push((key.clone(), weight));
            let e = IndexEntry { word, posting: p };
            self.entries.push(e);
            proof {
                let n0 = es0.len() as int;
                let ev = self.entries@[n0];
                assert(self.entries@ == es0.push(ev));
                assert(ev.word@ == word@);
                assert(ev.posting@.len() == 1);
                assert(ev.posting@[0].0@ == key@ && ev.posting@[0].1 == weight);
                assert(kw_wf(ev.posting@));
                assert(entries_wf(self.entries@)) by {
                    assert(forall|x: int|
                        0 <= x < es0.len() ==> #[trigger] self.entries@[x] == es0[x]);
                }
                assert forall|k: Seq<char>| true implies kw_weight(ev.posting@, k) == (if k
                    == key@ {
                    weight
                } else {
                    0u64
                }) by {
                    assert(ev.posting@[0].0@ == key@);
                    assert(ev.posting@.drop_first().len() == 0);
                    assert(kw_weight(ev.posting@.drop_first(), k) == 0);
                }
                assert forall|w: Seq<char>, k: Seq<char>| true implies exact_weight(
                    self.entries@,
                    w,
                    k,
                ) == if w == word@ && k == key@ {
                    sat_add_spec(exact_weight(es0, w, k), weight)
                } else {
                    exact_weight(es0, w, k)
                } by {
                    lemma_exact_weight_push(es0, ev, w, k);
                    if !has_word(es0, w) {
                        lemma_exact_weight_absent(es0, w, k);
                    }
                }
                assert forall|q: Seq<char>, k: Seq<char>| true implies prefix_weight(
                    self.entries@,
                    q,
                    k,
                ) == if is_prefix_of(q, word@) && k == key@ {
                    sat_add_spec(prefix_weight(es0, q, k), weight)
                } else {
                    prefix_weight(es0, q, k)
                } by {
                    lemma_prefix_weight_push(es0, ev, q, k);
                    if is_prefix_of(q, word@) && k != key@ {
                        crate::weights::lemma_sat_add_comm(prefix_weight(es0, q, k), 0);
                    }
                }
                assert(final(self).words() =~= old(self).words().insert(word@)) by {
                    assert forall|w: Seq<char>| has_word(self.entries@, w) implies (has_word(
                        es0,
                        w,
                    ) || w == word@) by {
                        let x = choose|x: int|
                            0 <= x < self.entries@.len() && self.entries@[x].word@ == w;
                        if x < n0 {
                            assert(es0[x].word@ == w);
                        }
                    }
                    assert forall|w: Seq<char>| has_word(es0, w) implies has_word(
                        self.entries@,
                        w,
                    ) by {
                        let x = choose|x: int| 0 <= x < es0.len() && es0[x].word@ == w;
                        assert(self.entries@[x].word@ == w);
                    }
                    assert(has_word(self.entries@, word@));
                }
            }
        } else {
            proof {
                assert forall|w: Seq<char>, k: Seq<char>| true implies exact_weight(
                    self.entries@,
                    w,
                    k,
                ) == if w == word@ && k == key@ {
                    sat_add_spec(exact_weight(es0, w, k), weight)
                } else {
                    exact_weight(es0, w, k)
                } by {}
            }
        }
    }

    /// The merged posting of every indexed word having `q` as a prefix:
    /// for each key, the clamped sum of its weights under those words.
    pub fn lookup_prefix(&self, q: &str) -> (r: Vec<(String, u64)>)
        requires
            self.wf(),
        ensures
            kw_wf(r@),
            forall|k: Seq<char>| kw_weight(r@, k) == prefix_weight(self.entries@, q@, k),
    {
        let ghost es = self.entries@;
        let mut acc: Vec<(String, u64)> = Vec::new();
        let n = self.entries.len();
        let mut i: usize = 0;
        proof {
            assert(es.take(0) =~= Seq::<IndexEntry>::empty());
        }
        while i < n
            invariant
                self.wf(),
                es == self.entries@,
                n == es.len(),
                i <= n,
                kw_wf(acc@),
                forall|k: Seq<char>|
                    kw_weight(acc@, k) == prefix_weight(es.take(i as int), q@, k),
            decreases n - i,
        {
            let ghost prev = acc@;
            let entry = &self.entries[i];
            if str_has_prefix(entry.word.as_str(), q) {
                let m = entry.posting.len();
                let mut j: usize = 0;
                proof {
                    assert(entry.posting@.take(0) =~= Seq::<(String, u64)>::empty());
                    assert forall|k: Seq<char>| true implies kw_weight(acc@, k) == sat_add_spec(
                        prefix_weight(es.take(i as int), q@, k),
                        kw_weight(entry.posting@.take(0), k),
                    ) by {
                        crate::weights::lemma_sat_add_comm(
                            prefix_weight(es.take(i as int), q@, k),
                            0,
                        );
                    }
                }
                while j < m
                    invariant
                        self.wf(),
                        es == self.entries@,
                        n == es.len(),
                        i < n,
                        entry == &self.entries[i as int],
                        m == entry.posting@.len(),
                        j <= m,
                        kw_wf(entry.posting@),
                        kw_wf(acc@),
                        forall|k: Seq<char>|
                            kw_weight(acc@, k) == sat_add_spec(
                                prefix_weight(es.take(i as int), q@, k),
                                kw_weight(entry.posting@.take(j as int), k),
                            ),
                    decreases m - j,
                {
                    let ghost accprev = acc@;
                    let pk = &entry.posting[j];
                    posting_accumulate(&mut acc, &pk.0, pk.1);
                    proof {
                        let pj = entry.posting@[j as int];
                        assert(entry.posting@.take(j as int).push(pj) =~= entry.posting@.take(
                            j as int + 1,
                        ));
                        assert forall|k: Seq<char>| true implies kw_weight(acc@, k)
                            == sat_add_spec(
                            prefix_weight(es.take(i as int), q@, k),
                            kw_weight(entry.posting@.take(j as int + 1), k),
                        ) by {
                            lemma_kw_weight_push(entry.posting@.take(j as int), pj, k);
                            if k == pj.0@ {
                                assert(!kw_has(entry.posting@.take(j as int), k)) by {
                                    if kw_has(entry.posting@.take(j as int), k) {
                                        let x = choose|x: int|
                                            0 <= x < j && entry.posting@.take(j as int)[x].0@
                                                == k;
                                        assert(entry.posting@[x].0@ == entry.posting@[
                                        j as int].0@);
                                    }
                                }
                            }
                            if !kw_has(entry.posting@.take(j as int), k) {
                                lemma_kw_weight_absent(entry.posting@.take(j as int), k);
                            }
                        }
                    }
                    j = j + 1;
                }
                proof {
                    assert(entry.posting@.take(m as int) =~= entry.posting@);
                    assert(es.take(i as int).push(es[i as int]) =~= es.take(i as int + 1));
                    assert forall|k: Seq<char>| true implies kw_weight(acc@, k) == prefix_weight(
                        es.take(i as int + 1),
                        q@,
                        k,
                    ) by {
                        lemma_prefix_weight_push(es.take(i as int), es[i as int], q@, k);
                        crate::weights::lemma_sat_add_comm(
                            prefix_weight(es.take(i as int), q@, k),
                            kw_weight(es[i as int].posting@, k),
                        );
                    }
                }
            } else {
                proof {
                    assert(es.take(i as int).push(es[i as int]) =~= es.take(i as int + 1));
                    assert forall|k: Seq<char>| true implies kw_weight(acc@, k) == prefix_weight(
                        es.take(i as int + 1),
                        q@,
                        k,
                    ) by {
                        lemma_prefix_weight_push(es.take(i as int), es[i as int], q@, k);
                    }
                }
            }
            i = i + 1;
        }
        proof {
            assert(es.take(n as int) =~= es);
        }
        acc
    }

    /// The posting of exactly the word `w`; empty when `w` is not indexed.
    pub fn lookup_exact(&self, w: &String) -> (r: Vec<(String, u64)>)
        requires
            self.wf(),
        ensures
            kw_wf(r@),
            forall|k: Seq<char>| kw_weight(r@, k) == exact_weight(self.entries@, w@, k),
    {
        let ghost es = self.entries@;
        let n = self.entries.len();
        let mut i: usize = 0;
        while i < n
            invariant
                self.wf(),
                es == self.entries@,
                n == es.len(),
                i <= n,
                forall|j: int| 0 <= j < i ==> es[j].word@ != w@,
            decreases n - i,
        {
            if self.entries[i].word == *w {
                let r = posting_clone(&self.entries[i].posting);
                proof {
                    assert forall|k: Seq<char>| true implies kw_weight(r@, k) == exact_weight(
                        es,
                        w@,
                        k,
                    ) by {
                        lemma_exact_weight_at(es, i as int, k);
                    }
                }
                return r;
            }
            i = i + 1;
        }
        let r: Vec<(String, u64)> = Vec::new();
        proof {
            assert(!has_word(es, w@));
            assert forall|k: Seq<char>| true implies kw_weight(r@, k) == exact_weight(
                es,
                w@,
                k,
            ) by {
                lemma_exact_weight_absent(es, w@, k);
            }
        }
        r
    }
}


/// Replacing an entry's posting rewrites the exact mapping of exactly its
/// word.
pub proof fn lemma_exact_weight_update_posting(
    es: Seq<IndexEntry>,
    i: int,
    e2: IndexEntry,
    w: Seq<char>,
    k: Seq<char>,
)
    requires
        entries_distinct(es),
        0 <= i < es.len(),
        e2.word@ == es[i].word@,
    ensures
        exact_weight(es.update(i, e2), w, k) == if w == es[i].word@ {
            kw_weight(e2.posting@, k)
        } else {
            exact_weight(es, w, k)
        },
    decreases es.len(),
{
    let es2 = es.update(i, e2);
    lemma_es_drop_first(es);
    if i == 0 {
        assert(es2[0] == e2);
        assert(es2.drop_first() =~= es.drop_first());
    } else {
        assert(es2[0] == es[0]);
        assert(es2.drop_first() =~= es.drop_first().update(i - 1, e2));
        assert(entries_distinct(es.drop_first()));
        assert(es.drop_first()[i - 1] == es[i]);
        lemma_exact_weight_update_posting(es.drop_first(), i - 1, e2, w, k);
        if w == es[i].word@ {
            assert(es[0].word@ != es[i].word@);
        }
    }
}

/// Removing an entry deletes exactly its word from the exact mapping.
pub proof fn lemma_exact_weight_remove_entry(
    es: Seq<IndexEntry>,
    i: int,
    w: Seq<char>,
    k: Seq<char>,
)
    requires
        entries_distinct(es),
        0 <= i < es.len(),
    ensures
        exact_weight(es.remove(i), w, k) == if w == es[i].word@ {
            0u64
        } else {
            exact_weight(es, w, k)
        },
    decreases es.len(),
{
    let es2 = es.remove(i);
    lemma_es_drop_first(es);
    if i == 0 {
        assert(es2 =~= es.drop_first());
        if w == es[0].word@ {
            assert(!has_word(es.drop_first(), w)) by {
                if has_word(es.drop_first(), w) {
                    let x = choose|x: int|
                        0 <= x < es.drop_first().len() && (#[trigger] es.drop_first()[x]).word@
                            == w;
                    assert(es[x + 1].word@ == w);
                }
            }
            lemma_exact_weight_absent(es.drop_first(), w, k);
        }
    } else {
        assert(es2[0] == es[0]);
        assert(es2.drop_first() =~= es.drop_first().remove(i - 1));
        assert(entries_distinct(es.drop_first()));
        assert(es.drop_first()[i - 1] == es[i]);
        lemma_exact_weight_remove_entry(es.drop_first(), i - 1, w, k);
        if w == es[i].word@ {
            assert(es[0].word@ != es[i].word@);
        }
    }
}

/// Replacing an entry's posting keeps a prefix sum at `k` whenever the
/// prefix does not reach the entry's word, or the old and new postings
/// agree at `k`.
pub proof fn lemma_prefix_weight_update_same(
    es: Seq<IndexEntry>,
    i: int,
    e2: IndexEntry,
    q: Seq<char>,
    k: Seq<char>,
)
    requires
        0 <= i < es.len(),
        e2.word@ == es[i].word@,
        is_prefix_of(q, es[i].word@) ==> kw_weight(e2.posting@, k) == kw_weight(
            es[i].posting@,
            k,
        ),
    ensures
        prefix_weight(es.update(i, e2), q, k) == prefix_weight(es, q, k),
    decreases es.len(),
{
    let es2 = es.update(i, e2);
    lemma_es_drop_first(es);
    if i == 0 {
        assert(es2[0] == e2);
        assert(es2.drop_first() =~= es.drop_first());
    } else {
        assert(es2[0] == es[0]);
        assert(es2.drop_first() =~= es.drop_first().update(i - 1, e2));
        assert(es.drop_first()[i - 1] == es[i]);
        lemma_prefix_weight_update_same(es.drop_first(), i - 1, e2, q, k);
    }
}

/// Removing an entry keeps a prefix sum at `k` whenever the prefix does
/// not reach the entry's word, or the entry's posting does not hold `k`.
pub proof fn lemma_prefix_weight_remove_zero(
    es: Seq<IndexEntry>,
    i: int,
    q: Seq<char>,
    k: Seq<char>,
)
    requires
        0 <= i < es.len(),
        is_prefix_of(q, es[i].word@) ==> kw_weight(es[i].posting@, k) == 0,
    ensures
        prefix_weight(es.remove(i), q, k) == prefix_weight(es, q, k),
    decreases es.len(),
{
    let es2 = es.remove(i);
    lemma_es_drop_first(es);
    if i == 0 {
        assert(es2 =~= es.drop_first());
    } else {
        assert(es2[0] == es[0]);
        assert(es2.drop_first() =~= es.drop_first().remove(i - 1));
        assert(es.drop_first()[i - 1] == es[i]);
        lemma_prefix_weight_remove_zero(es.drop_first(), i - 1, q, k);
    }
}

impl PostingIndex {
    /// Subtracts `weight` from the accumulated weight of `(word, key)`,
    /// clamping at zero; a pair whose weight reaches zero is pruned, and a
    /// word left with no keys leaves the index and the vocabulary, so a
    /// present word always has a key with positive weight.  No other key's
    /// weight, under any word or prefix, changes.
    pub fn remove_word(&mut self, key: &String, word: &String, weight: u64)
        requires
            old(self).wf(),
        ensures
            final(self).wf(),
            forall|w: Seq<char>, k: Seq<char>|
                exact_weight(final(self).entries@, w, k) == if w == word@ && k == key@ {
                    sat_sub_spec(exact_weight(old(self).entries@, w, k), weight)
                } else {
                    exact_weight(old(self).entries@, w, k)
                },
            forall|q: Seq<char>, k: Seq<char>|
                k != key@ || !is_prefix_of(q, word@) ==> prefix_weight(
                    final(self).entries@,
                    q,
                    k,
                ) == prefix_weight(old(self).entries@, q, k),
            final(self).words() == if old(self).words().contains(word@) && (forall|k: Seq<char>|
                exact_weight(final(self).entries@, word@, k) == 0) {
                old(self).words().remove(word@)
            } else {
                old(self).words()
            },
    {
        let ghost es0 = self.entries@;
        let n = self.entries.len();
        let mut i: usize = 0;
        while i < n
            invariant
                self.entries@ == es0,
                es0 == old(self).entries@,
                entries_wf(es0),
                n == es0.len(),
                i <= n,
                forall|j: int| 0 <= j < i ==> es0[j].word@ != word@,
            decreases n - i,
        {
            if self.entries[i].word == *word {
                let mut p = posting_clone(&self.entries[i].posting);
                posting_discount(&mut p, key, weight);
                let ghost pview = p@;
                proof {
                    lemma_exact_weight_at(es0, i as int, key@);
                }
                if p.len() == 0 {
                    self.entries.remove(i);
                    proof {
                        assert(self.entries@ == es0.remove(i as int));
                        assert(entries_wf(self.entries@)) by {
                            assert forall|x: int|
                                0 <= x < self.entries@.len() implies (#[trigger] self.entries@[x])
                                == es0[if x < i {
                                x
                            } else {
                                x + 1
                            }] by {}
                            assert forall|x: int, y: int|
                                0 <= x < y < self.entries@.len() implies self.entries@[x].word@
                                != self.entries@[y].word@ by {
                                let px: int = if x < i {
                                    x
                                } else {
                                    x + 1
                                };
                                let py: int = if y < i {
                                    y
                                } else {
                                    y + 1
                                };
                                assert(self.entries@[x] == es0[px]);
                                assert(self.entries@[y] == es0[py]);
                            }
                        }
                        assert forall|w: Seq<char>, k: Seq<char>| true implies exact_weight(
                            self.entries@,
                            w,
                            k,
                        ) == if w == word@ && k == key@ {
                            sat_sub_spec(exact_weight(es0, w, k), weight)
                        } else {
                            exact_weight(es0, w, k)
                        } by {
                            lemma_exact_weight_remove_entry(es0, i as int, w, k);
                            if w == word@ && k != key@ {
                                assert(kw_weight(pview, k) == kw_weight(es0[i as int].posting@, k));
                                lemma_kw_weight_absent(pview, k);
                                lemma_exact_weight_at(es0, i as int, k);
                            }
                            if w == word@ && k == key@ {
                                assert(kw_weight(pview, k) == sat_sub_spec(
                                    kw_weight(es0[i as int].posting@, k),
                                    weight,
                                ));
                                lemma_kw_weight_absent(pview, k);
                            }
                        }
                        assert forall|q: Seq<char>, k: Seq<char>|
                            k != key@ || !is_prefix_of(q, word@) implies prefix_weight(
                            self.entries@,
                            q,
                            k,
                        ) == prefix_weight(es0, q, k) by {
                            if k != key@ {
                                assert(kw_weight(pview, k) == kw_weight(es0[i as int].posting@, k));
                                lemma_kw_weight_absent(pview, k);
                            }
                            lemma_prefix_weight_remove_zero(es0, i as int, q, k);
                        }
                        assert(final(self).words() =~= old(self).words().remove(word@)) by {
                            assert forall|w: Seq<char>| has_word(self.entries@, w) implies (
                            has_word(es0, w) && w != word@) by {
                                let x = choose|x: int|
                                    0 <= x < self.entries@.len() && (#[trigger] self.entries@[
                                    x]).word@ == w;
                                let px: int = if x < i {
                                    x
                                } else {
                                    x + 1
                                };
                                assert(self.entries@[x] == es0[px]);
                                if w == word@ {
                                    assert(es0[px].word@ == es0[i as int].word@);
                                }
                            }
                            assert forall|w: Seq<char>| has_word(es0, w) && w != word@ implies
                                has_word(self.entries@, w) by {
                                let x = choose|x: int|
                                    0 <= x < es0.len() && (#[trigger] es0[x]).word@ == w;
                                if x < i {
                                    assert(self.entries@[x] == es0[x]);
                                } else {
                                    assert(x != i);
                                    assert(self.entries@[x - 1] == es0[x]);
                                }
                            }
                        }
                        assert(has_word(es0, word@));
                        assert(old(self).words().contains(word@));
                        assert forall|k: Seq<char>| true implies exact_weight(
                            self.entries@,
                            word@,
                            k,
                        ) == 0 by {
                            lemma_exact_weight_remove_entry(es0, i as int, word@, k);
                            if k != key@ {
                                assert(kw_weight(pview, k) == kw_weight(es0[i as int].posting@, k));
                                lemma_kw_weight_absent(pview, k);
                            }
                        }
                    }
                } else {
                    let k0 = self.entries[i].word.clone();
                    let e2 = IndexEntry { word: k0, posting: p };
                    self.entries[i] = e2;
                    proof {
                        let e2v = self.entries@[i as int];
                        assert(self.entries@ == es0.update(i as int, e2v));
                        assert(e2v.word@ == es0[i as int].word@);
                        assert(e2v.posting@ == pview);
                        assert(entries_wf(self.entries@)) by {
                            assert(forall|x: int|
                                0 <= x < es0.len() && x != i ==> #[trigger] self.entries@[x]
                                    == es0[x]);
                        }
                        assert forall|w: Seq<char>, k: Seq<char>| true implies exact_weight(
                            self.entries@,
                            w,
                            k,
                        ) == if w == word@ && k == key@ {
                            sat_sub_spec(exact_weight(es0, w, k), weight)
                        } else {
                            exact_weight(es0, w, k)
                        } by {
                            lemma_exact_weight_update_posting(es0, i as int, e2v, w, k);
                            if w == word@ {
                                lemma_exact_weight_at(es0, i as int, k);
                            }
                        }
                        assert forall|q: Seq<char>, k: Seq<char>|
                            k != key@ || !is_prefix_of(q, word@) implies prefix_weight(
                            self.entries@,
                            q,
                            k,
                        ) == prefix_weight(es0, q, k) by {
                            lemma_prefix_weight_update_same(es0, i as int, e2v, q, k);
                        }
                        assert(final(self).words() =~= old(self).words()) by {
                            assert forall|w: Seq<char>| true implies (has_word(self.entries@, w)
                                == has_word(es0, w)) by {
                                if has_word(self.entries@, w) {
                                    let x = choose|x: int|
                                        0 <= x < self.entries@.len() && (
                                        #[trigger] self.entries@[x]).word@ == w;
                                    assert(es0[x].word@ == w);
                                }
                                if has_word(es0, w) {
                                    let x = choose|x: int|
                                        0 <= x < es0.len() && (#[trigger] es0[x]).word@ == w;
                                    assert(self.entries@[x].word@ == w);
                                }
                            }
                        }
                        assert(has_word(es0, word@));
                        assert(old(self).words().contains(word@));
                        assert(exact_weight(self.entries@, word@, pview[0].0@) != 0) by {
                            lemma_exact_weight_update_posting(
                                es0,
                                i as int,
                                e2v,
                                word@,
                                pview[0].0@,
                            );
                            crate::posting::lemma_kw_weight_at(pview, 0);
                        }
                        assert(!(forall|k: Seq<char>|
                            exact_weight(self.entries@, word@, k) == 0));
                    }
                }
                return ;
            }
            i = i + 1;
        }
        proof {
            assert(!has_word(es0, word@));
            assert forall|w: Seq<char>, k: Seq<char>| true implies exact_weight(
                self.entries@,
                w,
                k,
            ) == if w == word@ && k == key@ {
                sat_sub_spec(exact_weight(es0, w, k), weight)
            } else {
                exact_weight(es0, w, k)
            } by {
                if w == word@ {
                    lemma_exact_weight_absent(es0, w, k);
                }
            }
            assert(!old(self).words().contains(word@));
        }
    }
}

} // verus!
