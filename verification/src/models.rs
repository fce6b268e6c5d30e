//! Profile records and the searchable collection of them: per-field
//! search weights, cleanup of blank optional fields, and construction of
//! the search snapshot from one full batch of parsed records.

use crate::index::exact_weight;
use crate::index::prefix_weight;
use crate::matcher::tree_words;
use crate::norm::join_spaced;
use crate::norm::norm_words;
use crate::search::any_hit;
use crate::search::batch_exact_weight;
use crate::search::batch_prefix_weight;
use crate::search::batch_words;
use crate::search::corrected;
use crate::search::pair_views;
use crate::search::ranked_post;
use crate::search::rec_views;
use crate::search::SearchIndex;
use vstd::prelude::*;
use vstd::string::StrSliceExecFns;
use vstd::string::StringExecFns;

verus! {

/// Whether a character counts as white space.
pub uninterp spec fn white_char(c: char) -> bool;

/// Relies on `char::is_whitespace`: the Unicode white-space property of a
/// character, a function of the character alone.
#[verifier::external_body]
fn char_is_whitespace(c: char) -> (r: bool)
    ensures
        r == white_char(c),
{
    c.is_whitespace()
}

/// Every character of the text is white space.
pub open spec fn all_white(s: Seq<char>) -> bool {
    forall|i: int| 0 <= i < s.len() ==> white_char(s[i])
}

/// Tests whether a text consists of white space alone.
pub fn is_whitespace(s: &str) -> (r: bool)
    ensures
        r == all_white(s@),
{
    let n = s.unicode_len();
    let mut i: usize = 0;
    while i < n
        invariant
            i <= n,
            n == s@.len(),
            forall|j: int| 0 <= j < i ==> white_char(s@[j]),
        decreases n - i,
    {
        let c = s.get_char(i);
        if !char_is_whitespace(c) {
            return false;
        }
        i = i + 1;
    }
    true
}

/// One profile record, as parsed from its source entry.
pub struct User {
    pub name: Option<String>,
    pub irc: Option<String>,
    pub irc_channels: Vec<String>,
    pub show_avatar: bool,
    pub email: Option<String>,
    pub discourse: Option<String>,
    pub reddit: Option<String>,
    pub twitter: Option<String>,
    pub blog: Option<String>,
    pub website: Option<String>,
    pub notes: Option<String>,
}

/// An optional field with blank text treated as absent.
pub open spec fn cleared(f: Option<String>) -> Option<String> {
    match f {
        Option::Some(s) => if all_white(s@) {
            Option::None
        } else {
            Option::Some(s)
        },
        Option::None => Option::None,
    }
}

/// The searchable texts of a record with their weights, in a fixed order:
/// names weigh more than links and notes.
pub open spec fn fields_of(u: User) -> Seq<(Seq<char>, u64)> {
    opt_entry(u.name, 20) + opt_entry(u.irc, 10) + opt_entry(u.email, 1) + opt_entry(
        u.discourse,
        10,
    ) + opt_entry(u.reddit, 10) + opt_entry(u.twitter, 10) + opt_entry(u.blog, 1) + opt_entry(
        u.website,
        1,
    ) + opt_entry(u.notes, 1) + u.irc_channels@.map_values(|c: String| (c@, 1u64))
}

/// The contribution of one optional field.
pub open spec fn opt_entry(f: Option<String>, w: u64) -> Seq<(Seq<char>, u64)> {
    match f {
        Option::Some(s) => seq![(s@, w)],
        Option::None => Seq::<(Seq<char>, u64)>::empty(),
    }
}

fn push_opt(out: &mut Vec<(String, u64)>, f: &Option<String>, w: u64)
    ensures
        pair_views(final(out)@) == pair_views(old(out)@) + opt_entry(*f, w),
{
    let ghost base = pair_views(out@);
    match f {
        Option::Some(s) => {
            out.push((s.clone(), w));
            proof {
                assert(pair_views(out@) =~= base + opt_entry(*f, w));
            }
        },
        Option::None => {
            proof {
                assert(pair_views(out@) =~= base + opt_entry(*f, w));
            }
        },
    }
}

impl User {
    /// Replaces each optional field that holds only white space by an
    /// absent field: blank text means "not applicable".
    pub fn remove_empty_strings(&mut self)
        ensures
            final(self).name == cleared(old(self).name),
            final(self).irc == cleared(old(self).irc),
            final(self).email == cleared(old(self).email),
            final(self).discourse == cleared(old(self).discourse),
            final(self).reddit == cleared(old(self).reddit),
            final(self).twitter == cleared(old(self).twitter),
            final(self).blog == cleared(old(self).blog),
            final(self).website == cleared(old(self).website),
            final(self).notes == cleared(old(self).notes),
            final(self).irc_channels == old(self).irc_channels,
            final(self).show_avatar == old(self).show_avatar,
    {
        let blank_name = match &self.name {
            Option::Some(s) => is_whitespace(s.as_str()),
            Option::None => false,
        };
        if blank_name {
            self.name = Option::None;
        }
        let blank_irc = match &self.irc {
            Option::Some(s) => is_whitespace(s.as_str()),
            Option::None => false,
        };
        if blank_irc {
            self.irc = Option::None;
        }
        let blank_email = match &self.email {
            Option::Some(s) => is_whitespace(s.as_str()),
            Option::None => false,
        };
        if blank_email {
            self.email = Option::None;
        }
        let blank_discourse = match &self.discourse {
            Option::Some(s) => is_whitespace(s.as_str()),
            Option::None => false,
        };
        if blank_discourse {
            self.discourse = Option::None;
        }
        let blank_reddit = match &self.reddit {
            Option::Some(s) => is_whitespace(s.as_str()),
            Option::None => false,
        };
        if blank_reddit {
            self.reddit = Option::None;
        }
        let blank_twitter = match &self.twitter {
            Option::Some(s) => is_whitespace(s.as_str()),
            Option::None => false,
        };
        if blank_twitter {
            self.twitter = Option::None;
        }
        let blank_blog = match &self.blog {
            Option::Some(s) => is_whitespace(s.as_str()),
            Option::None => false,
        };
        if blank_blog {
            self.blog = Option::None;
        }
        let blank_website = match &self.website {
            Option::Some(s) => is_whitespace(s.as_str()),
            Option::None => false,
        };
        if blank_website {
            self.website = Option::None;
        }
        let blank_notes = match &self.notes {
            Option::Some(s) => is_whitespace(s.as_str()),
            Option::None => false,
        };
        if blank_notes {
            self.notes = Option::None;
        }
    }

    /// Lists every searchable field of this record with its weight.
    pub fn with_str_fields(&self) -> (r: Vec<(String, u64)>)
        ensures
            pair_views(r@) == fields_of(*self),
    {
        let mut out: Vec<(String, u64)> = Vec::new();
        proof {
            assert(pair_views(out@) =~= Seq::<(Seq<char>, u64)>::empty());
        }
        push_opt(&mut out, &self.name, 20);
        push_opt(&mut out, &self.irc, 10);
        push_opt(&mut out, &self.email, 1);
        push_opt(&mut out, &self.discourse, 10);
        push_opt(&mut out, &self.reddit, 10);
        push_opt(&mut out, &self.twitter, 10);
        push_opt(&mut out, &self.blog, 1);
        push_opt(&mut out, &self.website, 1);
        push_opt(&mut out, &self.notes, 1);
        let ghost base = pair_views(out@);
        let n = self.irc_channels.len();
        let mut i: usize = 0;
        proof {
            assert(base + self.irc_channels@.take(0).map_values(|c: String| (c@, 1u64)) =~= base);
        }
        while i < n
            invariant
                n == self.irc_channels@.len(),
                i <= n,
                pair_views(out@) == base + self.irc_channels@.take(i as int).map_values(
                    |c: String| (c@, 1u64),
                ),
            decreases n - i,
        {
            let ghost prev = pair_views(out@);
            out.push((self.irc_channels[i].clone(), 1));
            proof {
                let ch = self.irc_channels@;
                let mapped1 = ch.take(i as int + 1).map_values(|c: String| (c@, 1u64));
                let mapped0 = ch.take(i as int).map_values(|c: String| (c@, 1u64));
                assert(pair_views(out@).len() == prev.len() + 1);
                assert forall|x: int| 0 <= x < pair_views(out@).len() implies pair_views(out@)[x]
                    == (base + mapped1)[x] by {
                    assert(pair_views(out@)[x] == (out@[x].0@, out@[x].1));
                    if x < prev.len() {
                        assert(out@[x] == out@.drop_last()[x]);
                        assert(prev[x] == (base + mapped0)[x]);
                        if x >= base.len() {
                            assert(mapped0[x - base.len()] == (ch.take(i as int)[x - base.len()]@,
                                1u64));
                            assert(mapped1[x - base.len()] == (ch.take(i as int + 1)[x
                                - base.len()]@, 1u64));
                        }
                    } else {
                        assert(out@[x] == out@.last());
                        assert(mapped1[i as int] == (ch.take(i as int + 1)[i as int]@, 1u64));
                    }
                }
                assert(pair_views(out@) =~= base + mapped1);
            }
            i = i + 1;
        }
        proof {
            assert(self.irc_channels@.take(n as int) =~= self.irc_channels@);
            assert(pair_views(out@) =~= fields_of(*self));
        }
        out
    }
}

/// A channel name with its leading marker characters removed.
pub open spec fn strip_hashes(s: Seq<char>) -> Seq<char>
    decreases s.len(),
{
    if s.len() > 0 && s[0] == '#' {
        strip_hashes(s.drop_first())
    } else {
        s
    }
}

fn strip_hash_prefix(s: &str) -> (r: String)
    ensures
        r@ == strip_hashes(s@),
{
    let n = s.unicode_len();
    let mut i: usize = 0;
    proof {
        assert(s@.skip(0) =~= s@);
    }
    while i < n
        invariant
            i <= n,
            n == s@.len(),
            strip_hashes(s@) == strip_hashes(s@.skip(i as int)),
        decreases n - i,
    {
        proof {
            assert(s@.skip(i as int)[0] == s@[i as int]);
            assert(s@.skip(i as int).drop_first() =~= s@.skip(i as int + 1));
        }
        let c = s.get_char(i);
        if c != '#' {
            let tail = s.substring_char(i, n);
            proof {
                assert(s@.subrange(i as int, n as int) =~= s@.skip(i as int));
            }
            return String::from_str(tail);
        }
        i = i + 1;
    }
    proof {
        assert(s@.skip(n as int).len() == 0);
        assert(strip_hashes(s@.skip(n as int)) =~= s@.skip(n as int));
    }
    String::new()
}

impl User {
    /// Removes the leading channel markers from every listed channel, as
    /// channel names are stored without them.
    pub fn strip_channel_prefixes(&mut self)
        ensures
            final(self).irc_channels.deep_view() == old(self).irc_channels.deep_view().map_values(
                |c: Seq<char>| strip_hashes(c),
            ),
            final(self).name == old(self).name,
            final(self).irc == old(self).irc,
            final(self).show_avatar == old(self).show_avatar,
            final(self).email == old(self).email,
            final(self).discourse == old(self).discourse,
            final(self).reddit == old(self).reddit,
            final(self).twitter == old(self).twitter,
            final(self).blog == old(self).blog,
            final(self).website == old(self).website,
            final(self).notes == old(self).notes,
    {
        let ghost ch0 = self.irc_channels.deep_view();
        let n = self.irc_channels.len();
        let mut i: usize = 0;
        while i < n
            invariant
                n == self.irc_channels@.len(),
                i <= n,
                ch0.len() == n,
                forall|j: int|
                    i <= j < n ==> (#[trigger] self.irc_channels@[j])@ == ch0[j],
                forall|j: int|
                    0 <= j < i ==> (#[trigger] self.irc_channels@[j])@ == strip_hashes(ch0[j]),
                self.name == old(self).name,
                self.irc == old(self).irc,
                self.show_avatar == old(self).show_avatar,
                self.email == old(self).email,
                self.discourse == old(self).discourse,
                self.reddit == old(self).reddit,
                self.twitter == old(self).twitter,
                self.blog == old(self).blog,
                self.website == old(self).website,
                self.notes == old(self).notes,
                ch0 == old(self).irc_channels.deep_view(),
            decreases n - i,
        {
            let stripped = strip_hash_prefix(self.irc_channels[i].as_str());
            self.irc_channels[i] = stripped;
            i = i + 1;
        }
        proof {
            assert(self.irc_channels.deep_view() =~= ch0.map_values(
                |c: Seq<char>| strip_hashes(c),
            )) by {
                assert(forall|j: int|
                    0 <= j < n ==> self.irc_channels.deep_view()[j] == (
                    #[trigger] self.irc_channels@[j])@);
            }
        }
    }
}

/// The index triples one data entry contributes: the identifier itself as
/// a searchable text with weight ten, then, for a record that parsed, each
/// of its fields under the same identifier.
pub open spec fn entry_triples(e: (String, Result<User, String>)) -> Seq<
    (Seq<char>, Seq<char>, u64),
> {
    seq![(e.0@, e.0@, 10u64)] + match e.1 {
        Result::Ok(u) => fields_of(u).map_values(|f: (Seq<char>, u64)| (e.0@, f.0, f.1)),
        Result::Err(_) => Seq::<(Seq<char>, Seq<char>, u64)>::empty(),
    }
}

/// The full index batch of a data set.
pub open spec fn records_of(data: Seq<(String, Result<User, String>)>) -> Seq<
    (Seq<char>, Seq<char>, u64),
>
    decreases data.len(),
{
    if data.len() == 0 {
        Seq::<(Seq<char>, Seq<char>, u64)>::empty()
    } else {
        records_of(data.drop_last()) + entry_triples(data.last())
    }
}

fn flatten_records(data: &Vec<(String, Result<User, String>)>) -> (r: Vec<(String, String, u64)>)
    ensures
        rec_views(r@) == records_of(data@),
{
    let mut out: Vec<(String, String, u64)> = Vec::new();
    let n = data.len();
    let mut i: usize = 0;
    proof {
        assert(data@.take(0).len() == 0);
        assert(rec_views(out@) =~= records_of(data@.take(0)));
    }
    while i < n
        invariant
            n == data@.len(),
            i <= n,
            rec_views(out@) == records_of(data@.take(i as int)),
        decreases n - i,
    {
        let ghost base = rec_views(out@);
        let e = &data[i];
        out.push((e.0.clone(), e.0.clone(), 10));
        match &e.1 {
            Result::Ok(u) => {
                let fields = u.with_str_fields();
                let ghost fv = fields_of(*u);
                let ghost mapped = fv.map_values(|f: (Seq<char>, u64)| (e.0@, f.0, f.1));
                let m = fields.len();
                let mut j: usize = 0;
                proof {
                    assert(pair_views(fields@).len() == fv.len());
                    assert(rec_views(out@) =~= base + seq![(e.0@, e.0@, 10u64)] + mapped.take(0));
                }
                while j < m
                    invariant
                        m == fields@.len(),
                        j <= m,
                        i < n,
                        n == data@.len(),
                        e == &data@[i as int],
                        pair_views(fields@) == fv,
                        mapped == fv.map_values(|f: (Seq<char>, u64)| (e.0@, f.0, f.1)),
                        fv.len() == m,
                        rec_views(out@) == base + seq![(e.0@, e.0@, 10u64)] + mapped.take(
                            j as int,
                        ),
                    decreases m - j,
                {
                    let ghost prev = rec_views(out@);
                    out.push((e.0.clone(), fields[j].0.clone(), fields[j].1));
                    proof {
                        assert(pair_views(fields@)[j as int] == (fields@[j as int].0@, fields@[
                        j as int].1));
                        assert(mapped[j as int] == (e.0@, fv[j as int].0, fv[j as int].1));
                        let want = base + seq![(e.0@, e.0@, 10u64)] + mapped.take(j as int + 1);
                        assert(rec_views(out@).len() == prev.len() + 1);
                        assert forall|x: int| 0 <= x < rec_views(out@).len() implies rec_views(
                            out@,
                        )[x] == want[x] by {
                            assert(rec_views(out@)[x] == (out@[x].0@, out@[x].1@, out@[x].2));
                            if x < prev.len() {
                                assert(out@[x] == out@.drop_last()[x]);
                                let before = base + seq![(e.0@, e.0@, 10u64)] + mapped.take(
                                    j as int,
                                );
                                assert(prev[x] == before[x]);
                                if x >= base.len() + 1 {
                                    assert(mapped.take(j as int)[x - base.len() - 1]
                                        == mapped[x - base.len() - 1]);
                                    assert(mapped.take(j as int + 1)[x - base.len() - 1]
                                        == mapped[x - base.len() - 1]);
                                }
                            } else {
                                assert(out@[x] == out@.last());
                                assert(mapped.take(j as int + 1)[j as int] == mapped[j as int]);
                            }
                        }
                        assert(rec_views(out@) =~= want);
                    }
                    j = j + 1;
                }
                proof {
                    assert(mapped.take(m as int) =~= mapped);
                }
            },
            Result::Err(_) => {
            },
        }
        proof {
            assert(data@.take(i as int + 1).drop_last() =~= data@.take(i as int));
            assert(data@.take(i as int + 1).last() == data@[i as int]);
            assert(rec_views(out@) =~= records_of(data@.take(i as int + 1))) by {
                assert(records_of(data@.take(i as int + 1)) == records_of(data@.take(i as int))
                    + entry_triples(data@[i as int]));
            }
        }
        i = i + 1;
    }
    proof {
        assert(data@.take(n as int) =~= data@);
    }
    out
}

/// The parsed data set together with its search snapshot, always built
/// together from one batch and immutable afterwards; refreshing data means
/// building a brand-new value and replacing the old one whole.
pub struct Users {
    pub data: Vec<(String, Result<User, String>)>,
    pub index: SearchIndex,
}

/// The entry stored under an identifier, if any: the first with that
/// identifier.
pub open spec fn data_find(
    data: Seq<(String, Result<User, String>)>,
    id: Seq<char>,
) -> Option<Result<User, String>>
    decreases data.len(),
{
    if data.len() == 0 {
        Option::None
    } else if data[0].0@ == id {
        Option::Some(data[0].1)
    } else {
        data_find(data.drop_first(), id)
    }
}

impl Users {
    /// Structural invariant of the collection.
    pub open spec fn wf(self) -> bool {
        self.index.wf()
    }

    /// Builds the collection and its search snapshot from one full batch
    /// of parsed records: each identifier is indexed under itself with
    /// weight ten, so that even an entry that failed to parse remains
    /// discoverable by id, and each parsed record's fields are indexed
    /// under its identifier with their weights.
    pub fn load(data: Vec<(String, Result<User, String>)>) -> (r: Users)
        ensures
            r.wf(),
            r.data@ == data@,
            forall|q: Seq<char>, k: Seq<char>|
                prefix_weight(r.index.index.entries@, q, k) == batch_prefix_weight(
                    records_of(data@),
                    q,
                    k,
                ),
            forall|w: Seq<char>, k: Seq<char>|
                exact_weight(r.index.index.entries@, w, k) == batch_exact_weight(
                    records_of(data@),
                    w,
                    k,
                ),
            r.index.index.words() == batch_words(records_of(data@)),
    {
        let triples = flatten_records(&data);
        let index = SearchIndex::build(&triples);
        Users { data, index }
    }

    /// Looks an identifier up; the stored entry, or nothing.
    pub fn get(&self, id: &String) -> (r: Option<&Result<User, String>>)
        ensures
            match r {
                Option::Some(e) => data_find(self.data@, id@) == Option::Some(*e),
                Option::None => data_find(self.data@, id@) is None,
            },
    {
        let n = self.data.len();
        let mut i: usize = 0;
        proof {
            assert(self.data@.skip(0) =~= self.data@);
        }
        while i < n
            invariant
                n == self.data@.len(),
                i <= n,
                data_find(self.data@, id@) == data_find(self.data@.skip(i as int), id@),
            decreases n - i,
        {
            proof {
                assert(self.data@.skip(i as int)[0] == self.data@[i as int]);
                assert(self.data@.skip(i as int).drop_first() =~= self.data@.skip(i as int + 1));
            }
            if self.data[i].0 == *id {
                return Option::Some(&self.data[i].1);
            }
            i = i + 1;
        }
        proof {
            assert(self.data@.skip(n as int).len() == 0);
        }
        Option::None
    }

    /// Evaluates a search query against the snapshot.
    pub fn search(&self, query: &str) -> (r: (Vec<(String, u64)>, Option<String>))
        requires
            self.wf(),
        ensures
            ({
                let ws = norm_words(query@);
                let es = self.index.index.entries@;
                let cs = corrected(tree_words(self.index.tree), ws);
                &&& any_hit(es, ws) ==> ranked_post(es, ws, r.0@) && r.1 is None
                &&& !any_hit(es, ws) && any_hit(es, cs) ==> ranked_post(es, cs, r.0@) && (
                r.1 matches Some(c) && c@ == join_spaced(cs))
                &&& !any_hit(es, ws) && !any_hit(es, cs) ==> r.0@.len() == 0 && r.1 is None
            }),
    {
        self.index.query(query)
    }

    /// Relies on `rand::random_range`: a uniformly drawn index strictly
    /// below the bound, which must be positive.
    #[verifier::external_body]
    fn pick_index(n: usize) -> (r: usize)
        requires
            n > 0,
        ensures
            r < n,
    {
        rand::random_range(0..n)
    }

    /// A randomly chosen identifier, when any records are loaded.
    pub fn random_id(&self) -> (r: Option<&String>)
        ensures
            match r {
                Option::Some(id) => exists|i: int|
                    0 <= i < self.data@.len() && (#[trigger] self.data@[i]).0 == *id,
                Option::None => self.data@.len() == 0,
            },
    {
        if self.data.len() == 0 {
            return Option::None;
        }
        let i = Self::pick_index(self.data.len());
        let id = &self.data[i].0;
        proof {
            assert(0 <= i < self.data@.len() && self.data@[i as int].0 == *id);
        }
        Option::Some(id)
    }
}

} // verus!
