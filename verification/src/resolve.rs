//! Resolving wiki-link targets and user queries to note ids.
//!
//! A link `[[target]]` is resolved by the shortest-unique-path rules: an exact
//! path, a unique basename ("stem"), or a path suffix that singles out one of
//! several notes with that stem; otherwise the first candidate in string order
//! is picked and the resolution is reported as ambiguous.

use vstd::prelude::*;
use vstd::relations::sorted_by;

use crate::front::{field, string_items, string_list, views, FrontValue};
use crate::order::{
    keys, le_of, lemma_le_of_total, lemma_map_values_multiset, lemma_pair_order, lemma_sorted_keys_unique,
    lemma_str_order, pair_order, sort_by_key, sorted_by_key, str_lt, str_order, strict_total,
    SortKey,
};
use crate::text::{
    chars_of, concat, contains_seq, ends_with, lowercase, str_contains, str_ends_with, str_eq,
    str_lowercase, string_of, substring,
};
use crate::types::{ParsedEdge, ParsedNode};

verus! {

// ---------------------------------------------------------------------------
// Stems
// ---------------------------------------------------------------------------

/// `.md`
pub open spec fn md_ext() -> Seq<char> {
    seq!['.', 'm', 'd']
}

/// Index of the last `c` in `s[..n]`, or -1.
pub open spec fn last_char_before(s: Seq<char>, c: char, n: int) -> int
    decreases n,
{
    if n <= 0 {
        -1
    } else if s[n - 1] == c {
        n - 1
    } else {
        last_char_before(s, c, n - 1)
    }
}

/// The part of `s` after its last `/` (all of `s` when it has none).
pub open spec fn basename(s: Seq<char>) -> Seq<char> {
    s.subrange(last_char_before(s, '/', s.len() as int) + 1, s.len() as int)
}

/// `s` without a trailing `.md`.
pub open spec fn strip_md(s: Seq<char>) -> Seq<char> {
    if ends_with(s, md_ext()) {
        s.subrange(0, s.len() - 3)
    } else {
        s
    }
}

/// The stem of a note id or link target: its basename without `.md`, lowercased.
pub open spec fn stem_spec(id: Seq<char>) -> Seq<char> {
    str_lowercase(strip_md(basename(id)))
}

proof fn lemma_last_char_before(s: Seq<char>, c: char, n: int)
    requires
        0 <= n <= s.len(),
    ensures
        -1 <= last_char_before(s, c, n) < n,
    decreases n,
{
    if n > 0 && s[n - 1] != c {
        lemma_last_char_before(s, c, n - 1);
    }
}

/// The stem of `id`: `"People/Alice Smith.md"` has the stem `"alice smith"`.
pub fn stem_of(id: &str) -> (r: String)
    ensures
        r@ == stem_spec(id@),
{
    let v = chars_of(id);
    let mut k = v.len();
    while k > 0 && v[k - 1] != '/'
        invariant
            k <= v@.len(),
            v@ == id@,
            last_char_before(v@, '/', k as int) == last_char_before(v@, '/', v@.len() as int),
        decreases k,
    {
        k = k - 1;
    }
    proof {
        lemma_last_char_before(v@, '/', v@.len() as int);
    }
    let n = v.len();
    let mut hi = n;
    if n - k >= 3 && v[n - 3] == '.' && v[n - 2] == 'm' && v[n - 1] == 'd' {
        hi = n - 3;
    }
    proof {
        let b = basename(v@);
        assert(b == v@.subrange(k as int, n as int));
        if n - k >= 3 && v[n - 3] == '.' && v[n - 2] == 'm' && v[n - 1] == 'd' {
            assert(b.subrange(b.len() - 3, b.len() as int) =~= md_ext());
            assert(b.subrange(0, b.len() - 3) =~= v@.subrange(k as int, hi as int));
        } else if ends_with(b, md_ext()) {
            assert(b.subrange(b.len() - 3, b.len() as int)[0] == v@[n - 3]);
            assert(b.subrange(b.len() - 3, b.len() as int)[1] == v@[n - 2]);
            assert(b.subrange(b.len() - 3, b.len() as int)[2] == v@[n - 1]);
        }
        assert(strip_md(b) =~= v@.subrange(k as int, hi as int));
    }
    let base = substring(&v, k, hi);
    lowercase(base.as_str())
}

// ---------------------------------------------------------------------------
// Link resolution
// ---------------------------------------------------------------------------

/// How a link target resolved.
#[derive(Debug, Clone, PartialEq, Eq)]
pub enum LinkResolution {
    Resolved { id: String },
    Ambiguous { picked: String, candidates: Vec<String> },
    Unresolved,
}

/// A resolution, as plain sequences.
pub enum ResolutionView {
    Resolved(Seq<char>),
    Ambiguous(Seq<char>, Seq<Seq<char>>),
    Unresolved,
}

impl View for LinkResolution {
    type V = ResolutionView;

    open spec fn view(&self) -> ResolutionView {
        match self {
            LinkResolution::Resolved { id } => ResolutionView::Resolved(id@),
            LinkResolution::Ambiguous { picked, candidates } => ResolutionView::Ambiguous(
                picked@,
                views(candidates@),
            ),
            LinkResolution::Unresolved => ResolutionView::Unresolved,
        }
    }
}

/// Strings are sorted by the string order.
impl SortKey for String {
    type K = Seq<char>;

    open spec fn key(&self) -> Seq<char> {
        self@
    }

    open spec fn key_lt() -> spec_fn(Seq<char>, Seq<char>) -> bool {
        str_order()
    }

    proof fn lemma_key_order() {
        lemma_str_order();
    }

    fn key_less(&self, other: &Self) -> (r: bool) {
        str_lt(self.as_str(), other.as_str())
    }
}

/// The ids among `ids` whose stem is `s`, in string order.
pub open spec fn cands(ids: Seq<Seq<char>>, s: Seq<char>) -> Seq<Seq<char>> {
    ids.filter(|x: Seq<char>| stem_spec(x) == s).sort_by(le_of(str_order()))
}

/// Whether some string of `v` equals `s`.
pub(crate) fn contains_string(v: &Vec<String>, s: &str) -> (r: bool)
    ensures
        r == views(v@).contains(s@),
{
    let mut i: usize = 0;
    while i < v.len()
        invariant
            i <= v@.len(),
            forall|m: int| 0 <= m < i ==> #[trigger] views(v@)[m] != s@,
        decreases v@.len() - i,
    {
        if str_eq(v[i].as_str(), s) {
            assert(views(v@)[i as int] == s@);
            return true;
        }
        i = i + 1;
    }
    false
}

/// The ids (of `ids`, whose stems are `id_stems`) with stem `key`, sorted;
/// not empty when `key` is one of the stems.
fn ids_with_stem(ids: &Vec<String>, id_stems: &Vec<String>, key: &str) -> (r: Vec<String>)
    requires
        views(id_stems@) == views(ids@).map_values(|x: Seq<char>| stem_spec(x)),
    ensures
        views(r@) == cands(views(ids@), key@),
        views(id_stems@).contains(key@) ==> r@.len() > 0,
{
    let ghost all = views(ids@);
    assert(id_stems@.len() == views(id_stems@).len());
    let ghost pred = |x: Seq<char>| stem_spec(x) == key@;
    let mut list: Vec<String> = Vec::new();
    let mut k: usize = 0;
    while k < ids.len()
        invariant
            k <= ids@.len(),
            all == views(ids@),
            id_stems@.len() == ids@.len(),
            views(id_stems@) == all.map_values(|x: Seq<char>| stem_spec(x)),
            pred == (|x: Seq<char>| stem_spec(x) == key@),
            views(list@) == all.subrange(0, k as int).filter(pred),
        decreases ids@.len() - k,
    {
        let ghost o = views(list@);
        proof {
            broadcast use vstd::seq::Seq::lemma_filter_push;

            assert(all.subrange(0, k + 1) =~= all.subrange(0, k as int).push(all[k as int]));
            assert(views(id_stems@)[k as int] == stem_spec(all[k as int]));
        }
        if str_eq(id_stems[k].as_str(), key) {
            list.push(ids[k].clone());
            assert(views(list@) =~= o.push(all[k as int]));
        }
        k = k + 1;
    }
    assert(all.subrange(0, ids@.len() as int) =~= all);
    proof {
        if views(id_stems@).contains(key@) {
            let j = choose|j: int| 0 <= j < id_stems@.len() && views(id_stems@)[j] == key@;
            all.lemma_filter_contains(pred, j);
        }
    }
    let ghost unsorted = list@;
    sort_by_key(&mut list);
    proof {
        broadcast use vstd::seq_lib::group_to_multiset_ensures;

        assert(list@.to_multiset().len() == unsorted.to_multiset().len());
        lemma_sorted_keys_unique(list@, unsorted);
        assert(keys(list@) =~= views(list@));
        assert(keys(unsorted) =~= views(unsorted));
    }
    list
}

/// `/`
pub open spec fn slash() -> Seq<char> {
    seq!['/']
}

/// Candidate `c` ends with `/target.md` or `/target`, compared in lowercase.
pub open spec fn suffix_hit(c: Seq<char>, t: Seq<char>) -> bool {
    ||| ends_with(str_lowercase(c), str_lowercase(slash() + t + md_ext()))
    ||| ends_with(str_lowercase(c), str_lowercase(slash() + t))
}

/// Index of the first candidate among `cs[i..]` that the path suffix of `t` singles out.
pub open spec fn first_hit_from(cs: Seq<Seq<char>>, t: Seq<char>, i: int) -> Option<int>
    decreases cs.len() - i,
{
    if i < 0 || i >= cs.len() {
        None
    } else if suffix_hit(cs[i], t) {
        Some(i)
    } else {
        first_hit_from(cs, t, i + 1)
    }
}

/// How the link target `t` resolves among the note ids `ids`:
/// 1. `t.md` or `t` is an id: that id;
/// 2. otherwise by stem: no candidate is unresolved, one candidate is it;
/// 3. with several candidates and a `/` in `t`, the first candidate that ends with
///    `/t.md` or `/t` (ignoring case);
/// 4. otherwise ambiguous: the first candidate in string order is picked.
pub open spec fn resolve_spec(ids: Seq<Seq<char>>, t: Seq<char>) -> ResolutionView {
    if ids.contains(t + md_ext()) {
        ResolutionView::Resolved(t + md_ext())
    } else if ids.contains(t) {
        ResolutionView::Resolved(t)
    } else {
        let c = cands(ids, stem_spec(t));
        if c.len() == 0 {
            ResolutionView::Unresolved
        } else if c.len() == 1 {
            ResolutionView::Resolved(c[0])
        } else if contains_seq(t, slash()) && first_hit_from(c, t, 0) is Some {
            ResolutionView::Resolved(c[first_hit_from(c, t, 0)->0])
        } else {
            ResolutionView::Ambiguous(c[0], c)
        }
    }
}

/// A copy of a list of strings.
pub fn clone_strings(v: &Vec<String>) -> (r: Vec<String>)
    ensures
        views(r@) == views(v@),
{
    let mut r: Vec<String> = Vec::new();
    let mut i: usize = 0;
    while i < v.len()
        invariant
            i <= v@.len(),
            views(r@) == views(v@).subrange(0, i as int),
        decreases v@.len() - i,
    {
        let ghost o = views(r@);
        r.push(v[i].clone());
        assert(views(r@) =~= o.push(views(v@)[i as int]));
        assert(views(v@).subrange(0, i + 1) =~= views(v@).subrange(0, i as int).push(
            views(v@)[i as int],
        ));
        i = i + 1;
    }
    assert(views(v@).subrange(0, v@.len() as int) =~= views(v@));
    r
}

/// An index of the stems of a set of note ids.
pub struct StemLookup {
    stems: Vec<(String, Vec<String>)>,
    ids: Vec<String>,
}

impl View for StemLookup {
    type V = Seq<Seq<char>>;

    /// The note ids the lookup was built from, in order.
    closed spec fn view(&self) -> Seq<Seq<char>> {
        views(self.ids@)
    }
}

impl StemLookup {
    /// Entry `i` lists the ids with its stem, in string order, and is not empty.
    closed spec fn entry_ok(self, i: int) -> bool {
        &&& views(self.stems@[i].1@) == cands(views(self.ids@), self.stems@[i].0@)
        &&& self.stems@[i].1@.len() > 0
    }

    /// The stems that have entries, in entry order.
    closed spec fn stem_keys(self) -> Seq<Seq<char>> {
        self.stems@.map_values(|e: (String, Vec<String>)| e.0@)
    }

    #[verifier::type_invariant]
    closed spec fn inv(self) -> bool {
        &&& forall|i: int| 0 <= i < self.stems@.len() ==> #[trigger] self.entry_ok(i)
        &&& self.stem_keys().no_duplicates()
        &&& forall|k: int|
            0 <= k < self.ids@.len() ==> self.stem_keys().contains(
                stem_spec(#[trigger] views(self.ids@)[k]),
            )
    }

    /// The candidates of `s`: the ids with stem `s`, in string order.
    pub open spec fn candidates(&self, s: Seq<char>) -> Seq<Seq<char>> {
        cands(self@, s)
    }

    /// Index of the entry for stem `s`, if there is one.
    fn find_stem(&self, s: &str) -> (r: Option<usize>)
        ensures
            match r {
                Some(i) => i < self.stems@.len() && self.stems@[i as int].0@ == s@,
                None => !self.stem_keys().contains(s@),
            },
    {
        let mut i: usize = 0;
        while i < self.stems.len()
            invariant
                i <= self.stems@.len(),
                forall|j: int| 0 <= j < i ==> #[trigger] self.stem_keys()[j] != s@,
            decreases self.stems@.len() - i,
        {
            if str_eq(self.stems[i].0.as_str(), s) {
                return Some(i);
            }
            assert(self.stem_keys()[i as int] == self.stems@[i as int].0@);
            i = i + 1;
        }
        None
    }

    /// Builds the lookup for the given note ids.
    pub fn build(node_ids: &[&str]) -> (r: Self)
        ensures
            r@ == node_ids@.map_values(|x: &str| x@),
    {
        let ghost given = node_ids@.map_values(|x: &str| x@);
        // The ids and their stems.
        let mut ids: Vec<String> = Vec::new();
        let mut id_stems: Vec<String> = Vec::new();
        let mut k: usize = 0;
        while k < node_ids.len()
            invariant
                k <= node_ids@.len(),
                given == node_ids@.map_values(|x: &str| x@),
                views(ids@) == given.subrange(0, k as int),
                views(id_stems@) == given.subrange(0, k as int).map_values(|x: Seq<char>| stem_spec(x)),
            decreases node_ids@.len() - k,
        {
            let id = node_ids[k];
            let ghost o = views(ids@);
            let ghost os = views(id_stems@);
            ids.push(string_of(chars_of(id).as_slice()));
            let st = stem_of(id);
            id_stems.push(st);
            assert(views(ids@) =~= o.push(id@));
            assert(views(id_stems@) =~= os.push(stem_spec(id@)));
            assert(given.subrange(0, k + 1) =~= given.subrange(0, k as int).push(id@));
            assert(given.subrange(0, k + 1).map_values(|x: Seq<char>| stem_spec(x)) =~= given.subrange(
                0,
                k as int,
            ).map_values(|x: Seq<char>| stem_spec(x)).push(stem_spec(id@)));
            k = k + 1;
        }
        assert(given.subrange(0, node_ids@.len() as int) =~= given);
        let ghost all = views(ids@);
        let ghost stem_seq = all.map_values(|x: Seq<char>| stem_spec(x));
        assert(views(id_stems@) == stem_seq);
        // The distinct stems, in order of first appearance.
        let mut distinct: Vec<String> = Vec::new();
        let mut k: usize = 0;
        while k < id_stems.len()
            invariant
                k <= id_stems@.len(),
                views(id_stems@) == stem_seq,
                views(distinct@).no_duplicates(),
                forall|j: int| 0 <= j < k ==> views(distinct@).contains(#[trigger] stem_seq[j]),
                forall|i: int|
                    0 <= i < distinct@.len() ==> stem_seq.contains(#[trigger] views(distinct@)[i]),
            decreases id_stems@.len() - k,
        {
            let s = &id_stems[k];
            assert(s@ == stem_seq[k as int]);
            if !contains_string(&distinct, s.as_str()) {
                let ghost d = views(distinct@);
                distinct.push(s.clone());
                assert(views(distinct@) =~= d.push(s@));
                assert(stem_seq.contains(s@));
                assert forall|j: int| 0 <= j < k + 1 implies views(distinct@).contains(
                    #[trigger] stem_seq[j],
                ) by {
                    if j < k {
                        let m = choose|m: int| 0 <= m < d.len() && d[m] == stem_seq[j];
                        assert(views(distinct@)[m] == d[m]);
                    } else {
                        assert(views(distinct@)[d.len() as int] == s@);
                    }
                }
            }
            k = k + 1;
        }
        // One entry per distinct stem, with its ids sorted.
        let mut stems: Vec<(String, Vec<String>)> = Vec::new();
        let mut d: usize = 0;
        while d < distinct.len()
            invariant
                d <= distinct@.len(),
                all == views(ids@),
                views(id_stems@) == stem_seq,
                stem_seq == all.map_values(|x: Seq<char>| stem_spec(x)),
                stems@.len() == d,
                forall|i: int|
                    0 <= i < distinct@.len() ==> stem_seq.contains(#[trigger] views(distinct@)[i]),
                stems@.map_values(|e: (String, Vec<String>)| e.0@) == views(distinct@).subrange(
                    0,
                    d as int,
                ),
                forall|i: int|
                    0 <= i < d ==> {
                        &&& views(#[trigger] stems@[i].1@) == cands(all, stems@[i].0@)
                        &&& stems@[i].1@.len() > 0
                    },
            decreases distinct@.len() - d,
        {
            let key = &distinct[d];
            assert(key@ == views(distinct@)[d as int]);
            let list = ids_with_stem(&ids, &id_stems, key.as_str());
            let ghost ks = stems@.map_values(|e: (String, Vec<String>)| e.0@);
            stems.push((key.clone(), list));
            assert(stems@.map_values(|e: (String, Vec<String>)| e.0@) =~= ks.push(key@));
            assert(views(distinct@).subrange(0, d + 1) =~= views(distinct@).subrange(
                0,
                d as int,
            ).push(key@));
            d = d + 1;
        }
        proof {
            assert(views(distinct@).subrange(0, distinct@.len() as int) =~= views(distinct@));
            let keys_now = stems@.map_values(|e: (String, Vec<String>)| e.0@);
            assert(keys_now == views(distinct@));
            assert forall|k: int| 0 <= k < ids@.len() implies keys_now.contains(
                stem_spec(#[trigger] views(ids@)[k]),
            ) by {
                assert(stem_seq[k] == stem_spec(all[k]));
                assert(views(distinct@).contains(stem_seq[k]));
            }
        }
        let r = StemLookup { stems, ids };
        r
    }

    /// How the link target `target_raw` resolves (see `resolve_spec`).
    pub fn resolve(&self, target_raw: &str) -> (r: LinkResolution)
        ensures
            r@ == resolve_spec(self@, target_raw@),
    {
        proof {
            use_type_invariant(self);
            reveal_strlit(".md");
            reveal_strlit("/");
        }
        assert(".md"@ =~= md_ext());
        assert("/"@ =~= slash());
        let with_md = concat(target_raw, ".md");
        if contains_string(&self.ids, with_md.as_str()) {
            return LinkResolution::Resolved { id: with_md };
        }
        if contains_string(&self.ids, target_raw) {
            return LinkResolution::Resolved { id: string_of(chars_of(target_raw).as_slice()) };
        }
        let stem = stem_of(target_raw);
        let i = match self.find_stem(stem.as_str()) {
            Some(i) => i,
            None => {
                proof {
                    self.lemma_no_entry(stem@);
                }
                return LinkResolution::Unresolved;
            },
        };
        proof {
            self.lemma_entry_nonempty(i as int);
        }
        let candidates = &self.stems[i].1;
        let ghost c = views(candidates@);
        assert(c == cands(self@, stem_spec(target_raw@)));
        if candidates.len() == 1 {
            return LinkResolution::Resolved { id: candidates[0].clone() };
        }
        if str_contains(target_raw, "/") {
            let slashed = concat("/", target_raw);
            let suffix_raw_lower = lowercase(slashed.as_str());
            let slashed_md = concat(slashed.as_str(), ".md");
            let suffix_md_lower = lowercase(slashed_md.as_str());
            let mut k: usize = 0;
            while k < candidates.len()
                invariant
                    k <= candidates@.len(),
                    c == views(candidates@),
                    c == cands(self@, stem_spec(target_raw@)),
                    c.len() > 1,
                    !self@.contains(target_raw@ + md_ext()),
                    !self@.contains(target_raw@),
                    contains_seq(target_raw@, slash()),
                    suffix_raw_lower@ == str_lowercase(slash() + target_raw@),
                    suffix_md_lower@ == str_lowercase(slash() + target_raw@ + md_ext()),
                    first_hit_from(c, target_raw@, 0) == first_hit_from(c, target_raw@, k as int),
                decreases candidates@.len() - k,
            {
                let cl = lowercase(candidates[k].as_str());
                assert(c[k as int] == candidates@[k as int]@);
                if str_ends_with(cl.as_str(), suffix_md_lower.as_str()) || str_ends_with(
                    cl.as_str(),
                    suffix_raw_lower.as_str(),
                ) {
                    return LinkResolution::Resolved { id: candidates[k].clone() };
                }
                k = k + 1;
            }
        }
        LinkResolution::Ambiguous {
            picked: candidates[0].clone(),
            candidates: clone_strings(candidates),
        }
    }

    /// The candidates for `stem`, when some id has that stem.
    pub fn stem_candidates(&self, stem: &str) -> (r: Option<Vec<String>>)
        ensures
            match r {
                Some(v) => views(v@) == self.candidates(stem@) && v@.len() > 0,
                None => self.candidates(stem@).len() == 0,
            },
    {
        proof {
            use_type_invariant(self);
        }
        match self.find_stem(stem) {
            Some(i) => {
                proof {
                    self.lemma_entry_nonempty(i as int);
                }
                Some(self.stems[i].1.clone())
            },
            None => {
                proof {
                    self.lemma_no_entry(stem@);
                }
                None
            },
        }
    }

    /// The number of distinct stems.
    pub fn stem_count(&self) -> (r: usize)
        ensures
            r == self@.map_values(|x: Seq<char>| stem_spec(x)).to_set().len(),
    {
        proof {
            use_type_invariant(self);
            self.lemma_stem_set();
        }
        self.stems.len()
    }

    /// Whether the lookup was built from no ids.
    pub fn is_empty(&self) -> (r: bool)
        ensures
            r == (self@.len() == 0),
    {
        self.ids.len() == 0
    }

    proof fn lemma_stem_set(&self)
        requires
            self.inv(),
        ensures
            self.stems@.len() == self@.map_values(|x: Seq<char>| stem_spec(x)).to_set().len(),
    {
        let ids = self@;
        let f = |x: Seq<char>| stem_spec(x);
        let keyseq = self.stem_keys();
        assert(keyseq.to_set() =~= ids.map_values(f).to_set()) by {
            assert forall|s: Seq<char>| keyseq.to_set().contains(s) implies ids.map_values(
                f,
            ).to_set().contains(s) by {
                let i = choose|i: int| 0 <= i < keyseq.len() && keyseq[i] == s;
                assert(self.entry_ok(i));
                let c = views(self.stems@[i].1@);
                let flt = ids.filter(|x: Seq<char>| stem_spec(x) == s);
                lemma_str_order();
                crate::order::lemma_le_of_total(str_order());
                flt.lemma_sort_by_ensures(le_of(str_order()));
                assert(c.contains(c[0]));
                assert(flt.contains(c[0]));
                ids.lemma_filter_contains_rev(|x: Seq<char>| stem_spec(x) == s, c[0]);
                let k = choose|k: int| 0 <= k < flt.len() && flt[k] == c[0];
                ids.lemma_filter_pred(|x: Seq<char>| stem_spec(x) == s, k);
                let m = choose|m: int| 0 <= m < ids.len() && ids[m] == c[0];
                assert(ids.map_values(f)[m] == s);
            }
            assert forall|s: Seq<char>| ids.map_values(f).to_set().contains(s) implies keyseq.to_set().contains(
                s,
            ) by {
                let m = choose|m: int| 0 <= m < ids.len() && ids.map_values(f)[m] == s;
                assert(ids.map_values(f)[m] == stem_spec(views(self.ids@)[m]));
            }
        }
        keyseq.unique_seq_to_set();
    }

    proof fn lemma_entry_nonempty(&self, i: int)
        requires
            self.inv(),
            0 <= i < self.stems@.len(),
        ensures
            views(self.stems@[i].1@) == self.candidates(self.stems@[i].0@),
            self.stems@[i].1@.len() > 0,
    {
        assert(self.entry_ok(i));
    }

    proof fn lemma_no_entry(&self, s: Seq<char>)
        requires
            self.inv(),
            !self.stem_keys().contains(s),
        ensures
            self.candidates(s).len() == 0,
    {
        let ids = self@;
        let pred = |x: Seq<char>| stem_spec(x) == s;
        let flt = ids.filter(pred);
        lemma_str_order();
        crate::order::lemma_le_of_total(str_order());
        flt.lemma_sort_by_ensures(le_of(str_order()));
        if flt.len() > 0 {
            ids.lemma_filter_pred(pred, 0);
            assert(flt.contains(flt[0]));
            ids.lemma_filter_contains_rev(pred, flt[0]);
            let m = choose|m: int| 0 <= m < ids.len() && ids[m] == flt[0];
            assert(self.stem_keys().contains(stem_spec(views(self.ids@)[m])));
            assert(false);
        }
        broadcast use vstd::seq_lib::group_to_multiset_ensures;

        assert(flt.to_multiset().len() == self.candidates(s).to_multiset().len());
    }
}


// ---------------------------------------------------------------------------
// Resolving all edges
// ---------------------------------------------------------------------------

/// A link with its resolution.
#[derive(Debug, Clone, PartialEq)]
pub struct ResolvedEdge {
    pub source: String,
    pub target_raw: String,
    pub context: String,
    pub resolution: LinkResolution,
}

impl View for ResolvedEdge {
    type V = (Seq<char>, Seq<char>, Seq<char>, ResolutionView);

    open spec fn view(&self) -> Self::V {
        (self.source@, self.target_raw@, self.context@, self.resolution@)
    }
}

/// The node a resolved link points to: the resolved or picked id, or, when
/// unresolved, the raw target (which names a stub).
pub open spec fn target_of(target_raw: Seq<char>, r: ResolutionView) -> Seq<char> {
    match r {
        ResolutionView::Resolved(id) => id,
        ResolutionView::Ambiguous(picked, _) => picked,
        ResolutionView::Unresolved => target_raw,
    }
}

/// The node `e` points to.
pub fn resolved_target(e: &ResolvedEdge) -> (r: String)
    ensures
        r@ == target_of(e.target_raw@, e.resolution@),
{
    match &e.resolution {
        LinkResolution::Resolved { id } => id.clone(),
        LinkResolution::Ambiguous { picked, .. } => picked.clone(),
        LinkResolution::Unresolved => e.target_raw.clone(),
    }
}

/// The key under which resolved links are deduplicated: source and target node.
pub open spec fn dedup_key(e: (Seq<char>, Seq<char>, Seq<char>, ResolutionView)) -> (
    Seq<char>,
    Seq<char>,
) {
    (e.0, target_of(e.1, e.3))
}

/// The deduplication keys of a list of resolved links.
pub open spec fn edge_keys(rs: Seq<(Seq<char>, Seq<char>, Seq<char>, ResolutionView)>) -> Seq<(Seq<char>, Seq<char>)> {
    rs.map_values(|e: (Seq<char>, Seq<char>, Seq<char>, ResolutionView)| dedup_key(e))
}

/// `rs` without the links whose key is in `seen` or on an earlier link.
pub open spec fn dedup_from(
    rs: Seq<(Seq<char>, Seq<char>, Seq<char>, ResolutionView)>,
    seen: Set<(Seq<char>, Seq<char>)>,
) -> Seq<(Seq<char>, Seq<char>, Seq<char>, ResolutionView)>
    decreases rs.len(),
{
    if rs.len() == 0 {
        Seq::empty()
    } else if seen.contains(dedup_key(rs[0])) {
        dedup_from(rs.drop_first(), seen)
    } else {
        seq![rs[0]] + dedup_from(rs.drop_first(), seen.insert(dedup_key(rs[0])))
    }
}

/// Each link of `es` (source, raw target, context) with its resolution among `ids`.
pub open spec fn resolve_all(ids: Seq<Seq<char>>, es: Seq<(Seq<char>, Seq<char>, Seq<char>)>) -> Seq<
    (Seq<char>, Seq<char>, Seq<char>, ResolutionView),
> {
    es.map_values(
        |e: (Seq<char>, Seq<char>, Seq<char>)| (e.0, e.1, e.2, resolve_spec(ids, e.1)),
    )
}

/// The resolved links, one per source and target node (the first one written).
pub open spec fn resolved_unique(ids: Seq<Seq<char>>, es: Seq<(Seq<char>, Seq<char>, Seq<char>)>) -> Seq<
    (Seq<char>, Seq<char>, Seq<char>, ResolutionView),
> {
    dedup_from(resolve_all(ids, es), Set::empty())
}

/// The order of resolved links in the output: by source, then raw target.
pub open spec fn edge_order() -> spec_fn((Seq<char>, Seq<char>), (Seq<char>, Seq<char>)) -> bool {
    pair_order(str_order(), str_order())
}

impl SortKey for ResolvedEdge {
    type K = (Seq<char>, Seq<char>);

    open spec fn key(&self) -> (Seq<char>, Seq<char>) {
        (self.source@, self.target_raw@)
    }

    open spec fn key_lt() -> spec_fn((Seq<char>, Seq<char>), (Seq<char>, Seq<char>)) -> bool {
        edge_order()
    }

    proof fn lemma_key_order() {
        lemma_str_order();
        lemma_pair_order(str_order(), str_order());
    }

    fn key_less(&self, other: &Self) -> (r: bool) {
        str_lt(self.source.as_str(), other.source.as_str()) || (str_eq(
            self.source.as_str(),
            other.source.as_str(),
        ) && str_lt(self.target_raw.as_str(), other.target_raw.as_str()))
    }
}

/// The views of a list of resolved links.
pub open spec fn resolved_view(v: Seq<ResolvedEdge>) -> Seq<
    (Seq<char>, Seq<char>, Seq<char>, ResolutionView),
> {
    v.map_values(|e: ResolvedEdge| e@)
}

/// The ids of a list of nodes.
pub open spec fn node_ids(nodes: Seq<ParsedNode>) -> Seq<Seq<char>> {
    nodes.map_values(|n: ParsedNode| n.id@)
}

/// The views of a list of parsed links.
pub open spec fn parsed_view(es: Seq<ParsedEdge>) -> Seq<(Seq<char>, Seq<char>, Seq<char>)> {
    es.map_values(|e: ParsedEdge| e@)
}

/// Resolves every link against the nodes, keeps the first link for each source and
/// target node, and orders them by source and raw target.
pub fn resolve_edges(nodes: &[ParsedNode], edges: &[ParsedEdge]) -> (r: Vec<ResolvedEdge>)
    ensures
        resolved_view(r@).to_multiset() == resolved_unique(
            node_ids(nodes@),
            parsed_view(edges@),
        ).to_multiset(),
        sorted_by(keys(r@), le_of(edge_order())),
        forall|i: int, j: int|
            0 <= i < j < r@.len() ==> (#[trigger] r@[i].source@, target_of(
                r@[i].target_raw@,
                r@[i].resolution@,
            )) != (#[trigger] r@[j].source@, target_of(r@[j].target_raw@, r@[j].resolution@)),
{
    let mut id_refs: Vec<&str> = Vec::new();
    let mut i: usize = 0;
    while i < nodes.len()
        invariant
            i <= nodes@.len(),
            id_refs@.map_values(|x: &str| x@) == node_ids(nodes@).subrange(0, i as int),
        decreases nodes@.len() - i,
    {
        let ghost o = id_refs@;
        id_refs.push(nodes[i].id.as_str());
        assert(id_refs@.map_values(|x: &str| x@) =~= o.map_values(|x: &str| x@).push(
            nodes@[i as int].id@,
        ));
        assert(node_ids(nodes@).subrange(0, i + 1) =~= node_ids(nodes@).subrange(0, i as int).push(
            nodes@[i as int].id@,
        ));
        i = i + 1;
    }
    assert(node_ids(nodes@).subrange(0, nodes@.len() as int) =~= node_ids(nodes@));
    let lookup = StemLookup::build(id_refs.as_slice());
    let ghost ids = node_ids(nodes@);
    let ghost all = resolve_all(ids, parsed_view(edges@));
    let mut out: Vec<ResolvedEdge> = Vec::new();
    let mut out_keys: Vec<(String, String)> = Vec::new();
    let mut i: usize = 0;
    assert(all.skip(0) =~= all);
    assert(resolved_view(out@) =~= Seq::empty());
    assert(edge_keys(resolved_view(out@)) =~= Seq::empty());
    assert(edge_keys(resolved_view(out@)).to_set() =~= Set::empty());
    assert(resolved_view(out@) + dedup_from(all, Set::empty()) =~= dedup_from(all, Set::empty()));
    while i < edges.len()
        invariant
            i <= edges@.len(),
            lookup@ == ids,
            all == resolve_all(ids, parsed_view(edges@)),
            out_keys@.len() == out@.len(),
            forall|j: int|
                0 <= j < out@.len() ==> (#[trigger] out_keys@[j].0@, out_keys@[j].1@) == dedup_key(
                    resolved_view(out@)[j],
                ),
            resolved_view(out@) + dedup_from(
                all.skip(i as int),
                edge_keys(resolved_view(out@)).to_set(),
            ) == dedup_from(all, Set::empty()),
        decreases edges@.len() - i,
    {
        let e = &edges[i];
        let resolution = lookup.resolve(e.target_raw.as_str());
        let re = ResolvedEdge {
            source: e.source.clone(),
            target_raw: e.target_raw.clone(),
            context: e.context.clone(),
            resolution,
        };
        let target = resolved_target(&re);
        assert(all[i as int] == re@);
        let ghost seen = edge_keys(resolved_view(out@)).to_set();
        assert(all.skip(i as int).drop_first() =~= all.skip(i + 1));
        assert(all.skip(i as int)[0] == all[i as int]);
        // Is the key already taken?
        let mut dup = false;
        let mut k: usize = 0;
        while k < out_keys.len()
            invariant
                k <= out_keys@.len(),
                out_keys@.len() == out@.len(),
                forall|j: int|
                    0 <= j < out@.len() ==> (#[trigger] out_keys@[j].0@, out_keys@[j].1@)
                        == dedup_key(resolved_view(out@)[j]),
                dup ==> seen.contains(dedup_key(re@)),
                !dup ==> forall|j: int| 0 <= j < k ==> dedup_key(#[trigger] resolved_view(out@)[j]) != dedup_key(re@),
                seen == edge_keys(resolved_view(out@)).to_set(),
                target@ == dedup_key(re@).1,
                re.source@ == dedup_key(re@).0,
            decreases out_keys@.len() - k,
        {
            if str_eq(out_keys[k].0.as_str(), re.source.as_str()) && str_eq(
                out_keys[k].1.as_str(),
                target.as_str(),
            ) {
                assert(out_keys@[k as int].0@ == dedup_key(resolved_view(out@)[k as int]).0);
                assert(edge_keys(resolved_view(out@))[k as int] == dedup_key(re@));
                dup = true;
            }
            k = k + 1;
        }
        if !dup {
            assert(!seen.contains(dedup_key(re@))) by {
                if seen.contains(dedup_key(re@)) {
                    let m = choose|m: int|
                        0 <= m < out@.len() && #[trigger] edge_keys(resolved_view(out@))[m] == dedup_key(re@);
                    assert(dedup_key(resolved_view(out@)[m]) != dedup_key(re@));
                }
            }
            let ghost ov = resolved_view(out@);
            out_keys.push((re.source.clone(), target));
            out.push(re);
            proof {
                assert(resolved_view(out@) =~= ov.push(re@));
                assert(edge_keys(resolved_view(out@)) =~= edge_keys(ov).push(dedup_key(re@)));
                edge_keys(ov).lemma_push_to_set_commute(dedup_key(re@));
                assert(ov + (seq![re@] + dedup_from(all.skip(i + 1), seen.insert(dedup_key(re@))))
                    =~= resolved_view(out@) + dedup_from(all.skip(i + 1), seen.insert(dedup_key(re@))));
            }
        }
        i = i + 1;
    }
    assert(all.skip(edges@.len() as int) =~= Seq::empty());
    assert(resolved_view(out@) + Seq::empty() =~= resolved_view(out@));
    let ghost unsorted = out@;
    sort_by_key(&mut out);
    proof {
        lemma_map_values_multiset(out@, unsorted, |e: ResolvedEdge| e@);
        lemma_keys_unique_after_sort(resolved_view(out@), node_ids(nodes@), parsed_view(edges@));
        assert forall|i: int, j: int| 0 <= i < j < out@.len() implies (#[trigger] out@[i].source@, target_of(
            out@[i].target_raw@,
            out@[i].resolution@,
        )) != (#[trigger] out@[j].source@, target_of(out@[j].target_raw@, out@[j].resolution@)) by {
            let rv = resolved_view(out@);
            assert(rv[i] == out@[i]@);
            assert(rv[j] == out@[j]@);
            assert((rv[i].0, target_of(rv[i].1, rv[i].3)) != (rv[j].0, target_of(rv[j].1, rv[j].3)));
        }
    }
    out
}

proof fn lemma_keys_unique_after_sort(
    rv: Seq<(Seq<char>, Seq<char>, Seq<char>, ResolutionView)>,
    ids: Seq<Seq<char>>,
    es: Seq<(Seq<char>, Seq<char>, Seq<char>)>,
)
    requires
        rv.to_multiset() == resolved_unique(ids, es).to_multiset(),
    ensures
        forall|i: int, j: int|
            0 <= i < j < rv.len() ==> (#[trigger] rv[i].0, target_of(rv[i].1, rv[i].3)) != (
            #[trigger] rv[j].0,
            target_of(rv[j].1, rv[j].3),
        ),
{
    let u = resolved_unique(ids, es);
    let f = |e: (Seq<char>, Seq<char>, Seq<char>, ResolutionView)| dedup_key(e);
    lemma_resolved_links_unique(ids, es);
    lemma_map_values_multiset(rv, u, f);
    assert(edge_keys(rv) =~= rv.map_values(f));
    assert(edge_keys(u) =~= u.map_values(f));
    crate::order::lemma_same_multiset(edge_keys(rv), edge_keys(u));
    assert forall|i: int, j: int| 0 <= i < j < rv.len() implies (#[trigger] rv[i].0, target_of(rv[i].1, rv[i].3))
        != (#[trigger] rv[j].0, target_of(rv[j].1, rv[j].3)) by {
        assert(edge_keys(rv)[i] == dedup_key(rv[i]));
        assert(edge_keys(rv)[j] == dedup_key(rv[j]));
    }
}

// ---------------------------------------------------------------------------
// Resolving names
// ---------------------------------------------------------------------------

/// How a name matched a node, from the most to the least specific.
#[derive(Debug, Clone, Copy, PartialEq, Eq, Structural)]
pub enum MatchKind {
    Id,
    Exact,
    CaseInsensitive,
    Alias,
    Substring,
}

/// A node that a name matched.
#[derive(Debug, Clone, PartialEq)]
pub struct NameMatch {
    pub id: String,
    pub title: String,
    pub kind: MatchKind,
}

impl View for NameMatch {
    type V = (Seq<char>, Seq<char>, MatchKind);

    open spec fn view(&self) -> Self::V {
        (self.id@, self.title@, self.kind)
    }
}

/// `aliases`
pub open spec fn aliases_key() -> Seq<char> {
    seq!['a', 'l', 'i', 'a', 's', 'e', 's']
}

/// The aliases a front matter lists under `aliases` (an array of strings or one string).
pub open spec fn aliases_spec(fm: FrontValue) -> Seq<Seq<char>> {
    string_list(field(fm, aliases_key()))
}

/// The aliases of a note's front matter.
pub fn extract_aliases(fm: &FrontValue) -> (r: Vec<String>)
    ensures
        views(r@) == aliases_spec(*fm),
{
    proof {
        reveal_strlit("aliases");
    }
    assert("aliases"@ =~= aliases_key());
    string_items(fm.get("aliases"))
}

/// Whether node `n` matches the query `q` in the way `kind` names.
pub open spec fn hit(kind: MatchKind, n: ParsedNode, q: Seq<char>) -> bool {
    match kind {
        MatchKind::Id => n.id@ == q,
        MatchKind::Exact => n.title@ == q,
        MatchKind::CaseInsensitive => str_lowercase(n.title@) == str_lowercase(q),
        MatchKind::Alias => exists|i: int|
            0 <= i < aliases_spec(n.frontmatter).len() && #[trigger] str_lowercase(
                aliases_spec(n.frontmatter)[i],
            ) == str_lowercase(q),
        MatchKind::Substring => contains_seq(str_lowercase(n.title@), str_lowercase(q)),
    }
}

/// The matches of `q` of the given kind, in node order.
pub open spec fn tier(nodes: Seq<ParsedNode>, q: Seq<char>, kind: MatchKind) -> Seq<
    (Seq<char>, Seq<char>, MatchKind),
> {
    nodes.filter(|n: ParsedNode| hit(kind, n, q)).map_values(
        |n: ParsedNode| (n.id@, n.title@, kind),
    )
}

/// The nodes a name resolves to: all matches of the first kind that has any, trying
/// id, exact title, case-insensitive title, alias and title substring in turn.
pub open spec fn resolve_name_spec(q: Seq<char>, nodes: Seq<ParsedNode>) -> Seq<
    (Seq<char>, Seq<char>, MatchKind),
> {
    if tier(nodes, q, MatchKind::Id).len() > 0 {
        tier(nodes, q, MatchKind::Id)
    } else if tier(nodes, q, MatchKind::Exact).len() > 0 {
        tier(nodes, q, MatchKind::Exact)
    } else if tier(nodes, q, MatchKind::CaseInsensitive).len() > 0 {
        tier(nodes, q, MatchKind::CaseInsensitive)
    } else if tier(nodes, q, MatchKind::Alias).len() > 0 {
        tier(nodes, q, MatchKind::Alias)
    } else {
        tier(nodes, q, MatchKind::Substring)
    }
}

fn hits(kind: MatchKind, n: &ParsedNode, q: &str, q_lower: &String) -> (r: bool)
    requires
        q_lower@ == str_lowercase(q@),
    ensures
        r == hit(kind, *n, q@),
{
    match kind {
        MatchKind::Id => str_eq(n.id.as_str(), q),
        MatchKind::Exact => str_eq(n.title.as_str(), q),
        MatchKind::CaseInsensitive => {
            let t = lowercase(n.title.as_str());
            str_eq(t.as_str(), q_lower.as_str())
        },
        MatchKind::Alias => {
            let aliases = extract_aliases(&n.frontmatter);
            let ghost al = aliases_spec(n.frontmatter);
            let mut i: usize = 0;
            while i < aliases.len()
                invariant
                    i <= aliases@.len(),
                    views(aliases@) == al,
                    al == aliases_spec(n.frontmatter),
                    kind == MatchKind::Alias,
                    q_lower@ == str_lowercase(q@),
                    forall|j: int| 0 <= j < i ==> #[trigger] str_lowercase(al[j]) != str_lowercase(q@),
                decreases aliases@.len() - i,
            {
                let a = lowercase(aliases[i].as_str());
                assert(al[i as int] == aliases@[i as int]@);
                if str_eq(a.as_str(), q_lower.as_str()) {
                    assert(str_lowercase(al[i as int]) == str_lowercase(q@));
                    return true;
                }
                i = i + 1;
            }
            false
        },
        MatchKind::Substring => {
            let t = lowercase(n.title.as_str());
            str_contains(t.as_str(), q_lower.as_str())
        },
    }
}

/// The views of a list of name matches.
pub open spec fn matches_view(v: Seq<NameMatch>) -> Seq<(Seq<char>, Seq<char>, MatchKind)> {
    v.map_values(|m: NameMatch| m@)
}

fn collect_tier(kind: MatchKind, q: &str, q_lower: &String, nodes: &[ParsedNode]) -> (r: Vec<
    NameMatch,
>)
    requires
        q_lower@ == str_lowercase(q@),
    ensures
        matches_view(r@) == tier(nodes@, q@, kind),
{
    let ghost pred = |n: ParsedNode| hit(kind, n, q@);
    let ghost f = |n: ParsedNode| (n.id@, n.title@, kind);
    let mut out: Vec<NameMatch> = Vec::new();
    let mut i: usize = 0;
    while i < nodes.len()
        invariant
            i <= nodes@.len(),
            q_lower@ == str_lowercase(q@),
            pred == (|n: ParsedNode| hit(kind, n, q@)),
            f == (|n: ParsedNode| (n.id@, n.title@, kind)),
            matches_view(out@) == nodes@.subrange(0, i as int).filter(pred).map_values(f),
        decreases nodes@.len() - i,
    {
        let n = &nodes[i];
        let ghost o = matches_view(out@);
        proof {
            broadcast use vstd::seq::Seq::lemma_filter_push;

            assert(nodes@.subrange(0, i + 1) =~= nodes@.subrange(0, i as int).push(nodes@[i as int]));
        }
        if hits(kind, n, q, q_lower) {
            out.push(NameMatch { id: n.id.clone(), title: n.title.clone(), kind });
            proof {
                let fl = nodes@.subrange(0, i as int).filter(pred);
                assert(fl.push(*n).map_values(f) =~= fl.map_values(f).push(f(*n)));
                assert(matches_view(out@) =~= o.push(f(*n)));
            }
        }
        i = i + 1;
    }
    assert(nodes@.subrange(0, nodes@.len() as int) =~= nodes@);
    out
}

/// The nodes that the name `query` resolves to (see `resolve_name_spec`).
pub fn resolve_name(query: &str, nodes: &[ParsedNode]) -> (r: Vec<NameMatch>)
    ensures
        matches_view(r@) == resolve_name_spec(query@, nodes@),
{
    let q_lower = lowercase(query);
    let ids = collect_tier(MatchKind::Id, query, &q_lower, nodes);
    if ids.len() > 0 {
        return ids;
    }
    let exact = collect_tier(MatchKind::Exact, query, &q_lower, nodes);
    if exact.len() > 0 {
        return exact;
    }
    let ci = collect_tier(MatchKind::CaseInsensitive, query, &q_lower, nodes);
    if ci.len() > 0 {
        return ci;
    }
    let alias = collect_tier(MatchKind::Alias, query, &q_lower, nodes);
    if alias.len() > 0 {
        return alias;
    }
    collect_tier(MatchKind::Substring, query, &q_lower, nodes)
}

// ---------------------------------------------------------------------------
// Laws
// ---------------------------------------------------------------------------

proof fn lemma_dedup_fresh(
    rs: Seq<(Seq<char>, Seq<char>, Seq<char>, ResolutionView)>,
    seen: Set<(Seq<char>, Seq<char>)>,
)
    ensures
        edge_keys(dedup_from(rs, seen)).no_duplicates(),
        forall|k: int|
            0 <= k < dedup_from(rs, seen).len() ==> !seen.contains(
                #[trigger] edge_keys(dedup_from(rs, seen))[k],
            ),
        forall|x: (Seq<char>, Seq<char>)|
            #[trigger] edge_keys(rs).contains(x) ==> seen.contains(x) || edge_keys(
                dedup_from(rs, seen),
            ).contains(x),
    decreases rs.len(),
{
    if rs.len() > 0 {
        let key = dedup_key(rs[0]);
        let rest = rs.drop_first();
        assert(edge_keys(rs) =~= seq![key] + edge_keys(rest));
        if seen.contains(key) {
            lemma_dedup_fresh(rest, seen);
            assert(dedup_from(rs, seen) == dedup_from(rest, seen));
            assert forall|x: (Seq<char>, Seq<char>)| #[trigger] edge_keys(rs).contains(x) implies seen.contains(x)
                || edge_keys(dedup_from(rs, seen)).contains(x) by {
                let j = choose|j: int| 0 <= j < edge_keys(rs).len() && edge_keys(rs)[j] == x;
                if j > 0 {
                    assert(edge_keys(rest)[j - 1] == x);
                    assert(edge_keys(rest).contains(x));
                    assert(seen.contains(x) || edge_keys(dedup_from(rest, seen)).contains(x));
                } else {
                    assert(x == key);
                }
            }
        } else {
            let s2 = seen.insert(key);
            lemma_dedup_fresh(rest, s2);
            let d = dedup_from(rest, s2);
            assert(dedup_from(rs, seen) == seq![rs[0]] + d);
            assert(edge_keys(dedup_from(rs, seen)) =~= seq![key] + edge_keys(d));
            assert forall|a: int, b: int|
                0 <= a < b < edge_keys(dedup_from(rs, seen)).len() implies edge_keys(
                dedup_from(rs, seen),
            )[a] != edge_keys(dedup_from(rs, seen))[b] by {
                if a == 0 {
                    assert(!s2.contains(edge_keys(d)[b - 1]));
                }
            }
            assert forall|k: int| 0 <= k < dedup_from(rs, seen).len() implies !seen.contains(
                #[trigger] edge_keys(dedup_from(rs, seen))[k],
            ) by {
                if k > 0 {
                    assert(!s2.contains(edge_keys(d)[k - 1]));
                }
            }
            assert forall|x: (Seq<char>, Seq<char>)| #[trigger] edge_keys(rs).contains(x) implies seen.contains(x)
                || edge_keys(dedup_from(rs, seen)).contains(x) by {
                let j = choose|j: int| 0 <= j < edge_keys(rs).len() && edge_keys(rs)[j] == x;
                if j > 0 {
                    assert(edge_keys(rest)[j - 1] == x);
                    assert(edge_keys(rest).contains(x));
                    if !s2.contains(x) {
                        let m = choose|m: int| 0 <= m < edge_keys(d).len() && edge_keys(d)[m] == x;
                        assert(edge_keys(dedup_from(rs, seen))[m + 1] == x);
                    } else if x != key {
                        assert(seen.contains(x));
                    } else {
                        assert(edge_keys(dedup_from(rs, seen))[0] == x);
                    }
                } else {
                    assert(edge_keys(dedup_from(rs, seen))[0] == x);
                }
            }
        }
    }
}

/// Resolved links join each source to each target node at most once, and every
/// (source, target node) pair that some link gives is kept.
pub proof fn lemma_resolved_links_unique(ids: Seq<Seq<char>>, es: Seq<(Seq<char>, Seq<char>, Seq<char>)>)
    ensures
        edge_keys(resolved_unique(ids, es)).no_duplicates(),
        edge_keys(resolved_unique(ids, es)).to_set() == edge_keys(resolve_all(ids, es)).to_set(),
{
    let rs = resolve_all(ids, es);
    lemma_dedup_fresh(rs, Set::empty());
    lemma_dedup_subset(rs, Set::empty());
    assert(edge_keys(resolved_unique(ids, es)).to_set() =~= edge_keys(rs).to_set());
}

/// No two resolved links share their source and the node they point to (the
/// resolved id, the picked id when ambiguous, the raw target when unresolved),
/// and every source and node that some link joins is joined by a kept link.
pub proof fn lemma_resolved_one_per_target(ids: Seq<Seq<char>>, es: Seq<(Seq<char>, Seq<char>, Seq<char>)>)
    ensures
        forall|i: int, j: int|
            0 <= i < j < resolved_unique(ids, es).len() ==> (
            #[trigger] resolved_unique(ids, es)[i].0,
            target_of(resolved_unique(ids, es)[i].1, resolved_unique(ids, es)[i].3),
        ) != (#[trigger] resolved_unique(ids, es)[j].0, target_of(
            resolved_unique(ids, es)[j].1,
            resolved_unique(ids, es)[j].3,
        )),
        forall|k: int|
            0 <= k < es.len() ==> exists|i: int|
                0 <= i < resolved_unique(ids, es).len() && #[trigger] resolved_unique(ids, es)[i].0
                    == es[k].0 && target_of(resolved_unique(ids, es)[i].1, resolved_unique(ids, es)[i].3)
                    == target_of(#[trigger] es[k].1, resolve_spec(ids, es[k].1)),
{
    let u = resolved_unique(ids, es);
    let rs = resolve_all(ids, es);
    lemma_resolved_links_unique(ids, es);
    assert forall|i: int, j: int| 0 <= i < j < u.len() implies (#[trigger] u[i].0, target_of(u[i].1, u[i].3))
        != (#[trigger] u[j].0, target_of(u[j].1, u[j].3)) by {
        assert(edge_keys(u)[i] == (u[i].0, target_of(u[i].1, u[i].3)));
        assert(edge_keys(u)[j] == (u[j].0, target_of(u[j].1, u[j].3)));
    }
    assert forall|k: int| 0 <= k < es.len() implies exists|i: int|
        0 <= i < u.len() && #[trigger] u[i].0 == es[k].0 && target_of(u[i].1, u[i].3) == target_of(
            #[trigger] es[k].1,
            resolve_spec(ids, es[k].1),
        ) by {
        let key = (es[k].0, target_of(es[k].1, resolve_spec(ids, es[k].1)));
        assert(edge_keys(rs)[k] == key);
        assert(edge_keys(rs).to_set().contains(key));
        assert(edge_keys(u).to_set().contains(key));
        let i = choose|i: int| 0 <= i < edge_keys(u).len() && edge_keys(u)[i] == key;
        assert(u[i].0 == es[k].0);
    }
}

proof fn lemma_dedup_subset(
    rs: Seq<(Seq<char>, Seq<char>, Seq<char>, ResolutionView)>,
    seen: Set<(Seq<char>, Seq<char>)>,
)
    ensures
        forall|x: (Seq<char>, Seq<char>)|
            #[trigger] edge_keys(dedup_from(rs, seen)).contains(x) ==> edge_keys(rs).contains(x),
    decreases rs.len(),
{
    if rs.len() > 0 {
        let key = dedup_key(rs[0]);
        let rest = rs.drop_first();
        assert(edge_keys(rs) =~= seq![key] + edge_keys(rest));
        if seen.contains(key) {
            lemma_dedup_subset(rest, seen);
            assert(dedup_from(rs, seen) == dedup_from(rest, seen));
            assert forall|x: (Seq<char>, Seq<char>)| #[trigger] edge_keys(dedup_from(rs, seen)).contains(x) implies edge_keys(rs).contains(x) by {
                assert(edge_keys(dedup_from(rest, seen)).contains(x));
                assert(edge_keys(rest).contains(x));
                let m = choose|m: int| 0 <= m < edge_keys(rest).len() && edge_keys(rest)[m] == x;
                assert(edge_keys(rs)[m + 1] == x);
            }
        } else {
            let s2 = seen.insert(key);
            lemma_dedup_subset(rest, s2);
            let d = dedup_from(rest, s2);
            assert(edge_keys(dedup_from(rs, seen)) =~= seq![key] + edge_keys(d));
            assert forall|x: (Seq<char>, Seq<char>)| #[trigger] edge_keys(dedup_from(rs, seen)).contains(x) implies edge_keys(rs).contains(x) by {
                let j = choose|j: int| 0 <= j < edge_keys(dedup_from(rs, seen)).len() && edge_keys(dedup_from(rs, seen))[j] == x;
                if j == 0 {
                    assert(edge_keys(rs)[0] == x);
                } else {
                    assert(edge_keys(d)[j - 1] == x);
                    assert(edge_keys(d).contains(x));
                    let m = choose|m: int| 0 <= m < edge_keys(rest).len() && edge_keys(rest)[m] == x;
                    assert(edge_keys(rs)[m + 1] == x);
                }
            }
        }
    }
}

/// The position of a match kind in the order the tiers are tried.
pub open spec fn kind_rank(k: MatchKind) -> nat {
    match k {
        MatchKind::Id => 0,
        MatchKind::Exact => 1,
        MatchKind::CaseInsensitive => 2,
        MatchKind::Alias => 3,
        MatchKind::Substring => 4,
    }
}

proof fn lemma_tier_kind(nodes: Seq<ParsedNode>, q: Seq<char>, kind: MatchKind, i: int)
    requires
        0 <= i < tier(nodes, q, kind).len(),
    ensures
        tier(nodes, q, kind)[i].2 == kind,
{
}

/// A name resolves within one tier: every match has the same kind, and no
/// tier tried before it has any match.
pub proof fn lemma_resolve_name_one_tier(q: Seq<char>, nodes: Seq<ParsedNode>)
    ensures
        forall|i: int|
            0 <= i < resolve_name_spec(q, nodes).len() ==> #[trigger] resolve_name_spec(q, nodes)[i].2
                == resolve_name_spec(q, nodes)[0].2,
        resolve_name_spec(q, nodes).len() > 0 ==> forall|k: MatchKind|
            kind_rank(k) < kind_rank(resolve_name_spec(q, nodes)[0].2) ==> #[trigger] tier(
                nodes,
                q,
                k,
            ).len() == 0,
{
    let r = resolve_name_spec(q, nodes);
    let kind = if tier(nodes, q, MatchKind::Id).len() > 0 {
        MatchKind::Id
    } else if tier(nodes, q, MatchKind::Exact).len() > 0 {
        MatchKind::Exact
    } else if tier(nodes, q, MatchKind::CaseInsensitive).len() > 0 {
        MatchKind::CaseInsensitive
    } else if tier(nodes, q, MatchKind::Alias).len() > 0 {
        MatchKind::Alias
    } else {
        MatchKind::Substring
    };
    assert(r == tier(nodes, q, kind));
    assert forall|i: int| 0 <= i < r.len() implies #[trigger] r[i].2 == r[0].2 by {
        lemma_tier_kind(nodes, q, kind, i);
        lemma_tier_kind(nodes, q, kind, 0);
    }
    if r.len() > 0 {
        lemma_tier_kind(nodes, q, kind, 0);
    }
}

/// Looking a name up by title substring ignores case: when the lowercase title
/// of a note contains the lowercase query, the query resolves to something,
/// and when it resolves by substring that note is among the matches.
pub proof fn lemma_name_substring_ignores_case(q: Seq<char>, nodes: Seq<ParsedNode>, i: int)
    requires
        0 <= i < nodes.len(),
        contains_seq(str_lowercase(nodes[i].title@), str_lowercase(q)),
    ensures
        resolve_name_spec(q, nodes).len() > 0,
        resolve_name_spec(q, nodes)[0].2 == MatchKind::Substring ==> resolve_name_spec(
            q,
            nodes,
        ).contains((nodes[i].id@, nodes[i].title@, MatchKind::Substring)),
{
    let pred = |n: ParsedNode| hit(MatchKind::Substring, n, q);
    let f = |n: ParsedNode| (n.id@, n.title@, MatchKind::Substring);
    nodes.lemma_filter_contains(pred, i);
    let fl = nodes.filter(pred);
    let k = choose|k: int| 0 <= k < fl.len() && fl[k] == nodes[i];
    assert(tier(nodes, q, MatchKind::Substring)[k] == f(nodes[i]));
    assert(tier(nodes, q, MatchKind::Substring).len() > 0);
    lemma_resolve_name_one_tier(q, nodes);
    if resolve_name_spec(q, nodes)[0].2 == MatchKind::Substring {
        if tier(nodes, q, MatchKind::Id).len() > 0 {
            lemma_tier_kind(nodes, q, MatchKind::Id, 0);
        } else if tier(nodes, q, MatchKind::Exact).len() > 0 {
            lemma_tier_kind(nodes, q, MatchKind::Exact, 0);
        } else if tier(nodes, q, MatchKind::CaseInsensitive).len() > 0 {
            lemma_tier_kind(nodes, q, MatchKind::CaseInsensitive, 0);
        } else if tier(nodes, q, MatchKind::Alias).len() > 0 {
            lemma_tier_kind(nodes, q, MatchKind::Alias, 0);
        }
        assert(resolve_name_spec(q, nodes)[k] == f(nodes[i]));
    }
}

/// Two queries with the same lowercase form that both resolve by title
/// substring (or not at all) resolve to the same notes.
pub proof fn lemma_name_substring_same_lowercase(q1: Seq<char>, q2: Seq<char>, nodes: Seq<ParsedNode>)
    requires
        str_lowercase(q1) == str_lowercase(q2),
        forall|k: int|
            0 <= k < resolve_name_spec(q1, nodes).len() ==> #[trigger] resolve_name_spec(q1, nodes)[k].2
                == MatchKind::Substring,
        forall|k: int|
            0 <= k < resolve_name_spec(q2, nodes).len() ==> #[trigger] resolve_name_spec(q2, nodes)[k].2
                == MatchKind::Substring,
    ensures
        resolve_name_spec(q1, nodes) == resolve_name_spec(q2, nodes),
{
    let p1 = |n: ParsedNode| hit(MatchKind::Substring, n, q1);
    let p2 = |n: ParsedNode| hit(MatchKind::Substring, n, q2);
    assert(p1 =~= p2);
    assert(tier(nodes, q1, MatchKind::Substring) == tier(nodes, q2, MatchKind::Substring));
    lemma_name_settles_on_substring(q1, nodes);
    lemma_name_settles_on_substring(q2, nodes);
}

proof fn lemma_name_settles_on_substring(q: Seq<char>, nodes: Seq<ParsedNode>)
    requires
        forall|k: int|
            0 <= k < resolve_name_spec(q, nodes).len() ==> #[trigger] resolve_name_spec(q, nodes)[k].2
                == MatchKind::Substring,
    ensures
        resolve_name_spec(q, nodes) == tier(nodes, q, MatchKind::Substring),
{
    if tier(nodes, q, MatchKind::Id).len() > 0 {
        lemma_tier_kind(nodes, q, MatchKind::Id, 0);
        assert(resolve_name_spec(q, nodes)[0].2 == MatchKind::Substring);
    } else if tier(nodes, q, MatchKind::Exact).len() > 0 {
        lemma_tier_kind(nodes, q, MatchKind::Exact, 0);
        assert(resolve_name_spec(q, nodes)[0].2 == MatchKind::Substring);
    } else if tier(nodes, q, MatchKind::CaseInsensitive).len() > 0 {
        lemma_tier_kind(nodes, q, MatchKind::CaseInsensitive, 0);
        assert(resolve_name_spec(q, nodes)[0].2 == MatchKind::Substring);
    } else if tier(nodes, q, MatchKind::Alias).len() > 0 {
        lemma_tier_kind(nodes, q, MatchKind::Alias, 0);
        assert(resolve_name_spec(q, nodes)[0].2 == MatchKind::Substring);
    }
}

proof fn lemma_first_hit(cs: Seq<Seq<char>>, t: Seq<char>, i: int)
    ensures
        first_hit_from(cs, t, i) matches Some(j) ==> i <= j < cs.len(),
    decreases cs.len() - i,
{
    if 0 <= i < cs.len() && !suffix_hit(cs[i], t) {
        lemma_first_hit(cs, t, i + 1);
    }
}

proof fn lemma_first_hit_exists(cs: Seq<Seq<char>>, t: Seq<char>, i: int, j: int)
    requires
        0 <= i <= j < cs.len(),
        suffix_hit(cs[j], t),
    ensures
        first_hit_from(cs, t, i) matches Some(h) && i <= h < cs.len() && suffix_hit(cs[h], t),
    decreases j - i,
{
    if !suffix_hit(cs[i], t) {
        lemma_first_hit_exists(cs, t, i + 1, j);
    }
}

/// A target written with a directory, that is no id itself (with or without
/// `.md`), resolves to a note when the path of some note with its stem ends,
/// ignoring case, with `/target.md` or `/target`: the link is then resolved, to
/// such a note, and never ambiguous.
pub proof fn lemma_resolve_by_path_suffix(ids: Seq<Seq<char>>, t: Seq<char>, x: Seq<char>)
    requires
        contains_seq(t, seq!['/']),
        !ids.contains(t),
        !ids.contains(t + seq!['.', 'm', 'd']),
        ids.contains(x),
        stem_spec(x) == stem_spec(t),
        ends_with(str_lowercase(x), str_lowercase(seq!['/'] + t + seq!['.', 'm', 'd']))
            || ends_with(str_lowercase(x), str_lowercase(seq!['/'] + t)),
    ensures
        resolve_spec(ids, t) matches ResolutionView::Resolved(y) && {
            &&& ids.contains(y)
            &&& stem_spec(y) == stem_spec(t)
            &&& ends_with(str_lowercase(y), str_lowercase(seq!['/'] + t + seq!['.', 'm', 'd']))
                || ends_with(str_lowercase(y), str_lowercase(seq!['/'] + t))
        },
{
    assert(md_ext() =~= seq!['.', 'm', 'd']);
    assert(slash() =~= seq!['/']);
    let st = stem_spec(t);
    lemma_stem_groups(ids, st);
    let c = cands(ids, st);
    assert(c.contains(x));
    let j = choose|j: int| 0 <= j < c.len() && c[j] == x;
    if c.len() == 1 {
        assert(c[0] == x);
    } else {
        lemma_first_hit_exists(c, t, 0, j);
        let h = first_hit_from(c, t, 0)->0;
        assert(c.contains(c[h]));
    }
}

/// A link resolves only to notes that exist: a resolved id is an id; an
/// ambiguous link picks the first of at least two candidates, each an id with
/// the target's stem; and a link is unresolved exactly when no id is the
/// target (with or without `.md`) and no id has its stem.
pub proof fn lemma_resolution_targets(ids: Seq<Seq<char>>, t: Seq<char>)
    ensures
        resolve_spec(ids, t) matches ResolutionView::Resolved(id) ==> ids.contains(id),
        resolve_spec(ids, t) matches ResolutionView::Ambiguous(p, c) ==> {
            &&& c.len() >= 2
            &&& p == c[0]
            &&& forall|k: int| 0 <= k < c.len() ==> ids.contains(#[trigger] c[k]) && stem_spec(c[k]) == stem_spec(t)
        },
        (resolve_spec(ids, t) is Unresolved) <==> (!ids.contains(t + md_ext()) && !ids.contains(t)
            && forall|k: int| 0 <= k < ids.len() ==> stem_spec(#[trigger] ids[k]) != stem_spec(t)),
{
    broadcast use vstd::seq_lib::group_to_multiset_ensures;

    let pred = |x: Seq<char>| stem_spec(x) == stem_spec(t);
    let f = ids.filter(pred);
    let le = le_of(str_order());
    let c = cands(ids, stem_spec(t));
    lemma_str_order();
    lemma_le_of_total(str_order());
    f.lemma_sort_by_ensures(le);
    assert(c == f.sort_by(le));
    f.to_multiset_ensures();
    c.to_multiset_ensures();
    ids.filter_lemma(pred);
    assert(c.len() == f.len());
    assert forall|k: int| 0 <= k < c.len() implies ids.contains(#[trigger] c[k]) && stem_spec(c[k]) == stem_spec(t) by {
        assert(c.contains(c[k]));
        assert(c.to_multiset().count(c[k]) > 0);
        assert(f.contains(c[k]));
        let j = choose|j: int| 0 <= j < f.len() && f[j] == c[k];
        assert(pred(f[j]));
        ids.lemma_filter_contains_rev(pred, c[k]);
    }
    if forall|k: int| 0 <= k < ids.len() ==> stem_spec(#[trigger] ids[k]) != stem_spec(t) {
        if f.len() > 0 {
            assert(pred(f[0]));
            assert(f.contains(f[0]));
            ids.lemma_filter_contains_rev(pred, f[0]);
        }
    } else {
        let k = choose|k: int| 0 <= k < ids.len() && stem_spec(#[trigger] ids[k]) == stem_spec(t);
        ids.lemma_filter_contains(pred, k);
    }
    lemma_first_hit(c, t, 0);
}

proof fn lemma_last_slash_after_prefix(d: Seq<char>, id: Seq<char>, n: int)
    requires
        d.len() + 1 <= n <= d.len() + 1 + id.len(),
    ensures
        ({
            let s = d + seq!['/'] + id;
            let off = d.len() + 1;
            let m = last_char_before(id, '/', n - off);
            last_char_before(s, '/', n) == if m >= 0 {
                m + off
            } else {
                d.len() as int
            }
        }),
    decreases n,
{
    let s = d + seq!['/'] + id;
    let off = d.len() + 1;
    if n == off {
        assert(s[n - 1] == '/');
    } else {
        assert(s[n - 1] == id[n - 1 - off]);
        if id[n - 1 - off] != '/' {
            lemma_last_slash_after_prefix(d, id, n - 1);
        }
    }
}

/// A note's stem does not depend on the directories before its name.
pub proof fn lemma_stem_ignores_directory(d: Seq<char>, id: Seq<char>)
    ensures
        stem_spec(d + seq!['/'] + id) == stem_spec(id),
{
    let s = d + seq!['/'] + id;
    let off = d.len() + 1;
    lemma_last_slash_after_prefix(d, id, s.len() as int);
    lemma_last_char_before(id, '/', id.len() as int);
    let m = last_char_before(id, '/', id.len() as int);
    assert(basename(s) =~= basename(id)) by {
        if m >= 0 {
            assert(basename(s) =~= s.subrange(m + off + 1, s.len() as int));
        } else {
            assert(basename(s) =~= s.subrange(off as int, s.len() as int));
        }
    }
}

proof fn lemma_filter_count(a: Seq<Seq<char>>, p: spec_fn(Seq<char>) -> bool, x: Seq<char>)
    ensures
        a.filter(p).to_multiset().count(x) == if p(x) {
            a.to_multiset().count(x)
        } else {
            0
        },
    decreases a.len(),
{
    broadcast use vstd::seq_lib::group_to_multiset_ensures;

    reveal(Seq::filter);
    if a.len() == 0 {
        assert(a.filter(p) =~= Seq::<Seq<char>>::empty());
    } else {
        let init = a.drop_last();
        lemma_filter_count(init, p, x);
        assert(a =~= init.push(a.last()));
        init.to_multiset_ensures();
        init.filter(p).to_multiset_ensures();
    }
}

/// A lookup groups the note ids by stem: the group of a stem lists, in string
/// order, each id with that stem as often as it was given, and no other; every
/// id stands in the group of its own stem.
pub proof fn lemma_stem_groups(ids: Seq<Seq<char>>, s: Seq<char>)
    ensures
        sorted_by(cands(ids, s), le_of(str_order())),
        forall|x: Seq<char>| #[trigger] cands(ids, s).to_multiset().count(x) == if stem_spec(x) == s {
            ids.to_multiset().count(x)
        } else {
            0
        },
        forall|x: Seq<char>| #[trigger] cands(ids, s).contains(x) <==> ids.contains(x) && stem_spec(x) == s,
        forall|x: Seq<char>| ids.contains(x) ==> #[trigger] cands(ids, stem_spec(x)).contains(x),
{
    broadcast use vstd::seq_lib::group_to_multiset_ensures;

    lemma_cands_count(ids, s);
    assert forall|x: Seq<char>| #[trigger] cands(ids, s).contains(x) <==> ids.contains(x) && stem_spec(x) == s by {
        ids.to_multiset_ensures();
        cands(ids, s).to_multiset_ensures();
        assert(cands(ids, s).to_multiset().count(x) == if stem_spec(x) == s {
            ids.to_multiset().count(x)
        } else {
            0
        });
    }
    assert forall|x: Seq<char>| ids.contains(x) implies #[trigger] cands(ids, stem_spec(x)).contains(x) by {
        let t = stem_spec(x);
        lemma_cands_count(ids, t);
        ids.to_multiset_ensures();
        cands(ids, t).to_multiset_ensures();
        assert(cands(ids, t).to_multiset().count(x) == ids.to_multiset().count(x));
    }
}

proof fn lemma_cands_count(ids: Seq<Seq<char>>, t: Seq<char>)
    ensures
        sorted_by(cands(ids, t), le_of(str_order())),
        forall|x: Seq<char>| #[trigger] cands(ids, t).to_multiset().count(x) == if stem_spec(x) == t {
            ids.to_multiset().count(x)
        } else {
            0
        },
{
    lemma_str_order();
    lemma_le_of_total(str_order());
    let le = le_of(str_order());
    let p = |x: Seq<char>| stem_spec(x) == t;
    let f = ids.filter(p);
    f.lemma_sort_by_ensures(le);
    assert forall|x: Seq<char>| #[trigger] cands(ids, t).to_multiset().count(x) == if stem_spec(x) == t {
        ids.to_multiset().count(x)
    } else {
        0
    } by {
        lemma_filter_count(ids, p, x);
    }
}

/// Link resolution depends on the note ids, not on the order they come in.
pub proof fn lemma_resolution_ignores_order(ids: Seq<Seq<char>>, ids2: Seq<Seq<char>>, t: Seq<char>)
    requires
        ids.to_multiset() == ids2.to_multiset(),
    ensures
        resolve_spec(ids, t) == resolve_spec(ids2, t),
{
    broadcast use vstd::seq_lib::group_to_multiset_ensures;

    ids.to_multiset_ensures();
    ids2.to_multiset_ensures();
    assert(ids.contains(t + md_ext()) == ids2.contains(t + md_ext())) by {
        assert(ids.to_multiset().count(t + md_ext()) == ids2.to_multiset().count(t + md_ext()));
        assert(ids.contains(t + md_ext()) <==> ids.to_multiset().count(t + md_ext()) > 0);
        assert(ids2.contains(t + md_ext()) <==> ids2.to_multiset().count(t + md_ext()) > 0);
    }
    assert(ids.contains(t) == ids2.contains(t)) by {
        assert(ids.to_multiset().count(t) == ids2.to_multiset().count(t));
        assert(ids.contains(t) <==> ids.to_multiset().count(t) > 0);
        assert(ids2.contains(t) <==> ids2.to_multiset().count(t) > 0);
    }
    let pred = |x: Seq<char>| stem_spec(x) == stem_spec(t);
    let f1 = ids.filter(pred);
    let f2 = ids2.filter(pred);
    assert(f1.to_multiset() =~= f2.to_multiset()) by {
        assert forall|x: Seq<char>| f1.to_multiset().count(x) == f2.to_multiset().count(x) by {
            lemma_filter_count(ids, pred, x);
            lemma_filter_count(ids2, pred, x);
        }
    }
    let le = le_of(str_order());
    lemma_str_order();
    lemma_le_of_total(str_order());
    f1.lemma_sort_by_ensures(le);
    f2.lemma_sort_by_ensures(le);
    vstd::seq_lib::lemma_sorted_unique(f1.sort_by(le), f2.sort_by(le), le);
    assert(cands(ids, stem_spec(t)) == cands(ids2, stem_spec(t)));
}

proof fn lemma_dedup_elems(
    rs: Seq<(Seq<char>, Seq<char>, Seq<char>, ResolutionView)>,
    seen: Set<(Seq<char>, Seq<char>)>,
    x: (Seq<char>, Seq<char>, Seq<char>, ResolutionView),
)
    requires
        dedup_from(rs, seen).contains(x),
    ensures
        rs.contains(x),
    decreases rs.len(),
{
    if rs.len() > 0 {
        let rest = rs.drop_first();
        if seen.contains(dedup_key(rs[0])) {
            assert(dedup_from(rs, seen) == dedup_from(rest, seen));
            lemma_dedup_elems(rest, seen, x);
        } else {
            let s2 = seen.insert(dedup_key(rs[0]));
            let d = dedup_from(rest, s2);
            assert(dedup_from(rs, seen) == seq![rs[0]] + d);
            if x != rs[0] {
                let j = choose|j: int| 0 <= j < dedup_from(rs, seen).len() && dedup_from(rs, seen)[j] == x;
                assert(d[j - 1] == x);
                lemma_dedup_elems(rest, s2, x);
            }
        }
        if rest.contains(x) {
            let j = choose|j: int| 0 <= j < rest.len() && rest[j] == x;
            assert(rs[j + 1] == x);
        } else {
            assert(rs[0] == x || rest.contains(x));
        }
    }
}

/// The order of resolved links: source, then raw target.
pub open spec fn order_keys(rs: Seq<(Seq<char>, Seq<char>, Seq<char>, ResolutionView)>) -> Seq<
    (Seq<char>, Seq<char>),
> {
    rs.map_values(|e: (Seq<char>, Seq<char>, Seq<char>, ResolutionView)| (e.0, e.1))
}

/// The output of `resolve_edges` is fully determined: no two resolved links
/// share a source and raw target, and any two lists with the resolved links
/// as their elements, ordered by source and then raw target, are equal.
pub proof fn lemma_resolved_edges_determined(
    ids: Seq<Seq<char>>,
    es: Seq<(Seq<char>, Seq<char>, Seq<char>)>,
    r1: Seq<(Seq<char>, Seq<char>, Seq<char>, ResolutionView)>,
    r2: Seq<(Seq<char>, Seq<char>, Seq<char>, ResolutionView)>,
)
    requires
        r1.to_multiset() == resolved_unique(ids, es).to_multiset(),
        r2.to_multiset() == resolved_unique(ids, es).to_multiset(),
        sorted_by(order_keys(r1), le_of(edge_order())),
        sorted_by(order_keys(r2), le_of(edge_order())),
    ensures
        order_keys(resolved_unique(ids, es)).no_duplicates(),
        order_keys(r1).no_duplicates(),
        r1 == r2,
{
    broadcast use vstd::seq_lib::group_to_multiset_ensures;

    let u = resolved_unique(ids, es);
    let rs = resolve_all(ids, es);
    lemma_resolved_links_unique(ids, es);
    // an element of the resolved links is fixed by its source and raw target
    assert forall|a: int, b: int| 0 <= a < u.len() && 0 <= b < u.len() && order_keys(u)[a] == order_keys(u)[b]
        implies a == b by {
        assert(u.contains(u[a]) && u.contains(u[b]));
        lemma_dedup_elems(rs, Set::empty(), u[a]);
        lemma_dedup_elems(rs, Set::empty(), u[b]);
        let ia = choose|i: int| 0 <= i < rs.len() && rs[i] == u[a];
        let ib = choose|i: int| 0 <= i < rs.len() && rs[i] == u[b];
        assert(u[a].3 == resolve_spec(ids, u[a].1));
        assert(u[b].3 == resolve_spec(ids, u[b].1));
        assert(edge_keys(u)[a] == edge_keys(u)[b]);
    }
    let f = |e: (Seq<char>, Seq<char>, Seq<char>, ResolutionView)| (e.0, e.1);
    crate::order::lemma_map_values_multiset(r1, u, f);
    crate::order::lemma_map_values_multiset(r2, u, f);
    crate::order::lemma_map_values_multiset(r1, r2, f);
    assert(order_keys(u) == u.map_values(f));
    assert(order_keys(r1) == r1.map_values(f));
    assert(order_keys(r2) == r2.map_values(f));
    crate::order::lemma_same_multiset(order_keys(r1), order_keys(u));
    let le = le_of(edge_order());
    lemma_str_order();
    lemma_pair_order(str_order(), str_order());
    lemma_le_of_total(edge_order());
    vstd::seq_lib::lemma_sorted_unique(order_keys(r1), order_keys(r2), le);
    r1.to_multiset_ensures();
    r2.to_multiset_ensures();
    u.to_multiset_ensures();
    assert(r1.len() == r2.len());
    assert forall|i: int| 0 <= i < r1.len() implies r1[i] == r2[i] by {
        assert(r1.contains(r1[i]));
        assert(r1.to_multiset().count(r1[i]) > 0);
        assert(u.contains(r1[i]));
        assert(r2.contains(r2[i]));
        assert(r2.to_multiset().count(r2[i]) > 0);
        assert(u.contains(r2[i]));
        let a = choose|a: int| 0 <= a < u.len() && u[a] == r1[i];
        let b = choose|b: int| 0 <= b < u.len() && u[b] == r2[i];
        assert(order_keys(r1)[i] == order_keys(r2)[i]);
        assert(order_keys(u)[a] == order_keys(u)[b]);
    }
    assert(r1 =~= r2);
    assert(order_keys(u).no_duplicates()) by {
        assert forall|a: int, b: int| 0 <= a < b < order_keys(u).len() implies order_keys(u)[a] != order_keys(u)[b] by {}
    }
    crate::order::lemma_same_multiset(order_keys(r1), order_keys(u));
}

} // verus!
