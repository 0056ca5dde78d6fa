//! Wiki-link extraction: `[[target]]`, `[[target|display]]`, `[[target#section]]`
//! and `[[target#section|display]]`, ignoring code and `![[embeds]]`.
//!
//! The scanners below follow the grammar
//! fenced code ``` ```` ```…```  ```` or `~~~…~~~` (shortest, across lines),
//! inline code `` `…` `` (at least one character, no backtick inside), and
//! wiki links `[[…]]` (at least one character, no `]` inside). Each is found by
//! scanning left to right for the leftmost match and continuing after it,
//! the way a regular-expression `replace_all` / `captures_iter` proceeds.

use vstd::prelude::*;

use crate::text::{
    contains_seq,
    chars_of, find_char_from, find_from, lemma_next_char, lemma_next_occ, next_char, next_occ,
    occurs_at, occurs_at_exec, string_of, substring,
};

verus! {

/// A wiki link as written: target, optional display text, optional section.
#[derive(Debug, Clone, PartialEq, Eq)]
pub struct RawLink {
    pub target: String,
    pub display: Option<String>,
    pub section: Option<String>,
}

/// The characters of an optional string.
pub open spec fn opt_view(o: Option<String>) -> Option<Seq<char>> {
    match o {
        Some(s) => Some(s@),
        None => None,
    }
}

impl View for RawLink {
    type V = (Seq<char>, Option<Seq<char>>, Option<Seq<char>>);

    open spec fn view(&self) -> Self::V {
        (self.target@, opt_view(self.display), opt_view(self.section))
    }
}

/// The views of a list of links.
pub open spec fn links_view(v: Seq<RawLink>) -> Seq<(Seq<char>, Option<Seq<char>>, Option<Seq<char>>)> {
    v.map_values(|l: RawLink| l@)
}

// ---------------------------------------------------------------------------
// Code constructs
// ---------------------------------------------------------------------------

/// Three `q` characters.
pub open spec fn triple(q: char) -> Seq<char> {
    seq![q, q, q]
}

/// End of a fence opened by three `q`s at `i` and closed by the next three `q`s.
pub open spec fn fence_end(s: Seq<char>, i: int, q: char) -> Option<int> {
    if occurs_at(s, triple(q), i) {
        let k = next_occ(s, triple(q), i + 3);
        if k < s.len() {
            Some(k + 3)
        } else {
            None
        }
    } else {
        None
    }
}

/// End of the fenced code block that starts at `i`, if one does
/// (backtick fences are tried before tilde fences).
pub open spec fn fence_at(s: Seq<char>, i: int) -> Option<int> {
    match fence_end(s, i, '`') {
        Some(e) => Some(e),
        None => fence_end(s, i, '~'),
    }
}

pub proof fn lemma_fence_end(s: Seq<char>, i: int, q: char)
    requires
        0 <= i < s.len(),
    ensures
        fence_end(s, i, q) matches Some(e) ==> i + 6 <= e <= s.len(),
{
    if occurs_at(s, triple(q), i) {
        lemma_next_occ(s, triple(q), i + 3);
        let k = next_occ(s, triple(q), i + 3);
        if k < s.len() {
            assert(occurs_at(s, triple(q), k));
        }
    }
}

/// `s[i..]` with every fenced code block removed.
pub open spec fn strip_fenced_from(s: Seq<char>, i: int) -> Seq<char>
    decreases s.len() - i,
{
    if i < 0 || i >= s.len() {
        Seq::empty()
    } else {
        proof {
            lemma_fence_end(s, i, '`');
            lemma_fence_end(s, i, '~');
        }
        match fence_at(s, i) {
            Some(e) => strip_fenced_from(s, e),
            None => seq![s[i]] + strip_fenced_from(s, i + 1),
        }
    }
}

/// End of the inline code span that starts at `i`, if one does.
pub open spec fn inline_at(s: Seq<char>, i: int) -> Option<int> {
    if 0 <= i < s.len() && s[i] == '`' {
        let k = next_char(s, '`', i + 1);
        if k < s.len() && k > i + 1 {
            Some(k + 1)
        } else {
            None
        }
    } else {
        None
    }
}

/// `s[i..]` with every inline code span removed.
pub open spec fn strip_inline_from(s: Seq<char>, i: int) -> Seq<char>
    decreases s.len() - i,
{
    if i < 0 || i >= s.len() {
        Seq::empty()
    } else {
        proof {
            lemma_next_char(s, '`', i + 1);
        }
        match inline_at(s, i) {
            Some(e) => strip_inline_from(s, e),
            None => seq![s[i]] + strip_inline_from(s, i + 1),
        }
    }
}

/// `s` with fenced code blocks, then inline code spans, removed.
pub open spec fn strip_code(s: Seq<char>) -> Seq<char> {
    strip_inline_from(strip_fenced_from(s, 0), 0)
}

fn fence_end_exec(v: &Vec<char>, i: usize, q: char) -> (r: Option<usize>)
    requires
        i < v@.len(),
    ensures
        match r {
            Some(e) => fence_end(v@, i as int, q) == Some(e as int),
            None => fence_end(v@, i as int, q) is None,
        },
        r matches Some(e) ==> i + 6 <= e <= v@.len(),
{
    let n = v.len();
    let t = vec![q, q, q];
    assert(t@ =~= triple(q));
    proof {
        lemma_fence_end(v@, i as int, q);
    }
    if occurs_at_exec(v, &t, i) {
        let k = find_from(v, &t, i + 3);
        if k < v.len() {
            proof {
                lemma_next_occ(v@, t@, i + 3);
            }
            Some(k + 3)
        } else {
            None
        }
    } else {
        None
    }
}

fn fence_at_exec(v: &Vec<char>, i: usize) -> (r: Option<usize>)
    requires
        i < v@.len(),
    ensures
        match r {
            Some(e) => fence_at(v@, i as int) == Some(e as int),
            None => fence_at(v@, i as int) is None,
        },
        r matches Some(e) ==> i + 6 <= e <= v@.len(),
{
    match fence_end_exec(v, i, '`') {
        Some(e) => Some(e),
        None => fence_end_exec(v, i, '~'),
    }
}

/// `v` with every fenced code block removed.
fn strip_fenced(v: &Vec<char>) -> (r: Vec<char>)
    ensures
        r@ == strip_fenced_from(v@, 0),
{
    let mut out: Vec<char> = Vec::new();
    let mut i: usize = 0;
    while i < v.len()
        invariant
            i <= v@.len(),
            out@ + strip_fenced_from(v@, i as int) == strip_fenced_from(v@, 0),
        decreases v@.len() - i,
    {
        match fence_at_exec(v, i) {
            Some(e) => {
                i = e;
            },
            None => {
                let ghost o = out@;
                out.push(v[i]);
                assert(o + strip_fenced_from(v@, i as int) =~= out@ + strip_fenced_from(
                    v@,
                    i + 1,
                ));
                i = i + 1;
            },
        }
    }
    assert(out@ + Seq::<char>::empty() =~= out@);
    out
}

/// `v` with every inline code span removed.
fn strip_inline(v: &Vec<char>) -> (r: Vec<char>)
    ensures
        r@ == strip_inline_from(v@, 0),
{
    let mut out: Vec<char> = Vec::new();
    let mut i: usize = 0;
    while i < v.len()
        invariant
            i <= v@.len(),
            out@ + strip_inline_from(v@, i as int) == strip_inline_from(v@, 0),
        decreases v@.len() - i,
    {
        proof {
            lemma_next_char(v@, '`', i + 1);
        }
        let mut e: usize = 0;
        let mut found = false;
        if v[i] == '`' {
            let k = find_char_from(v, '`', i + 1);
            if k < v.len() && k > i + 1 {
                e = k + 1;
                found = true;
            }
        }
        if found {
            assert(inline_at(v@, i as int) == Some(e as int));
            i = e;
        } else {
            assert(inline_at(v@, i as int) is None);
            let ghost o = out@;
            out.push(v[i]);
            assert(o + strip_inline_from(v@, i as int) =~= out@ + strip_inline_from(v@, i + 1));
            i = i + 1;
        }
    }
    assert(out@ + Seq::<char>::empty() =~= out@);
    out
}

/// `md` with fenced code blocks and inline code spans removed.
pub fn strip_code_constructs(md: &str) -> (r: String)
    ensures
        r@ == strip_code(md@),
{
    let v = chars_of(md);
    let a = strip_fenced(&v);
    let b = strip_inline(&a);
    string_of(b.as_slice())
}

// ---------------------------------------------------------------------------
// Wiki links
// ---------------------------------------------------------------------------

/// End of the inner text of a wiki link `[[…]]` that starts at `i`, if one does;
/// the link itself ends two characters later.
pub open spec fn wiki_at(s: Seq<char>, i: int) -> Option<int> {
    if 0 <= i && i + 1 < s.len() && s[i] == '[' && s[i + 1] == '[' {
        let k = next_char(s, ']', i + 2);
        if k > i + 2 && k + 1 < s.len() && s[k + 1] == ']' {
            Some(k)
        } else {
            None
        }
    } else {
        None
    }
}

/// An optional piece: `None` when empty.
pub open spec fn non_empty(s: Seq<char>) -> Option<Seq<char>> {
    if s.len() == 0 {
        None
    } else {
        Some(s)
    }
}

/// The link written inside `[[…]]`: split at the first `|` for the display text,
/// then the part before it at the first `#` for the section.
pub open spec fn parse_inner_spec(inner: Seq<char>) -> (Seq<char>, Option<Seq<char>>, Option<Seq<char>>) {
    let p = next_char(inner, '|', 0);
    let left = inner.subrange(0, p);
    let display = if p < inner.len() {
        non_empty(inner.subrange(p + 1, inner.len() as int))
    } else {
        None
    };
    let h = next_char(left, '#', 0);
    let target = left.subrange(0, h);
    let section = if h < left.len() {
        non_empty(left.subrange(h + 1, left.len() as int))
    } else {
        None
    };
    (target, display, section)
}

/// The links found in `s[i..]` (after code removal), skipping embeds and empty targets.
pub open spec fn links_from(s: Seq<char>, i: int) -> Seq<(Seq<char>, Option<Seq<char>>, Option<Seq<char>>)>
    decreases s.len() - i,
{
    if i < 0 || i >= s.len() {
        Seq::empty()
    } else {
        proof {
            if i + 2 <= s.len() {
                lemma_next_char(s, ']', i + 2);
            }
        }
        match wiki_at(s, i) {
            Some(k) => {
                let link = parse_inner_spec(s.subrange(i + 2, k));
                let here = if (i > 0 && s[i - 1] == '!') || link.0.len() == 0 {
                    Seq::empty()
                } else {
                    seq![link]
                };
                here + links_from(s, k + 2)
            },
            None => links_from(s, i + 1),
        }
    }
}

/// The wiki links of a Markdown text.
pub open spec fn wiki_links(md: Seq<char>) -> Seq<(Seq<char>, Option<Seq<char>>, Option<Seq<char>>)> {
    links_from(strip_code(md), 0)
}

fn optional_piece(v: &Vec<char>, lo: usize, hi: usize) -> (r: Option<String>)
    requires
        lo <= hi <= v@.len(),
    ensures
        opt_view(r) == non_empty(v@.subrange(lo as int, hi as int)),
{
    if lo == hi {
        None
    } else {
        Some(substring(v, lo, hi))
    }
}

/// The link written inside `[[…]]`, the inner text being `v[lo..hi]`.
fn parse_inner(v: &Vec<char>, lo: usize, hi: usize) -> (r: RawLink)
    requires
        lo <= hi <= v@.len(),
    ensures
        r@ == parse_inner_spec(v@.subrange(lo as int, hi as int)),
{
    let ghost inner = v@.subrange(lo as int, hi as int);
    let inner_v = crate::text::slice_chars(v, lo, hi);
    let p = find_char_from(&inner_v, '|', 0);
    proof {
        lemma_next_char(inner, '|', 0);
    }
    let display = if p < inner_v.len() {
        optional_piece(&inner_v, p + 1, inner_v.len())
    } else {
        None
    };
    let left = crate::text::slice_chars(&inner_v, 0, p);
    let h = find_char_from(&left, '#', 0);
    proof {
        lemma_next_char(left@, '#', 0);
    }
    let section = if h < left.len() {
        optional_piece(&left, h + 1, left.len())
    } else {
        None
    };
    let target = substring(&left, 0, h);
    RawLink { target, display, section }
}

/// The wiki links of `md`, in order: code blocks and inline code are ignored,
/// `![[embeds]]` are skipped, and so are links whose target is empty.
pub fn extract_wiki_links(md: &str) -> (r: Vec<RawLink>)
    ensures
        links_view(r@) == wiki_links(md@),
{
    let v0 = chars_of(md);
    let a = strip_fenced(&v0);
    let s = strip_inline(&a);
    let mut out: Vec<RawLink> = Vec::new();
    let mut i: usize = 0;
    while i < s.len()
        invariant
            i <= s@.len(),
            s@ == strip_code(md@),
            links_view(out@) + links_from(s@, i as int) == links_from(s@, 0),
        decreases s@.len() - i,
    {
        let n = s.len();
        let mut matched = false;
        let mut k: usize = 0;
        if i + 1 < n && s[i] == '[' && s[i + 1] == '[' {
            k = find_char_from(&s, ']', i + 2);
            proof {
                lemma_next_char(s@, ']', i + 2);
            }
            if k > i + 2 && k < n && k + 1 < n && s[k + 1] == ']' {
                matched = true;
            }
        }
        if matched {
            assert(wiki_at(s@, i as int) == Some(k as int));
            let link = parse_inner(&s, i + 2, k);
            let ghost o = out@;
            if !(i > 0 && s[i - 1] == '!') && !link.target.as_str().is_empty() {
                out.push(link);
                assert(links_view(out@) =~= links_view(o).push(link@));
            }
            assert(links_view(o) + links_from(s@, i as int) =~= links_view(out@) + links_from(
                s@,
                k + 2,
            ));
            i = k + 2;
        } else {
            assert(wiki_at(s@, i as int) is None);
            i = i + 1;
        }
    }
    assert(links_view(out@) + Seq::empty() =~= links_view(out@));
    out
}

// ---------------------------------------------------------------------------
// Laws
// ---------------------------------------------------------------------------

/// A link as extracted: a non-empty target with no `|`, `#` or `]` in it, and
/// no empty display text or section.
pub open spec fn link_shape(l: (Seq<char>, Option<Seq<char>>, Option<Seq<char>>)) -> bool {
    &&& l.0.len() > 0
    &&& forall|j: int| 0 <= j < l.0.len() ==> #[trigger] l.0[j] != '|' && l.0[j] != '#' && l.0[j] != ']'
    &&& l.1 != Some(Seq::<char>::empty())
    &&& l.2 != Some(Seq::<char>::empty())
}

proof fn lemma_inner_shape(inner: Seq<char>)
    requires
        forall|j: int| 0 <= j < inner.len() ==> inner[j] != ']',
    ensures
        forall|j: int|
            0 <= j < parse_inner_spec(inner).0.len() ==> #[trigger] parse_inner_spec(inner).0[j] != '|'
                && parse_inner_spec(inner).0[j] != '#' && parse_inner_spec(inner).0[j] != ']',
        parse_inner_spec(inner).1 != Some(Seq::<char>::empty()),
        parse_inner_spec(inner).2 != Some(Seq::<char>::empty()),
{
    lemma_next_char(inner, '|', 0);
    let p = next_char(inner, '|', 0);
    let left = inner.subrange(0, p);
    lemma_next_char(left, '#', 0);
    let h = next_char(left, '#', 0);
    let target = left.subrange(0, h);
    assert(parse_inner_spec(inner).0 == target);
    assert forall|j: int| 0 <= j < target.len() implies #[trigger] target[j] != '|' && target[j] != '#'
        && target[j] != ']' by {
        assert(target[j] == left[j]);
        assert(left[j] == inner[j]);
    }
}

proof fn lemma_links_from_shape(s: Seq<char>, i: int)
    ensures
        forall|k: int| 0 <= k < links_from(s, i).len() ==> link_shape(#[trigger] links_from(s, i)[k]),
    decreases s.len() - i,
{
    if 0 <= i < s.len() {
        if i + 2 <= s.len() {
            lemma_next_char(s, ']', i + 2);
        }
        match wiki_at(s, i) {
            Some(k) => {
                let inner = s.subrange(i + 2, k);
                assert forall|j: int| 0 <= j < inner.len() implies inner[j] != ']' by {
                    assert(inner[j] == s[i + 2 + j]);
                }
                lemma_inner_shape(inner);
                lemma_links_from_shape(s, k + 2);
                let link = parse_inner_spec(inner);
                let here = if (i > 0 && s[i - 1] == '!') || link.0.len() == 0 {
                    Seq::empty()
                } else {
                    seq![link]
                };
                let rest = links_from(s, k + 2);
                assert(links_from(s, i) == here + rest);
                assert forall|m: int| 0 <= m < links_from(s, i).len() implies link_shape(
                    #[trigger] links_from(s, i)[m],
                ) by {
                    if m < here.len() {
                        assert(links_from(s, i)[m] == link);
                    } else {
                        assert(links_from(s, i)[m] == rest[m - here.len()]);
                    }
                }
            },
            None => {
                lemma_links_from_shape(s, i + 1);
                assert(links_from(s, i) == links_from(s, i + 1));
            },
        }
    }
}

/// Every extracted link has a non-empty target free of `|`, `#` and `]`, and
/// no empty display text or section.
pub proof fn lemma_links_shape(md: Seq<char>)
    ensures
        forall|k: int| 0 <= k < wiki_links(md).len() ==> link_shape(#[trigger] wiki_links(md)[k]),
{
    lemma_links_from_shape(strip_code(md), 0);
}

proof fn lemma_strip_fenced_plain(s: Seq<char>, i: int)
    requires
        0 <= i <= s.len(),
        forall|j: int| 0 <= j < s.len() ==> s[j] != '`',
        !contains_seq(s, triple('~')),
    ensures
        strip_fenced_from(s, i) == s.subrange(i, s.len() as int),
    decreases s.len() - i,
{
    if i < s.len() {
        assert(!occurs_at(s, triple('`'), i)) by {
            if occurs_at(s, triple('`'), i) {
                assert(s.subrange(i, i + 3)[0] == s[i]);
            }
        }
        assert(!occurs_at(s, triple('~'), i));
        assert(fence_at(s, i) is None);
        lemma_strip_fenced_plain(s, i + 1);
        assert(s.subrange(i, s.len() as int) =~= seq![s[i]] + s.subrange(i + 1, s.len() as int));
    } else {
        assert(s.subrange(i, s.len() as int) =~= Seq::<char>::empty());
    }
}

proof fn lemma_strip_inline_plain(s: Seq<char>, i: int)
    requires
        0 <= i <= s.len(),
        forall|j: int| 0 <= j < s.len() ==> s[j] != '`',
    ensures
        strip_inline_from(s, i) == s.subrange(i, s.len() as int),
    decreases s.len() - i,
{
    if i < s.len() {
        assert(inline_at(s, i) is None);
        lemma_strip_inline_plain(s, i + 1);
        assert(s.subrange(i, s.len() as int) =~= seq![s[i]] + s.subrange(i + 1, s.len() as int));
    } else {
        assert(s.subrange(i, s.len() as int) =~= Seq::<char>::empty());
    }
}

proof fn lemma_strip_fenced_len(s: Seq<char>, i: int)
    requires
        0 <= i <= s.len(),
    ensures
        strip_fenced_from(s, i).len() <= s.len() - i,
    decreases s.len() - i,
{
    if i < s.len() {
        lemma_fence_end(s, i, '`');
        lemma_fence_end(s, i, '~');
        match fence_at(s, i) {
            Some(e) => lemma_strip_fenced_len(s, e),
            None => lemma_strip_fenced_len(s, i + 1),
        }
    }
}

proof fn lemma_strip_inline_len(s: Seq<char>, i: int)
    requires
        0 <= i <= s.len(),
    ensures
        strip_inline_from(s, i).len() <= s.len() - i,
    decreases s.len() - i,
{
    if i < s.len() {
        lemma_next_char(s, '`', i + 1);
        match inline_at(s, i) {
            Some(e) => lemma_strip_inline_len(s, e),
            None => lemma_strip_inline_len(s, i + 1),
        }
    }
}

/// Removing code only deletes text: the result is never longer, and a text
/// with no backtick and no `~~~` comes back unchanged.
pub proof fn lemma_strip_code_deletes(md: Seq<char>)
    ensures
        strip_code(md).len() <= md.len(),
        (forall|j: int| 0 <= j < md.len() ==> md[j] != '`') && !contains_seq(md, triple('~'))
            ==> strip_code(md) == md,
{
    lemma_strip_fenced_len(md, 0);
    lemma_strip_inline_len(strip_fenced_from(md, 0), 0);
    if (forall|j: int| 0 <= j < md.len() ==> md[j] != '`') && !contains_seq(md, triple('~')) {
        lemma_strip_fenced_plain(md, 0);
        assert(md.subrange(0, md.len() as int) =~= md);
        lemma_strip_inline_plain(md, 0);
    }
}

/// `r` is `s` with some characters deleted: its characters occur in `s` in the
/// same order.
pub open spec fn is_subsequence(r: Seq<char>, s: Seq<char>) -> bool
    decreases s.len(),
{
    if r.len() == 0 {
        true
    } else if s.len() == 0 {
        false
    } else if r[0] == s[0] && is_subsequence(r.drop_first(), s.drop_first()) {
        true
    } else {
        is_subsequence(r, s.drop_first())
    }
}

proof fn lemma_subsequence_prefix(x: Seq<char>, u: Seq<char>, t: Seq<char>)
    requires
        is_subsequence(x, t),
    ensures
        is_subsequence(x, u + t),
    decreases u.len(),
{
    if u.len() == 0 {
        assert(u + t =~= t);
    } else {
        lemma_subsequence_prefix(x, u.drop_first(), t);
        assert((u + t).drop_first() =~= u.drop_first() + t);
    }
}

proof fn lemma_subsequence_trans(a: Seq<char>, b: Seq<char>, c: Seq<char>)
    requires
        is_subsequence(a, b),
        is_subsequence(b, c),
    ensures
        is_subsequence(a, c),
    decreases c.len(),
{
    if a.len() > 0 {
        if b[0] == c[0] && is_subsequence(b.drop_first(), c.drop_first()) {
            if a[0] == b[0] && is_subsequence(a.drop_first(), b.drop_first()) {
                lemma_subsequence_trans(a.drop_first(), b.drop_first(), c.drop_first());
            } else {
                lemma_subsequence_trans(a, b.drop_first(), c.drop_first());
            }
        } else {
            lemma_subsequence_trans(a, b, c.drop_first());
        }
    }
}

proof fn lemma_strip_fenced_subsequence(s: Seq<char>, i: int)
    requires
        0 <= i <= s.len(),
    ensures
        is_subsequence(strip_fenced_from(s, i), s.subrange(i, s.len() as int)),
    decreases s.len() - i,
{
    let rest = s.subrange(i, s.len() as int);
    if i < s.len() {
        lemma_fence_end(s, i, '`');
        lemma_fence_end(s, i, '~');
        match fence_at(s, i) {
            Some(e) => {
                lemma_strip_fenced_subsequence(s, e);
                lemma_subsequence_prefix(
                    strip_fenced_from(s, e),
                    s.subrange(i, e),
                    s.subrange(e, s.len() as int),
                );
                assert(rest =~= s.subrange(i, e) + s.subrange(e, s.len() as int));
            },
            None => {
                lemma_strip_fenced_subsequence(s, i + 1);
                let r = strip_fenced_from(s, i);
                assert(r[0] == rest[0]);
                assert(r.drop_first() =~= strip_fenced_from(s, i + 1));
                assert(rest.drop_first() =~= s.subrange(i + 1, s.len() as int));
            },
        }
    }
}

proof fn lemma_strip_inline_subsequence(s: Seq<char>, i: int)
    requires
        0 <= i <= s.len(),
    ensures
        is_subsequence(strip_inline_from(s, i), s.subrange(i, s.len() as int)),
    decreases s.len() - i,
{
    let rest = s.subrange(i, s.len() as int);
    if i < s.len() {
        lemma_next_char(s, '`', i + 1);
        match inline_at(s, i) {
            Some(e) => {
                lemma_strip_inline_subsequence(s, e);
                lemma_subsequence_prefix(
                    strip_inline_from(s, e),
                    s.subrange(i, e),
                    s.subrange(e, s.len() as int),
                );
                assert(rest =~= s.subrange(i, e) + s.subrange(e, s.len() as int));
            },
            None => {
                lemma_strip_inline_subsequence(s, i + 1);
                let r = strip_inline_from(s, i);
                assert(r[0] == rest[0]);
                assert(r.drop_first() =~= strip_inline_from(s, i + 1));
                assert(rest.drop_first() =~= s.subrange(i + 1, s.len() as int));
            },
        }
    }
}

/// Removing code keeps the rest of the text as it was: the result is the
/// input with some characters deleted.
pub proof fn lemma_strip_code_subsequence(md: Seq<char>)
    ensures
        is_subsequence(strip_code(md), md),
{
    let f = strip_fenced_from(md, 0);
    lemma_strip_fenced_subsequence(md, 0);
    assert(md.subrange(0, md.len() as int) =~= md);
    lemma_strip_fenced_len(md, 0);
    lemma_strip_inline_subsequence(f, 0);
    assert(f.subrange(0, f.len() as int) =~= f);
    lemma_subsequence_trans(strip_code(md), f, md);
}

} // verus!
