//! Character-level text utilities shared by the parsers and resolvers.
//!
//! Strings are handled as sequences of `char`s; every function here is
//! specified over `Seq<char>`.

use vstd::prelude::*;

verus! {

// ---------------------------------------------------------------------------
// Conversions
// ---------------------------------------------------------------------------

/// The characters of `s`, in order.
pub fn chars_of(s: &str) -> (r: Vec<char>)
    ensures
        r@ == s@,
{
    let mut r: Vec<char> = Vec::new();
    for c in it: s.chars()
        invariant
            r@ == it.seq().take(it.index() as int),
            it.seq() == s@,
    {
        r.push(c);
    }
    r
}

/// `String` built from a sequence of characters
/// (`FromIterator<char>` for `String`): the string holds exactly those characters.
#[verifier::external_body]
pub(crate) fn string_of(v: &[char]) -> (r: String)
    ensures
        r@ == v@,
{
    v.iter().collect()
}

/// The characters `v[lo..hi]`.
pub fn slice_chars(v: &Vec<char>, lo: usize, hi: usize) -> (r: Vec<char>)
    requires
        lo <= hi <= v@.len(),
    ensures
        r@ == v@.subrange(lo as int, hi as int),
{
    let mut r: Vec<char> = Vec::new();
    let mut i = lo;
    while i < hi
        invariant
            lo <= i <= hi <= v@.len(),
            r@ == v@.subrange(lo as int, i as int),
        decreases hi - i,
    {
        r.push(v[i]);
        i = i + 1;
    }
    r
}

/// The string made of the characters `v[lo..hi]`.
pub fn substring(v: &Vec<char>, lo: usize, hi: usize) -> (r: String)
    requires
        lo <= hi <= v@.len(),
    ensures
        r@ == v@.subrange(lo as int, hi as int),
{
    let part = slice_chars(v, lo, hi);
    string_of(part.as_slice())
}

/// Concatenation of two strings.
pub fn concat(a: &str, b: &str) -> (r: String)
    ensures
        r@ == a@ + b@,
{
    let mut v = chars_of(a);
    let w = chars_of(b);
    let mut i: usize = 0;
    let ghost v0 = v@;
    while i < w.len()
        invariant
            i <= w@.len(),
            v@ == v0 + w@.subrange(0, i as int),
        decreases w@.len() - i,
    {
        v.push(w[i]);
        i = i + 1;
    }
    assert(w@.subrange(0, w@.len() as int) == w@);
    string_of(v.as_slice())
}

/// Exact equality of two strings.
pub fn str_eq(a: &str, b: &str) -> (r: bool)
    ensures
        r == (a@ == b@),
{
    let x = chars_of(a);
    let y = chars_of(b);
    chars_eq(&x, &y)
}

/// Exact equality of two character sequences.
pub fn chars_eq(x: &Vec<char>, y: &Vec<char>) -> (r: bool)
    ensures
        r == (x@ == y@),
{
    if x.len() != y.len() {
        return false;
    }
    let mut i: usize = 0;
    while i < x.len()
        invariant
            x@.len() == y@.len(),
            i <= x@.len(),
            forall|k: int| 0 <= k < i ==> x@[k] == y@[k],
        decreases x@.len() - i,
    {
        if x[i] != y[i] {
            return false;
        }
        i = i + 1;
    }
    assert(x@ =~= y@);
    true
}

// ---------------------------------------------------------------------------
// Lowercasing
// ---------------------------------------------------------------------------

/// What `str::to_lowercase` returns for a string: its Unicode lowercase mapping.
pub uninterp spec fn str_lowercase(s: Seq<char>) -> Seq<char>;

/// `str::to_lowercase`. Claimed: the result is the lowercase mapping of the
/// argument's characters, a function of those characters alone (std's mapping is
/// locale-independent). Nothing more is stated of what that mapping is.
#[verifier::external_body]
pub(crate) fn lowercase(s: &str) -> (r: String)
    ensures
        r@ == str_lowercase(s@),
{
    s.to_lowercase()
}

// ---------------------------------------------------------------------------
// Whitespace and trimming
// ---------------------------------------------------------------------------

/// The Unicode `White_Space` property, which `char::is_whitespace` tests.
pub open spec fn is_white(c: char) -> bool {
    let u = c as u32;
    ||| (0x09 <= u && u <= 0x0D)
    ||| u == 0x20
    ||| u == 0x85
    ||| u == 0xA0
    ||| u == 0x1680
    ||| (0x2000 <= u && u <= 0x200A)
    ||| u == 0x2028
    ||| u == 0x2029
    ||| u == 0x202F
    ||| u == 0x205F
    ||| u == 0x3000
}

/// Whether `c` is a whitespace character.
pub fn is_white_char(c: char) -> (r: bool)
    ensures
        r == is_white(c),
{
    let u = c as u32;
    (0x09 <= u && u <= 0x0D) || u == 0x20 || u == 0x85 || u == 0xA0 || u == 0x1680 || (0x2000
        <= u && u <= 0x200A) || u == 0x2028 || u == 0x2029 || u == 0x202F || u == 0x205F || u
        == 0x3000
}

/// `s` without its leading whitespace.
pub open spec fn trim_start(s: Seq<char>) -> Seq<char>
    decreases s.len(),
{
    if s.len() > 0 && is_white(s[0]) {
        trim_start(s.drop_first())
    } else {
        s
    }
}

/// `s` without its trailing whitespace.
pub open spec fn trim_end(s: Seq<char>) -> Seq<char>
    decreases s.len(),
{
    if s.len() > 0 && is_white(s.last()) {
        trim_end(s.drop_last())
    } else {
        s
    }
}

/// `s` without leading and trailing whitespace (`str::trim`).
pub open spec fn trim(s: Seq<char>) -> Seq<char> {
    trim_end(trim_start(s))
}

/// Bounds `(a, b)` such that `v[a..b]` is `v[lo..hi]` trimmed.
pub fn trim_bounds(v: &Vec<char>, lo: usize, hi: usize) -> (r: (usize, usize))
    requires
        lo <= hi <= v@.len(),
    ensures
        lo <= r.0 <= r.1 <= hi,
        v@.subrange(r.0 as int, r.1 as int) == trim(v@.subrange(lo as int, hi as int)),
{
    let ghost s = v@.subrange(lo as int, hi as int);
    let mut a = lo;
    while a < hi && is_white_char(v[a])
        invariant
            lo <= a <= hi <= v@.len(),
            trim_start(v@.subrange(a as int, hi as int)) == trim_start(s),
        decreases hi - a,
    {
        assert(v@.subrange(a as int, hi as int).drop_first() =~= v@.subrange(
            a + 1,
            hi as int,
        ));
        a = a + 1;
    }
    assert(trim_start(v@.subrange(a as int, hi as int)) == v@.subrange(a as int, hi as int));
    let mut b = hi;
    while b > a && is_white_char(v[b - 1])
        invariant
            lo <= a <= b <= hi <= v@.len(),
            trim_end(v@.subrange(a as int, b as int)) == trim(s),
        decreases b - a,
    {
        assert(v@.subrange(a as int, b as int).drop_last() =~= v@.subrange(
            a as int,
            b - 1,
        ));
        b = b - 1;
    }
    (a, b)
}

/// `s` trimmed of leading and trailing whitespace (`str::trim`).
pub fn trim_str(s: &str) -> (r: String)
    ensures
        r@ == trim(s@),
{
    let v = chars_of(s);
    let (a, b) = trim_bounds(&v, 0, v.len());
    assert(v@.subrange(0, v@.len() as int) =~= v@);
    substring(&v, a, b)
}

// ---------------------------------------------------------------------------
// Occurrences and suffixes
// ---------------------------------------------------------------------------

/// `p` occurs in `s` starting at index `i`.
pub open spec fn occurs_at(s: Seq<char>, p: Seq<char>, i: int) -> bool {
    0 <= i && i + p.len() <= s.len() && s.subrange(i, i + p.len()) == p
}

/// `s` ends with `p`.
pub open spec fn ends_with(s: Seq<char>, p: Seq<char>) -> bool {
    p.len() <= s.len() && occurs_at(s, p, s.len() - p.len())
}

/// `p` occurs somewhere in `s`.
pub open spec fn contains_seq(s: Seq<char>, p: Seq<char>) -> bool {
    exists|i: int| occurs_at(s, p, i)
}

/// Whether `p` occurs in `v` at index `i`.
pub fn occurs_at_exec(v: &Vec<char>, p: &Vec<char>, i: usize) -> (r: bool)
    ensures
        r == occurs_at(v@, p@, i as int),
{
    if i > v.len() || p.len() > v.len() - i {
        return false;
    }
    let n = v.len();
    let mut k: usize = 0;
    while k < p.len()
        invariant
            n == v@.len(),
            i + p@.len() <= v@.len(),
            k <= p@.len(),
            forall|j: int| 0 <= j < k ==> v@[i + j] == p@[j],
        decreases p@.len() - k,
    {
        if v[i + k] != p[k] {
            assert(v@.subrange(i as int, i + p@.len())[k as int] != p@[k as int]);
            return false;
        }
        k = k + 1;
    }
    assert(v@.subrange(i as int, i + p@.len()) =~= p@);
    true
}

/// Whether `p` occurs in `v` at an index `i` with `lo <= i` and `i + |p| <= hi`.
pub fn contains_in(v: &Vec<char>, lo: usize, hi: usize, p: &Vec<char>) -> (r: bool)
    requires
        lo <= hi <= v@.len(),
    ensures
        r == contains_seq(v@.subrange(lo as int, hi as int), p@),
{
    let ghost s = v@.subrange(lo as int, hi as int);
    if p.len() > hi - lo {
        assert forall|i: int| !occurs_at(s, p@, i) by {}
        return false;
    }
    if p.len() == 0 {
        assert(s.subrange(0, 0) =~= p@);
        assert(occurs_at(s, p@, 0));
        return true;
    }
    let mut i = lo;
    while i <= hi - p.len()
        invariant
            lo <= i <= hi <= v@.len(),
            s == v@.subrange(lo as int, hi as int),
            0 < p@.len() <= hi - lo,
            forall|j: int| 0 <= j < i - lo ==> !occurs_at(s, p@, j),
        decreases hi - i,
    {
        if occurs_at_exec(v, p, i) {
            assert(s.subrange(i - lo, i - lo + p@.len()) =~= v@.subrange(
                i as int,
                i + p@.len(),
            ));
            assert(occurs_at(s, p@, i - lo));
            return true;
        }
        assert(!occurs_at(s, p@, i - lo)) by {
            if occurs_at(s, p@, i - lo) {
                assert(s.subrange(i - lo, i - lo + p@.len()) =~= v@.subrange(
                    i as int,
                    i + p@.len(),
                ));
            }
        }
        i = i + 1;
    }
    false
}

/// Whether `s` contains `p`.
pub fn str_contains(s: &str, p: &str) -> (r: bool)
    ensures
        r == contains_seq(s@, p@),
{
    let v = chars_of(s);
    let w = chars_of(p);
    assert(v@.subrange(0, v@.len() as int) =~= v@);
    contains_in(&v, 0, v.len(), &w)
}

/// Whether `s` ends with `p`.
pub fn str_ends_with(s: &str, p: &str) -> (r: bool)
    ensures
        r == ends_with(s@, p@),
{
    let v = chars_of(s);
    let w = chars_of(p);
    if w.len() > v.len() {
        return false;
    }
    occurs_at_exec(&v, &w, v.len() - w.len())
}


// ---------------------------------------------------------------------------
// Lines (`str::lines`)
// ---------------------------------------------------------------------------

/// Index of the first `c` in `s` at or after `i`, or `s.len()` when there is none.
pub open spec fn next_char(s: Seq<char>, c: char, i: int) -> int
    decreases s.len() - i,
{
    if i < 0 || i >= s.len() {
        s.len() as int
    } else if s[i] == c {
        i
    } else {
        next_char(s, c, i + 1)
    }
}

/// `l` without one trailing carriage return.
pub open spec fn strip_cr(l: Seq<char>) -> Seq<char> {
    if l.len() > 0 && l.last() == '\r' {
        l.drop_last()
    } else {
        l
    }
}

/// The lines of `s[i..]`, as `str::lines` yields them: split after each `\n`,
/// the `\n` and one `\r` before it removed; a final line ending is optional
/// and an empty rest has no line.
pub open spec fn lines_from(s: Seq<char>, i: int) -> Seq<Seq<char>>
    decreases s.len() - i,
{
    if i < 0 || i >= s.len() {
        seq![]
    } else {
        let k = next_char(s, '\n', i);
        proof {
            lemma_next_char(s, '\n', i);
        }
        if k < s.len() {
            seq![strip_cr(s.subrange(i, k))] + lines_from(s, k + 1)
        } else {
            seq![s.subrange(i, s.len() as int)]
        }
    }
}

/// The lines of `s` (`str::lines`).
pub open spec fn lines(s: Seq<char>) -> Seq<Seq<char>> {
    lines_from(s, 0)
}

/// Facts about `next_char` used by the scanners.
pub proof fn lemma_next_char(s: Seq<char>, c: char, i: int)
    requires
        0 <= i <= s.len(),
    ensures
        i <= next_char(s, c, i) <= s.len(),
        next_char(s, c, i) < s.len() ==> s[next_char(s, c, i)] == c,
        forall|j: int| i <= j < next_char(s, c, i) ==> s[j] != c,
    decreases s.len() - i,
{
    if i < s.len() && s[i] != c {
        lemma_next_char(s, c, i + 1);
    }
}

/// The index of the first `c` in `v` at or after `i` (or `v.len()`).
pub fn find_char_from(v: &Vec<char>, c: char, i: usize) -> (r: usize)
    requires
        i <= v@.len(),
    ensures
        r == next_char(v@, c, i as int),
{
    let mut k = i;
    while k < v.len() && v[k] != c
        invariant
            i <= k <= v@.len(),
            next_char(v@, c, k as int) == next_char(v@, c, i as int),
        decreases v@.len() - k,
    {
        k = k + 1;
    }
    k
}

/// The line that starts at `i`: its bounds `(lo, hi)` and where the next line starts.
pub fn next_line(v: &Vec<char>, i: usize) -> (r: (usize, usize, usize))
    requires
        i < v@.len(),
    ensures
        i == r.0 <= r.1 <= v@.len(),
        i < r.2 <= v@.len(),
        lines_from(v@, i as int) == seq![v@.subrange(r.0 as int, r.1 as int)] + lines_from(
            v@,
            r.2 as int,
        ),
{
    let k = find_char_from(v, '\n', i);
    proof {
        lemma_next_char(v@, '\n', i as int);
    }
    if k < v.len() {
        let hi = if k > i && v[k - 1] == '\r' {
            k - 1
        } else {
            k
        };
        assert(strip_cr(v@.subrange(i as int, k as int)) =~= v@.subrange(i as int, hi as int));
        (i, hi, k + 1)
    } else {
        assert(lines_from(v@, v@.len() as int) =~= Seq::<Seq<char>>::empty());
        assert(seq![v@.subrange(i as int, v@.len() as int)] + Seq::<Seq<char>>::empty()
            =~= seq![v@.subrange(i as int, v@.len() as int)]);
        (i, k, k)
    }
}

// ---------------------------------------------------------------------------
// Splitting on a separator (`str::split` with a string pattern)
// ---------------------------------------------------------------------------

/// Start of the first occurrence of `p` in `s` at or after `i`, or `s.len()` when none.
pub open spec fn next_occ(s: Seq<char>, p: Seq<char>, i: int) -> int
    decreases s.len() - i,
{
    if i < 0 || i + p.len() > s.len() {
        s.len() as int
    } else if occurs_at(s, p, i) {
        i
    } else if i >= s.len() {
        s.len() as int
    } else {
        next_occ(s, p, i + 1)
    }
}

/// Pieces of `s[i..]` between non-overlapping occurrences of `p`, found left to right.
pub open spec fn split_from(s: Seq<char>, p: Seq<char>, i: int) -> Seq<Seq<char>>
    decreases s.len() - i,
{
    if i < 0 || i > s.len() || p.len() == 0 {
        seq![]
    } else {
        let k = next_occ(s, p, i);
        proof {
            lemma_next_occ(s, p, i);
        }
        if k < s.len() {
            seq![s.subrange(i, k)] + split_from(s, p, k + p.len())
        } else {
            seq![s.subrange(i, s.len() as int)]
        }
    }
}

/// The pieces of `s` split on `p` (`str::split` with a non-empty string pattern).
pub open spec fn split_on(s: Seq<char>, p: Seq<char>) -> Seq<Seq<char>> {
    split_from(s, p, 0)
}

/// Facts about `next_occ`.
pub proof fn lemma_next_occ(s: Seq<char>, p: Seq<char>, i: int)
    requires
        0 <= i <= s.len(),
    ensures
        i <= next_occ(s, p, i) <= s.len(),
        next_occ(s, p, i) < s.len() ==> occurs_at(s, p, next_occ(s, p, i)),
        forall|j: int| i <= j < next_occ(s, p, i) ==> !occurs_at(s, p, j),
    decreases s.len() - i,
{
    if p.len() == 0 {
        assert(s.subrange(i, i) =~= p);
    } else if i + p.len() > s.len() {
    } else if !occurs_at(s, p, i) {
        lemma_next_occ(s, p, i + 1);
    }
}

/// Start of the first occurrence of `p` in `v` at or after `i`, or `v.len()`.
pub fn find_from(v: &Vec<char>, p: &Vec<char>, i: usize) -> (r: usize)
    requires
        i <= v@.len(),
    ensures
        r == next_occ(v@, p@, i as int),
{
    if p.len() == 0 {
        assert(v@.subrange(i as int, i as int) =~= p@);
        return i;
    }
    let mut k = i;
    while k <= v.len() && p.len() <= v.len() - k && !occurs_at_exec(v, p, k)
        invariant
            p@.len() > 0,
            i <= k,
            k <= v@.len() + 1,
            next_occ(v@, p@, k as int) == next_occ(v@, p@, i as int),
        decreases v@.len() + 1 - k,
    {
        k = k + 1;
    }
    if k <= v.len() && p.len() <= v.len() - k {
        k
    } else {
        v.len()
    }
}

/// The piece of the split on `p` that starts at `i`: its end and where the next piece starts
/// (`None` when it is the last piece).
pub fn next_piece(v: &Vec<char>, p: &Vec<char>, i: usize) -> (r: (usize, Option<usize>))
    requires
        i <= v@.len(),
        p@.len() > 0,
    ensures
        i <= r.0 <= v@.len(),
        match r.1 {
            Some(n) => i < n <= v@.len() && split_from(v@, p@, i as int) == seq![
                v@.subrange(i as int, r.0 as int),
            ] + split_from(v@, p@, n as int),
            None => r.0 == v@.len() && split_from(v@, p@, i as int) == seq![
                v@.subrange(i as int, v@.len() as int),
            ],
        },
{
    let k = find_from(v, p, i);
    proof {
        lemma_next_occ(v@, p@, i as int);
    }
    if k < v.len() {
        (k, Some(k + p.len()))
    } else {
        (k, None)
    }
}

} // verus!
