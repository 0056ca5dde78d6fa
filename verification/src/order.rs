//! Lexicographic orders and a sort by key over them.
//!
//! `String`'s `Ord` compares the UTF-8 bytes, which orders strings exactly as
//! comparing their characters by code point does; `Vec`'s `Ord` is the
//! lexicographic extension of its elements' order. Both are modelled by `lex_lt`.

use vstd::prelude::*;
use vstd::relations::{sorted_by, total_ordering};

use crate::text::chars_of;

verus! {

/// `lt` is a strict total order.
pub open spec fn strict_total<A>(lt: spec_fn(A, A) -> bool) -> bool {
    &&& forall|x: A| !#[trigger] lt(x, x)
    &&& forall|x: A, y: A, z: A| #[trigger] lt(x, y) && #[trigger] lt(y, z) ==> lt(x, z)
    &&& forall|x: A, y: A| x != y ==> #[trigger] lt(x, y) || #[trigger] lt(y, x)
}

/// The reflexive closure of `lt`.
pub open spec fn le_of<A>(lt: spec_fn(A, A) -> bool) -> spec_fn(A, A) -> bool {
    |x: A, y: A| x == y || lt(x, y)
}

/// The reflexive closure of a strict total order is a total order.
pub proof fn lemma_le_of_total<A>(lt: spec_fn(A, A) -> bool)
    requires
        strict_total(lt),
    ensures
        total_ordering(le_of(lt)),
{
    let le = le_of(lt);
    assert forall|x: A, y: A| #[trigger] le(x, y) && #[trigger] le(y, x) implies x == y by {
        if x != y {
            assert(lt(x, y) && lt(y, x));
            assert(lt(x, x));
        }
    }
    assert forall|x: A, y: A, z: A| #[trigger] le(x, y) && #[trigger] le(y, z) implies le(x, z) by {
        if x != y && y != z {
            assert(lt(x, y) && lt(y, z));
        }
    }
}

/// Lexicographic strict order on sequences, from a strict order on elements;
/// a proper prefix comes first.
pub open spec fn lex_lt<A>(a: Seq<A>, b: Seq<A>, lt: spec_fn(A, A) -> bool) -> bool
    decreases a.len(),
{
    if a.len() == 0 {
        b.len() > 0
    } else if b.len() == 0 {
        false
    } else if a[0] == b[0] {
        lex_lt(a.drop_first(), b.drop_first(), lt)
    } else {
        lt(a[0], b[0])
    }
}

/// The lexicographic order of a strict total order is a strict total order.
pub proof fn lemma_lex_strict_total<A>(lt: spec_fn(A, A) -> bool)
    requires
        strict_total(lt),
    ensures
        strict_total(|a: Seq<A>, b: Seq<A>| lex_lt(a, b, lt)),
{
    let l = |a: Seq<A>, b: Seq<A>| lex_lt(a, b, lt);
    assert forall|x: Seq<A>| !#[trigger] l(x, x) by {
        lemma_lex_irreflexive(x, lt);
    }
    assert forall|x: Seq<A>, y: Seq<A>, z: Seq<A>| #[trigger] l(x, y) && #[trigger] l(y, z) implies l(
        x,
        z,
    ) by {
        lemma_lex_transitive(x, y, z, lt);
    }
    assert forall|x: Seq<A>, y: Seq<A>| x != y implies #[trigger] l(x, y) || #[trigger] l(y, x) by {
        lemma_lex_connected(x, y, lt);
    }
}

proof fn lemma_lex_irreflexive<A>(a: Seq<A>, lt: spec_fn(A, A) -> bool)
    ensures
        !lex_lt(a, a, lt),
    decreases a.len(),
{
    if a.len() > 0 {
        lemma_lex_irreflexive(a.drop_first(), lt);
    }
}

proof fn lemma_lex_transitive<A>(a: Seq<A>, b: Seq<A>, c: Seq<A>, lt: spec_fn(A, A) -> bool)
    requires
        strict_total(lt),
        lex_lt(a, b, lt),
        lex_lt(b, c, lt),
    ensures
        lex_lt(a, c, lt),
    decreases a.len(),
{
    if a.len() > 0 && b.len() > 0 && c.len() > 0 {
        if a[0] == b[0] && b[0] == c[0] {
            lemma_lex_transitive(a.drop_first(), b.drop_first(), c.drop_first(), lt);
        } else if a[0] == b[0] {
            assert(lt(b[0], c[0]));
        } else if b[0] == c[0] {
            assert(lt(a[0], b[0]));
        } else {
            assert(lt(a[0], b[0]) && lt(b[0], c[0]));
            assert(lt(a[0], c[0]));
            if a[0] == c[0] {
                assert(lt(a[0], a[0]));
            }
        }
    }
}

proof fn lemma_lex_connected<A>(a: Seq<A>, b: Seq<A>, lt: spec_fn(A, A) -> bool)
    requires
        strict_total(lt),
        a != b,
    ensures
        lex_lt(a, b, lt) || lex_lt(b, a, lt),
    decreases a.len(),
{
    if a.len() == 0 {
        assert(b.len() > 0) by {
            if b.len() == 0 {
                assert(a =~= b);
            }
        }
    } else if b.len() == 0 {
    } else if a[0] == b[0] {
        if a.drop_first() == b.drop_first() {
            assert(a =~= seq![a[0]] + a.drop_first());
            assert(b =~= seq![b[0]] + b.drop_first());
        }
        lemma_lex_connected(a.drop_first(), b.drop_first(), lt);
    } else {
        assert(lt(a[0], b[0]) || lt(b[0], a[0]));
    }
}

/// Characters ordered by code point.
pub open spec fn char_order() -> spec_fn(char, char) -> bool {
    |x: char, y: char| (x as int) < (y as int)
}

/// Strings ordered as `String`'s `Ord` orders them.
pub open spec fn str_order() -> spec_fn(Seq<char>, Seq<char>) -> bool {
    |a: Seq<char>, b: Seq<char>| lex_lt(a, b, char_order())
}

/// Lists of strings ordered as `Vec<String>`'s `Ord` orders them.
pub open spec fn strs_order() -> spec_fn(Seq<Seq<char>>, Seq<Seq<char>>) -> bool {
    |a: Seq<Seq<char>>, b: Seq<Seq<char>>| lex_lt(a, b, str_order())
}

/// The code point order on characters is a strict total order.
pub proof fn lemma_char_order()
    ensures
        strict_total(char_order()),
{
    assert forall|x: char, y: char| x != y implies #[trigger] (char_order())(x, y) || #[trigger] (
    char_order())(y, x) by {
        assert((x as int) != (y as int));
    }
}

/// The string order is a strict total order.
pub proof fn lemma_str_order()
    ensures
        strict_total(str_order()),
{
    lemma_char_order();
    lemma_lex_strict_total(char_order());
    assert(str_order() =~= (|a: Seq<char>, b: Seq<char>| lex_lt(a, b, char_order())));
}

/// The order on lists of strings is a strict total order.
pub proof fn lemma_strs_order()
    ensures
        strict_total(strs_order()),
{
    lemma_str_order();
    lemma_lex_strict_total(str_order());
    assert(strs_order() =~= (|a: Seq<Seq<char>>, b: Seq<Seq<char>>| lex_lt(a, b, str_order())));
}

proof fn lemma_lex_skip<A>(a: Seq<A>, b: Seq<A>, i: int, lt: spec_fn(A, A) -> bool)
    requires
        0 <= i < a.len(),
        i < b.len(),
        a[i] == b[i],
    ensures
        lex_lt(a.skip(i), b.skip(i), lt) == lex_lt(a.skip(i + 1), b.skip(i + 1), lt),
{
    assert(a.skip(i).drop_first() =~= a.skip(i + 1));
    assert(b.skip(i).drop_first() =~= b.skip(i + 1));
}

/// Whether `a` comes before `b` in the string order.
pub fn chars_lt(a: &Vec<char>, b: &Vec<char>) -> (r: bool)
    ensures
        r == (str_order())(a@, b@),
{
    let mut i: usize = 0;
    assert(a@.skip(0) =~= a@);
    assert(b@.skip(0) =~= b@);
    while i < a.len() && i < b.len() && a[i] == b[i]
        invariant
            i <= a@.len(),
            i <= b@.len(),
            lex_lt(a@, b@, char_order()) == lex_lt(a@.skip(i as int), b@.skip(i as int), char_order()),
        decreases a@.len() - i,
    {
        proof {
            lemma_lex_skip(a@, b@, i as int, char_order());
        }
        i = i + 1;
    }
    if i == a.len() {
        i < b.len()
    } else if i == b.len() {
        false
    } else {
        a[i] < b[i]
    }
}

/// Whether `a` comes before `b` in the string order.
pub fn str_lt(a: &str, b: &str) -> (r: bool)
    ensures
        r == (str_order())(a@, b@),
{
    let x = chars_of(a);
    let y = chars_of(b);
    chars_lt(&x, &y)
}

/// The views of a list of strings.
pub open spec fn strs_view(v: Seq<String>) -> Seq<Seq<char>> {
    v.map_values(|s: String| s@)
}

/// Whether `a` comes before `b` in the order on lists of strings.
pub fn strs_lt(a: &Vec<String>, b: &Vec<String>) -> (r: bool)
    ensures
        r == (strs_order())(strs_view(a@), strs_view(b@)),
{
    let ghost x = strs_view(a@);
    let ghost y = strs_view(b@);
    let mut i: usize = 0;
    assert(x.skip(0) =~= x);
    assert(y.skip(0) =~= y);
    while i < a.len() && i < b.len() && crate::text::str_eq(a[i].as_str(), b[i].as_str())
        invariant
            i <= a@.len(),
            i <= b@.len(),
            x == strs_view(a@),
            y == strs_view(b@),
            lex_lt(x, y, str_order()) == lex_lt(x.skip(i as int), y.skip(i as int), str_order()),
        decreases a@.len() - i,
    {
        proof {
            lemma_lex_skip(x, y, i as int, str_order());
        }
        i = i + 1;
    }
    if i == a.len() {
        i < b.len()
    } else if i == b.len() {
        false
    } else {
        str_lt(a[i].as_str(), b[i].as_str())
    }
}

// ---------------------------------------------------------------------------
// Sorting
// ---------------------------------------------------------------------------

/// A type sorted by a key that is ordered by a strict total order.
pub trait SortKey: Sized {
    type K;

    /// The key by which a value is sorted.
    spec fn key(&self) -> Self::K;

    /// The strict order on keys.
    spec fn key_lt() -> spec_fn(Self::K, Self::K) -> bool;

    proof fn lemma_key_order()
        ensures
            strict_total(Self::key_lt()),
    ;

    /// Whether `self`'s key comes before `other`'s.
    fn key_less(&self, other: &Self) -> (r: bool)
        ensures
            r == (Self::key_lt())(self.key(), other.key()),
    ;
}

/// The keys of a sequence of values.
pub open spec fn keys<T: SortKey>(s: Seq<T>) -> Seq<T::K> {
    s.map_values(|x: T| x.key())
}

/// `s` is sorted by key (non-decreasing).
pub open spec fn sorted_by_key<T: SortKey>(s: Seq<T>) -> bool {
    sorted_by(keys(s), le_of(T::key_lt()))
}

/// Index at which `x` goes into the sorted `out` after all keys not greater than its key.
fn insertion_point<T: SortKey>(out: &Vec<T>, x: &T) -> (r: usize)
    requires
        sorted_by_key(out@),
    ensures
        r <= out@.len(),
        forall|j: int| 0 <= j < r ==> !(T::key_lt())(x.key(), #[trigger] out@[j].key()),
        forall|j: int| r <= j < out@.len() ==> (T::key_lt())(x.key(), #[trigger] out@[j].key()),
{
    proof {
        T::lemma_key_order();
    }
    let mut k = out.len();
    while k > 0 && x.key_less(&out[k - 1])
        invariant
            k <= out@.len(),
            sorted_by_key(out@),
            strict_total(T::key_lt()),
            forall|j: int| k <= j < out@.len() ==> (T::key_lt())(x.key(), #[trigger] out@[j].key()),
        decreases k,
    {
        k = k - 1;
    }
    proof {
        let lt = T::key_lt();
        assert forall|j: int| 0 <= j < k implies !lt(x.key(), #[trigger] out@[j].key()) by {
            let kk = k - 1;
            assert(keys(out@)[j] == out@[j].key());
            assert(keys(out@)[kk] == out@[kk].key());
            assert((le_of(lt))(keys(out@)[j], keys(out@)[kk]));
            if lt(x.key(), out@[j].key()) {
                if out@[j].key() != out@[kk].key() {
                    assert(lt(out@[j].key(), out@[kk].key()));
                }
            }
        }
    }
    k
}

/// Sorts `v` by key: the result is a rearrangement of `v` in key order.
pub fn sort_by_key<T: SortKey>(v: &mut Vec<T>)
    ensures
        final(v)@.to_multiset() == old(v)@.to_multiset(),
        sorted_by_key(final(v)@),
{
    broadcast use vstd::seq_lib::group_to_multiset_ensures;

    let ghost orig = v@;
    let mut rev: Vec<T> = Vec::new();
    while v.len() > 0
        invariant
            v@.to_multiset().add(rev@.to_multiset()) == orig.to_multiset(),
        decreases v@.len(),
    {
        let ghost before = v@;
        let x = v.pop().unwrap();
        assert(before == v@.push(x));
        let ghost r0 = rev@;
        rev.push(x);
        proof {
            v@.to_multiset_ensures();
            r0.to_multiset_ensures();
            assert(before.to_multiset() =~= v@.to_multiset().insert(x));
            assert(rev@.to_multiset() =~= r0.to_multiset().insert(x));
        }
    }
    let mut out: Vec<T> = Vec::new();
    assert(keys(out@) =~= Seq::<T::K>::empty());
    while rev.len() > 0
        invariant
            out@.to_multiset().add(rev@.to_multiset()) == orig.to_multiset(),
            sorted_by_key(out@),
        decreases rev@.len(),
    {
        let ghost before = rev@;
        let x = rev.pop().unwrap();
        assert(before == rev@.push(x));
        proof {
            rev@.to_multiset_ensures();
            assert(before.to_multiset() =~= rev@.to_multiset().insert(x));
        }
        let pos = insertion_point(&out, &x);
        let ghost o = out@;
        out.insert(pos, x);
        proof {
            T::lemma_key_order();
            let lt = T::key_lt();
            assert(out@ == o.insert(pos as int, x));
            assert(out@.remove(pos as int) =~= o);
            assert(out@[pos as int] == x);
            assert(out@.to_multiset() =~= o.to_multiset().insert(x)) by {
                out@.to_multiset_ensures();
                assert(out@.remove(pos as int).to_multiset() =~= out@.to_multiset().remove(x));
                assert(out@.to_multiset().count(x) > 0) by {
                    assert(out@.contains(x));
                }
            }
            let ks = keys(out@);
            assert forall|i: int, j: int| 0 <= i < j < ks.len() implies #[trigger] (le_of(lt))(
                ks[i],
                ks[j],
            ) by {
                assert(ks[i] == out@[i].key());
                assert(ks[j] == out@[j].key());
                let oi = if i < pos { i } else { i - 1 };
                let oj = if j <= pos { j } else { j - 1 };
                if i != pos && j != pos {
                    assert(keys(o)[oi] == o[oi].key());
                    assert(keys(o)[oj] == o[oj].key());
                    assert((le_of(lt))(keys(o)[oi], keys(o)[oj]));
                } else if i == pos {
                    assert(lt(x.key(), o[oj].key()));
                } else {
                    assert(!lt(x.key(), o[oi].key()));
                    if o[oi].key() != x.key() {
                        assert(lt(o[oi].key(), x.key()));
                    }
                }
            }
        }
    }
    *v = out;
}

/// Sorting that preserves the multiset and orders by key gives, on keys, `sort_by`.
pub proof fn lemma_sorted_keys_unique<T: SortKey>(r: Seq<T>, s: Seq<T>)
    requires
        r.to_multiset() == s.to_multiset(),
        sorted_by_key(r),
    ensures
        keys(r) == keys(s).sort_by(le_of(T::key_lt())),
{
    T::lemma_key_order();
    lemma_le_of_total(T::key_lt());
    let le = le_of(T::key_lt());
    keys(s).lemma_sort_by_ensures(le);
    lemma_map_multiset(r, s);
    vstd::seq_lib::lemma_sorted_unique(keys(r), keys(s).sort_by(le), le);
}

/// Equal multisets have equal multisets of keys.
pub proof fn lemma_map_multiset<T: SortKey>(r: Seq<T>, s: Seq<T>)
    requires
        r.to_multiset() == s.to_multiset(),
    ensures
        keys(r).to_multiset() == keys(s).to_multiset(),
{
    lemma_map_values_multiset(r, s, |x: T| x.key());
}

/// Mapping preserves equality of multisets.
pub proof fn lemma_map_values_multiset<A, B>(r: Seq<A>, s: Seq<A>, f: spec_fn(A) -> B)
    requires
        r.to_multiset() == s.to_multiset(),
    ensures
        r.map_values(f).to_multiset() == s.map_values(f).to_multiset(),
    decreases r.len(),
{
    broadcast use vstd::multiset::group_multiset_axioms;

    r.to_multiset_ensures();
    s.to_multiset_ensures();
    if r.len() == 0 {
        assert(s.len() == 0);
        assert(r.map_values(f) =~= s.map_values(f));
    } else {
        let x = r.last();
        let r0 = r.drop_last();
        assert(r =~= r0.push(x));
        r0.to_multiset_ensures();
        assert(r.to_multiset() =~= r0.to_multiset().insert(x));
        assert(r.contains(x)) by {
            assert(r[r.len() - 1] == x);
        }
        assert(s.to_multiset().count(x) > 0);
        assert(s.contains(x));
        let i = choose|i: int| 0 <= i < s.len() && s[i] == x;
        let s0 = s.remove(i);
        assert(s0.to_multiset() =~= s.to_multiset().remove(x));
        assert(r0.to_multiset() =~= s0.to_multiset());
        lemma_map_values_multiset(r0, s0, f);
        let rm = r.map_values(f);
        let sm = s.map_values(f);
        assert(rm =~= r0.map_values(f).push(f(x)));
        r0.map_values(f).to_multiset_ensures();
        sm.to_multiset_ensures();
        assert(sm.remove(i) =~= s0.map_values(f));
        assert(sm[i] == f(x));
        assert(sm.remove(i).to_multiset() =~= sm.to_multiset().remove(f(x)));
        assert(sm.contains(f(x))) by {
            assert(sm[i] == f(x));
        }
        assert(sm.to_multiset().count(f(x)) > 0);
        assert(sm.to_multiset() =~= sm.to_multiset().remove(f(x)).insert(f(x)));
    }
}

/// Natural numbers in their usual order.
pub open spec fn nat_order() -> spec_fn(nat, nat) -> bool {
    |x: nat, y: nat| x < y
}

/// The usual order on natural numbers is a strict total order.
pub proof fn lemma_nat_order()
    ensures
        strict_total(nat_order()),
{
}

/// Pairs ordered by their first component, then by their second.
pub open spec fn pair_order<A, B>(a: spec_fn(A, A) -> bool, b: spec_fn(B, B) -> bool) -> spec_fn(
    (A, B),
    (A, B),
) -> bool {
    |x: (A, B), y: (A, B)| a(x.0, y.0) || (x.0 == y.0 && b(x.1, y.1))
}

/// The pair order of two strict total orders is a strict total order.
pub proof fn lemma_pair_order<A, B>(a: spec_fn(A, A) -> bool, b: spec_fn(B, B) -> bool)
    requires
        strict_total(a),
        strict_total(b),
    ensures
        strict_total(pair_order(a, b)),
{
    let p = pair_order(a, b);
    assert forall|x: (A, B)| !#[trigger] p(x, x) by {
        assert(!a(x.0, x.0));
        assert(!b(x.1, x.1));
    }
    assert forall|x: (A, B), y: (A, B), z: (A, B)| #[trigger] p(x, y) && #[trigger] p(y, z) implies p(
        x,
        z,
    ) by {
        if a(x.0, y.0) && a(y.0, z.0) {
            assert(a(x.0, z.0));
        } else if a(x.0, y.0) {
        } else if a(y.0, z.0) {
        } else {
            assert(b(x.1, y.1) && b(y.1, z.1));
            assert(b(x.1, z.1));
        }
    }
    assert forall|x: (A, B), y: (A, B)| x != y implies #[trigger] p(x, y) || #[trigger] p(y, x) by {
        if x.0 != y.0 {
            assert(a(x.0, y.0) || a(y.0, x.0));
        } else {
            assert(x.1 != y.1);
            assert(b(x.1, y.1) || b(y.1, x.1));
        }
    }
}

/// Sequences with equal multisets hold the same elements, as many of them, and
/// one is free of duplicates when the other is.
pub proof fn lemma_same_multiset<A>(r: Seq<A>, s: Seq<A>)
    requires
        r.to_multiset() == s.to_multiset(),
    ensures
        r.len() == s.len(),
        forall|x: A| r.contains(x) <==> s.contains(x),
        r.to_set() == s.to_set(),
        s.no_duplicates() ==> r.no_duplicates(),
        r.no_duplicates() ==> s.no_duplicates(),
{
    broadcast use vstd::multiset::group_multiset_axioms;

    r.to_multiset_ensures();
    s.to_multiset_ensures();
    assert forall|x: A| r.contains(x) <==> s.contains(x) by {
        assert(r.contains(x) <==> r.to_multiset().count(x) > 0);
        assert(s.contains(x) <==> s.to_multiset().count(x) > 0);
    }
    assert(r.to_set() =~= s.to_set()) by {
        assert forall|x: A| r.to_set().contains(x) <==> s.to_set().contains(x) by {
            assert(r.contains(x) <==> s.contains(x));
        }
    }
    if s.no_duplicates() {
        s.lemma_multiset_has_no_duplicates();
        r.lemma_multiset_has_no_duplicates_conv();
    }
    if r.no_duplicates() {
        r.lemma_multiset_has_no_duplicates();
        s.lemma_multiset_has_no_duplicates_conv();
    }
}

/// Two duplicate-free sequences, sorted by one total order, that hold the same
/// elements are equal.
pub proof fn lemma_sorted_sets_equal<A>(r: Seq<A>, s: Seq<A>, lt: spec_fn(A, A) -> bool)
    requires
        strict_total(lt),
        r.no_duplicates(),
        s.no_duplicates(),
        r.to_set() == s.to_set(),
        sorted_by(r, le_of(lt)),
        sorted_by(s, le_of(lt)),
    ensures
        r == s,
{
    broadcast use vstd::multiset::group_multiset_axioms;

    r.to_multiset_ensures();
    s.to_multiset_ensures();
    r.lemma_multiset_has_no_duplicates();
    s.lemma_multiset_has_no_duplicates();
    assert forall|x: A| r.to_multiset().count(x) == s.to_multiset().count(x) by {
        if r.contains(x) {
            assert(r.to_set().contains(x));
            assert(s.to_set().contains(x));
            assert(s.contains(x));
            assert(r.to_multiset().count(x) > 0);
            assert(s.to_multiset().count(x) > 0);
            assert(r.to_multiset().contains(x));
            assert(s.to_multiset().contains(x));
        } else {
            assert(!r.to_set().contains(x));
            assert(!s.to_set().contains(x));
            assert(!s.contains(x));
        }
    }
    assert(r.to_multiset() =~= s.to_multiset());
    lemma_le_of_total(lt);
    vstd::seq_lib::lemma_sorted_unique(r, s, le_of(lt));
}

} // verus!
