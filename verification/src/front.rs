//! Front matter values: the JSON-shaped data that a note's YAML front matter
//! parses to, held as plain values.

use vstd::prelude::*;

use crate::text::str_eq;

verus! {

/// A front-matter value. Numbers are kept in their JSON text form; objects keep
/// their entries in order, each key at most once.
#[derive(Debug)]
pub enum FrontValue {
    Null,
    Bool(bool),
    Number(String),
    Str(String),
    Array(Vec<FrontValue>),
    Object(Vec<(String, FrontValue)>),
}

/// The value stored under `key` among `entries` (the first entry with that key).
pub open spec fn lookup_entries(entries: Seq<(String, FrontValue)>, key: Seq<char>) -> Option<
    FrontValue,
>
    decreases entries.len(),
{
    if entries.len() == 0 {
        None
    } else if entries[0].0@ == key {
        Some(entries[0].1)
    } else {
        lookup_entries(entries.drop_first(), key)
    }
}

/// The field `key` of `v`, when `v` is an object that has it.
pub open spec fn field(v: FrontValue, key: Seq<char>) -> Option<FrontValue> {
    match v {
        FrontValue::Object(entries) => lookup_entries(entries@, key),
        _ => None,
    }
}

/// The string items of a list of values, in order; other items are left out.
pub open spec fn strings_in(items: Seq<FrontValue>) -> Seq<Seq<char>>
    decreases items.len(),
{
    if items.len() == 0 {
        Seq::empty()
    } else {
        let rest = strings_in(items.drop_first());
        match items[0] {
            FrontValue::Str(s) => seq![s@] + rest,
            _ => rest,
        }
    }
}

/// The strings a field lists: the string items of an array, or the one string.
pub open spec fn string_list(v: Option<FrontValue>) -> Seq<Seq<char>> {
    match v {
        Some(FrontValue::Array(items)) => strings_in(items@),
        Some(FrontValue::Str(s)) => seq![s@],
        _ => Seq::empty(),
    }
}

/// The views of a list of strings.
pub open spec fn views(v: Seq<String>) -> Seq<Seq<char>> {
    v.map_values(|s: String| s@)
}

impl FrontValue {
    /// The empty object.
    pub fn empty_object() -> (r: FrontValue)
        ensures
            r matches FrontValue::Object(es) && es@.len() == 0,
    {
        FrontValue::Object(Vec::new())
    }

    /// Whether the value is an object.
    pub fn is_object(&self) -> (r: bool)
        ensures
            r == (self is Object),
    {
        match self {
            FrontValue::Object(_) => true,
            _ => false,
        }
    }

    /// The field `key` of this value, when it is an object that has it.
    pub fn get(&self, key: &str) -> (r: Option<&FrontValue>)
        ensures
            match r {
                Some(x) => field(*self, key@) == Some(*x),
                None => field(*self, key@) is None,
            },
    {
        match self {
            FrontValue::Object(entries) => {
                let mut i: usize = 0;
                assert(entries@.skip(0) =~= entries@);
                while i < entries.len()
                    invariant
                        i <= entries@.len(),
                        field(*self, key@) == lookup_entries(entries@, key@),
                        lookup_entries(entries@, key@) == lookup_entries(
                            entries@.skip(i as int),
                            key@,
                        ),
                    decreases entries@.len() - i,
                {
                    assert(entries@.skip(i as int).drop_first() =~= entries@.skip(i + 1));
                    assert(entries@.skip(i as int)[0] == entries@[i as int]);
                    if str_eq(entries[i].0.as_str(), key) {
                        return Some(&entries[i].1);
                    }
                    i = i + 1;
                }
                None
            },
            _ => None,
        }
    }
}

/// The strings that the value `v` lists (see `string_list`).
pub fn string_items(v: Option<&FrontValue>) -> (r: Vec<String>)
    ensures
        views(r@) == string_list(
            match v {
                Some(x) => Some(*x),
                None => None,
            },
        ),
{
    match v {
        Some(FrontValue::Array(items)) => {
            let mut out: Vec<String> = Vec::new();
            let mut i = items.len();
            let ghost all = items@;
            while i > 0
                invariant
                    i <= all.len(),
                    all == items@,
                    views(out@) == strings_in(all.skip(i as int)),
                decreases i,
            {
                i = i - 1;
                assert(all.skip(i as int).drop_first() =~= all.skip(i + 1));
                match &items[i] {
                    FrontValue::Str(s) => {
                        let ghost o = out@;
                        out.insert(0, s.clone());
                        assert(views(out@) =~= seq![s@] + views(o));
                    },
                    _ => {},
                }
            }
            assert(all.skip(0) =~= all);
            out
        },
        Some(FrontValue::Str(s)) => {
            let mut out: Vec<String> = Vec::new();
            out.push(s.clone());
            assert(views(out@) =~= seq![s@]);
            out
        },
        _ => {
            let out: Vec<String> = Vec::new();
            assert(views(out@) =~= Seq::<Seq<char>>::empty());
            out
        },
    }
}

} // verus!
