//! Incremental indexing decisions: which files are new, changed, deleted or
//! unchanged since the last index, and the summary of an indexing run.

use vstd::prelude::*;

use crate::order::{lemma_str_order, sort_by_key, sorted_by_key, str_lt, str_order, SortKey};
use crate::resolve::{LinkResolution, ResolvedEdge, ResolutionView};
use crate::text::str_eq;

verus! {

/// What an indexing run did.
#[derive(Debug, Clone, PartialEq)]
pub struct IndexSummary {
    pub added: usize,
    pub changed: usize,
    pub deleted: usize,
    pub stubs: usize,
}

/// The work an indexing run has to do.
#[derive(Debug, Clone, PartialEq)]
pub struct IndexPlan {
    /// Files on disk that were never indexed, with their modification times.
    pub new_files: Vec<(String, i64)>,
    /// Indexed files modified since (or with no recorded time), with their times.
    pub changed_files: Vec<(String, i64)>,
    /// Indexed files no longer on disk.
    pub deleted: Vec<String>,
    /// Files on disk that are neither new nor changed.
    pub unchanged: Vec<String>,
}

/// A file with its modification time, as plain values.
pub open spec fn file_view(f: (String, i64)) -> (Seq<char>, i64) {
    (f.0@, f.1)
}

/// A synced path with its recorded time, as plain values.
pub open spec fn sync_view(f: (String, Option<i64>)) -> (Seq<char>, Option<i64>) {
    (f.0@, f.1)
}

/// The paths of a list of files.
pub open spec fn paths_of(fs: Seq<(Seq<char>, i64)>) -> Seq<Seq<char>> {
    fs.map_values(|f: (Seq<char>, i64)| f.0)
}

/// The paths of a list of synced records.
pub open spec fn synced_paths(ss: Seq<(Seq<char>, Option<i64>)>) -> Seq<Seq<char>> {
    ss.map_values(|f: (Seq<char>, Option<i64>)| f.0)
}

/// The recorded time of `p` (the first record for it).
pub open spec fn recorded(ss: Seq<(Seq<char>, Option<i64>)>, p: Seq<char>) -> Option<i64>
    decreases ss.len(),
{
    if ss.len() == 0 {
        None
    } else if ss[0].0 == p {
        ss[0].1
    } else {
        recorded(ss.drop_first(), p)
    }
}

/// A file on disk is new when no record has its path.
pub open spec fn is_new(ss: Seq<(Seq<char>, Option<i64>)>, f: (Seq<char>, i64)) -> bool {
    !synced_paths(ss).contains(f.0)
}

/// A recorded file is changed when it has no recorded time or is newer than it.
pub open spec fn is_changed(ss: Seq<(Seq<char>, Option<i64>)>, f: (Seq<char>, i64)) -> bool {
    synced_paths(ss).contains(f.0) && match recorded(ss, f.0) {
        None => true,
        Some(t) => f.1 > t,
    }
}

/// The plan for files `fs` on disk and sync records `ss`, as plain values:
/// new files, changed files, deleted paths, unchanged paths, each in input order.
pub open spec fn plan_spec(fs: Seq<(Seq<char>, i64)>, ss: Seq<(Seq<char>, Option<i64>)>) -> (
    Seq<(Seq<char>, i64)>,
    Seq<(Seq<char>, i64)>,
    Seq<Seq<char>>,
    Seq<Seq<char>>,
) {
    (
        fs.filter(|f: (Seq<char>, i64)| is_new(ss, f)),
        fs.filter(|f: (Seq<char>, i64)| is_changed(ss, f)),
        synced_paths(ss).filter(|p: Seq<char>| !paths_of(fs).contains(p)),
        paths_of(fs.filter(|f: (Seq<char>, i64)| !is_new(ss, f) && !is_changed(ss, f))),
    )
}

/// The views of a list of strings.
pub open spec fn strs(v: Seq<String>) -> Seq<Seq<char>> {
    v.map_values(|s: String| s@)
}

/// The views of a list of files.
pub open spec fn files(v: Seq<(String, i64)>) -> Seq<(Seq<char>, i64)> {
    v.map_values(|f: (String, i64)| file_view(f))
}

/// The views of a list of sync records.
pub open spec fn syncs(v: Seq<(String, Option<i64>)>) -> Seq<(Seq<char>, Option<i64>)> {
    v.map_values(|f: (String, Option<i64>)| sync_view(f))
}

impl IndexPlan {
    /// Nothing to do: no file is new, changed or deleted.
    pub fn is_noop(&self) -> (r: bool)
        ensures
            r == (self.new_files@.len() == 0 && self.changed_files@.len() == 0
                && self.deleted@.len() == 0),
    {
        self.new_files.len() == 0 && self.changed_files.len() == 0 && self.deleted.len() == 0
    }
}

fn find_record(ss: &Vec<(String, Option<i64>)>, p: &str) -> (r: (bool, Option<i64>))
    ensures
        r.0 == synced_paths(syncs(ss@)).contains(p@),
        r.1 == recorded(syncs(ss@), p@),
{
    let ghost all = syncs(ss@);
    let mut i: usize = 0;
    assert(all.skip(0) =~= all);
    while i < ss.len()
        invariant
            i <= ss@.len(),
            all == syncs(ss@),
            recorded(all, p@) == recorded(all.skip(i as int), p@),
            forall|j: int| 0 <= j < i ==> #[trigger] synced_paths(all)[j] != p@,
        decreases ss@.len() - i,
    {
        assert(all.skip(i as int).drop_first() =~= all.skip(i + 1));
        assert(all.skip(i as int)[0] == sync_view(ss@[i as int]));
        assert(synced_paths(all)[i as int] == ss@[i as int].0@);
        if str_eq(ss[i].0.as_str(), p) {
            return (true, ss[i].1);
        }
        i = i + 1;
    }
    assert(all.skip(i as int) =~= Seq::empty());
    (false, None)
}

fn has_path(fs: &Vec<(String, i64)>, p: &str) -> (r: bool)
    ensures
        r == paths_of(files(fs@)).contains(p@),
{
    let mut i: usize = 0;
    while i < fs.len()
        invariant
            i <= fs@.len(),
            forall|j: int| 0 <= j < i ==> #[trigger] paths_of(files(fs@))[j] != p@,
        decreases fs@.len() - i,
    {
        assert(paths_of(files(fs@))[i as int] == fs@[i as int].0@);
        if str_eq(fs[i].0.as_str(), p) {
            return true;
        }
        i = i + 1;
    }
    false
}

/// Compares the files on disk with the sync records of the last index.
pub fn plan_index(fs_files: &Vec<(String, i64)>, synced: &Vec<(String, Option<i64>)>) -> (r:
    IndexPlan)
    ensures
        plan_spec(files(fs_files@), syncs(synced@)) == (
            files(r.new_files@),
            files(r.changed_files@),
            strs(r.deleted@),
            strs(r.unchanged@),
        ),
{
    broadcast use vstd::seq::Seq::lemma_filter_push;

    let ghost fs = files(fs_files@);
    let ghost ss = syncs(synced@);
    let ghost pn = |f: (Seq<char>, i64)| is_new(ss, f);
    let ghost pc = |f: (Seq<char>, i64)| is_changed(ss, f);
    let ghost pu = |f: (Seq<char>, i64)| !is_new(ss, f) && !is_changed(ss, f);
    let mut new_files: Vec<(String, i64)> = Vec::new();
    let mut changed_files: Vec<(String, i64)> = Vec::new();
    let mut unchanged: Vec<String> = Vec::new();
    let mut i: usize = 0;
    while i < fs_files.len()
        invariant
            i <= fs_files@.len(),
            fs == files(fs_files@),
            ss == syncs(synced@),
            pn == (|f: (Seq<char>, i64)| is_new(ss, f)),
            pc == (|f: (Seq<char>, i64)| is_changed(ss, f)),
            pu == (|f: (Seq<char>, i64)| !is_new(ss, f) && !is_changed(ss, f)),
            files(new_files@) == fs.subrange(0, i as int).filter(pn),
            files(changed_files@) == fs.subrange(0, i as int).filter(pc),
            strs(unchanged@) == paths_of(fs.subrange(0, i as int).filter(pu)),
        decreases fs_files@.len() - i,
    {
        let (path, mtime) = (&fs_files[i].0, fs_files[i].1);
        let ghost f = fs[i as int];
        assert(f == (path@, mtime));
        assert(fs.subrange(0, i + 1) =~= fs.subrange(0, i as int).push(f));
        let (known, stored) = find_record(synced, path.as_str());
        let ghost on = files(new_files@);
        let ghost oc = files(changed_files@);
        let ghost ou = strs(unchanged@);
        let is_new_file = !known;
        let is_changed_file = known && match stored {
            None => true,
            Some(sm) => mtime > sm,
        };
        proof {
            let pre = fs.subrange(0, i as int);
            assert(pn(f) == !known);
            assert(pc(f) == is_changed_file);
            assert(pu(f) == (known && !is_changed_file));
            pre.lemma_filter_push(f, pn);
            pre.lemma_filter_push(f, pc);
            pre.lemma_filter_push(f, pu);
        }
        if is_new_file {
            new_files.push((path.clone(), mtime));
            assert(files(new_files@) =~= on.push(f));
        } else if is_changed_file {
            changed_files.push((path.clone(), mtime));
            assert(files(changed_files@) =~= oc.push(f));
        } else {
            unchanged.push(path.clone());
            assert(strs(unchanged@) =~= ou.push(f.0));
            assert(paths_of(fs.subrange(0, i as int).filter(pu).push(f)) =~= paths_of(
                fs.subrange(0, i as int).filter(pu),
            ).push(f.0));
        }
        i = i + 1;
    }
    assert(fs.subrange(0, fs_files@.len() as int) =~= fs);
    let ghost sp = synced_paths(ss);
    let ghost pd = |p: Seq<char>| !paths_of(fs).contains(p);
    let mut deleted: Vec<String> = Vec::new();
    let mut k: usize = 0;
    while k < synced.len()
        invariant
            k <= synced@.len(),
            fs == files(fs_files@),
            ss == syncs(synced@),
            sp == synced_paths(ss),
            pd == (|p: Seq<char>| !paths_of(fs).contains(p)),
            strs(deleted@) == sp.subrange(0, k as int).filter(pd),
        decreases synced@.len() - k,
    {
        let p = &synced[k].0;
        assert(sp[k as int] == p@);
        assert(sp.subrange(0, k + 1) =~= sp.subrange(0, k as int).push(p@));
        let ghost od = strs(deleted@);
        let present = has_path(fs_files, p.as_str());
        proof {
            assert(pd(p@) == !present);
            sp.subrange(0, k as int).lemma_filter_push(p@, pd);
        }
        if !present {
            deleted.push(p.clone());
            assert(strs(deleted@) =~= od.push(p@));
        }
        k = k + 1;
    }
    assert(sp.subrange(0, synced@.len() as int) =~= sp);
    IndexPlan { new_files, changed_files, deleted, unchanged }
}

/// The number of unresolved links among `rs`.
pub open spec fn unresolved_count(rs: Seq<ResolvedEdge>) -> nat
    decreases rs.len(),
{
    if rs.len() == 0 {
        0
    } else {
        (if rs.last().resolution@ is Unresolved {
            1nat
        } else {
            0nat
        }) + unresolved_count(rs.drop_last())
    }
}

/// The raw targets of the unresolved links among `rs`, in order (one stub each).
pub open spec fn stub_targets_spec(rs: Seq<ResolvedEdge>) -> Seq<Seq<char>> {
    rs.filter(|e: ResolvedEdge| e.resolution@ is Unresolved).map_values(
        |e: ResolvedEdge| e.target_raw@,
    )
}

/// The raw targets of the unresolved links, in order.
pub fn stub_targets(resolved: &Vec<ResolvedEdge>) -> (r: Vec<String>)
    ensures
        strs(r@) == stub_targets_spec(resolved@),
        r@.len() == unresolved_count(resolved@),
{
    broadcast use vstd::seq::Seq::lemma_filter_push;

    let ghost pred = |e: ResolvedEdge| e.resolution@ is Unresolved;
    let ghost f = |e: ResolvedEdge| e.target_raw@;
    let mut out: Vec<String> = Vec::new();
    let mut i: usize = 0;
    while i < resolved.len()
        invariant
            i <= resolved@.len(),
            pred == (|e: ResolvedEdge| e.resolution@ is Unresolved),
            f == (|e: ResolvedEdge| e.target_raw@),
            strs(out@) == resolved@.subrange(0, i as int).filter(pred).map_values(f),
            out@.len() == unresolved_count(resolved@.subrange(0, i as int)),
        decreases resolved@.len() - i,
    {
        let e = &resolved[i];
        let ghost o = strs(out@);
        assert(resolved@.subrange(0, i + 1) =~= resolved@.subrange(0, i as int).push(*e));
        assert(resolved@.subrange(0, i + 1).drop_last() =~= resolved@.subrange(0, i as int));
        proof {
            resolved@.subrange(0, i as int).lemma_filter_push(*e, pred);
        }
        match &e.resolution {
            LinkResolution::Unresolved => {
                out.push(e.target_raw.clone());
                proof {
                    let fl = resolved@.subrange(0, i as int).filter(pred);
                    assert(fl.push(*e).map_values(f) =~= fl.map_values(f).push(f(*e)));
                    assert(strs(out@) =~= o.push(e.target_raw@));
                }
            },
            _ => {},
        }
        i = i + 1;
    }
    assert(resolved@.subrange(0, resolved@.len() as int) =~= resolved@);
    out
}

/// The summary of an indexing run that carried out `plan` and resolved `resolved`:
/// one stub is counted per unresolved link.
pub fn summarize(plan: &IndexPlan, resolved: &Vec<ResolvedEdge>) -> (r: IndexSummary)
    ensures
        r.added == plan.new_files@.len(),
        r.changed == plan.changed_files@.len(),
        r.deleted == plan.deleted@.len(),
        r.stubs == unresolved_count(resolved@),
{
    let stubs = stub_targets(resolved);
    IndexSummary {
        added: plan.new_files.len(),
        changed: plan.changed_files.len(),
        deleted: plan.deleted.len(),
        stubs: stubs.len(),
    }
}

/// The summary of a run that found nothing to do.
pub fn unchanged_summary() -> (r: IndexSummary)
    ensures
        r == (IndexSummary { added: 0, changed: 0, deleted: 0, stubs: 0 }),
{
    IndexSummary { added: 0, changed: 0, deleted: 0, stubs: 0 }
}

/// Every file on disk is exactly one of new, changed and unchanged.
pub proof fn lemma_plan_partition(fs: Seq<(Seq<char>, i64)>, ss: Seq<(Seq<char>, Option<i64>)>)
    ensures
        ({
            let (n, c, _d, u) = plan_spec(fs, ss);
            n.len() + c.len() + u.len() == fs.len()
        }),
        forall|f: (Seq<char>, i64)| !(is_new(ss, f) && is_changed(ss, f)),
    decreases fs.len(),
{
    reveal(Seq::filter);
    if fs.len() > 0 {
        let init = fs.drop_last();
        lemma_plan_partition(init, ss);
        let pn = |f: (Seq<char>, i64)| is_new(ss, f);
        let pc = |f: (Seq<char>, i64)| is_changed(ss, f);
        let pu = |f: (Seq<char>, i64)| !is_new(ss, f) && !is_changed(ss, f);
        assert(fs.filter(pn).len() + fs.filter(pc).len() + fs.filter(pu).len() == init.filter(pn).len()
            + init.filter(pc).len() + init.filter(pu).len() + 1);
        assert(paths_of(fs.filter(pu)).len() == fs.filter(pu).len());
        assert(paths_of(init.filter(pu)).len() == init.filter(pu).len());
    }
}

/// An index that recorded every file on disk at its current time or later, and
/// no path that is gone, has nothing to do: no file is new or changed and none
/// was deleted.
pub proof fn lemma_plan_noop(fs: Seq<(Seq<char>, i64)>, ss: Seq<(Seq<char>, Option<i64>)>)
    requires
        forall|i: int|
            0 <= i < fs.len() ==> synced_paths(ss).contains(#[trigger] fs[i].0) && (recorded(
                ss,
                fs[i].0,
            ) matches Some(t) && fs[i].1 <= t),
        forall|p: Seq<char>| synced_paths(ss).contains(p) ==> paths_of(fs).contains(p),
    ensures
        plan_spec(fs, ss).0.len() == 0,
        plan_spec(fs, ss).1.len() == 0,
        plan_spec(fs, ss).2.len() == 0,
{
    let pn = |f: (Seq<char>, i64)| is_new(ss, f);
    let pc = |f: (Seq<char>, i64)| is_changed(ss, f);
    let pd = |p: Seq<char>| !paths_of(fs).contains(p);
    assert forall|i: int| 0 <= i < fs.len() implies !pn(fs[i]) && !pc(fs[i]) by {
        assert(synced_paths(ss).contains(fs[i].0));
    }
    assert(fs.all(|f: (Seq<char>, i64)| !pn(f)));
    fs.lemma_all_neg_filter_empty(pn);
    assert(fs.all(|f: (Seq<char>, i64)| !pc(f)));
    fs.lemma_all_neg_filter_empty(pc);
    let sp = synced_paths(ss);
    assert forall|j: int| 0 <= j < sp.len() implies !pd(sp[j]) by {
        assert(sp.contains(sp[j]));
    }
    assert(sp.all(|p: Seq<char>| !pd(p)));
    sp.lemma_all_neg_filter_empty(pd);
}

/// The modification time of the file at `p` (the first with that path).
pub open spec fn file_time(fs: Seq<(Seq<char>, i64)>, p: Seq<char>) -> Option<i64>
    decreases fs.len(),
{
    if fs.len() == 0 {
        None
    } else if fs[0].0 == p {
        Some(fs[0].1)
    } else {
        file_time(fs.drop_first(), p)
    }
}

/// Paths on disk with no record.
pub open spec fn new_paths(fs: Seq<(Seq<char>, i64)>, ss: Seq<(Seq<char>, Option<i64>)>) -> Set<
    Seq<char>,
> {
    paths_of(fs).to_set().filter(|p: Seq<char>| !synced_paths(ss).contains(p))
}

/// Recorded paths on disk that are newer than their record, or have no recorded time.
pub open spec fn changed_paths(fs: Seq<(Seq<char>, i64)>, ss: Seq<(Seq<char>, Option<i64>)>) -> Set<
    Seq<char>,
> {
    paths_of(fs).to_set().filter(
        |p: Seq<char>|
            synced_paths(ss).contains(p) && match (file_time(fs, p), recorded(ss, p)) {
                (Some(m), Some(t)) => m > t,
                _ => true,
            },
    )
}

/// Recorded paths no longer on disk.
pub open spec fn deleted_paths(fs: Seq<(Seq<char>, i64)>, ss: Seq<(Seq<char>, Option<i64>)>) -> Set<
    Seq<char>,
> {
    synced_paths(ss).to_set().filter(|p: Seq<char>| !paths_of(fs).contains(p))
}

proof fn lemma_file_time(fs: Seq<(Seq<char>, i64)>, i: int)
    requires
        paths_of(fs).no_duplicates(),
        0 <= i < fs.len(),
    ensures
        file_time(fs, fs[i].0) == Some(fs[i].1),
    decreases i,
{
    if i > 0 {
        assert(paths_of(fs)[0] != paths_of(fs)[i]);
        let rest = fs.drop_first();
        assert(paths_of(rest) =~= paths_of(fs).drop_first());
        assert(rest[i - 1] == fs[i]);
        lemma_file_time(rest, i - 1);
    }
}

proof fn lemma_filter_paths(fs: Seq<(Seq<char>, i64)>, p: spec_fn((Seq<char>, i64)) -> bool)
    requires
        paths_of(fs).no_duplicates(),
    ensures
        paths_of(fs.filter(p)).no_duplicates(),
        paths_of(fs.filter(p)).len() == fs.filter(p).len(),
        forall|k: Seq<char>|
            #[trigger] paths_of(fs.filter(p)).contains(k) <==> exists|i: int|
                0 <= i < fs.len() && fs[i].0 == k && p(fs[i]),
    decreases fs.len(),
{
    reveal(Seq::filter);
    if fs.len() > 0 {
        let init = fs.drop_last();
        let l = fs.last();
        assert(paths_of(init) =~= paths_of(fs).drop_last());
        lemma_filter_paths(init, p);
        let fi = init.filter(p);
        if p(l) {
            assert(fs.filter(p) == fi.push(l));
            assert(paths_of(fi.push(l)) =~= paths_of(fi).push(l.0));
            assert(!paths_of(fi).contains(l.0)) by {
                if paths_of(fi).contains(l.0) {
                    let i = choose|i: int| 0 <= i < init.len() && init[i].0 == l.0 && p(init[i]);
                    assert(paths_of(fs)[i] == paths_of(fs)[fs.len() - 1]);
                }
            }
        } else {
            assert(fs.filter(p) == fi);
        }
        assert forall|k: Seq<char>|
            #[trigger] paths_of(fs.filter(p)).contains(k) <==> exists|i: int|
                0 <= i < fs.len() && fs[i].0 == k && p(fs[i]) by {
            if paths_of(fs.filter(p)).contains(k) {
                if p(l) && k == l.0 {
                    assert(fs[fs.len() - 1] == l);
                } else {
                    assert(paths_of(fi).contains(k)) by {
                        if p(l) {
                            let j = choose|j: int| 0 <= j < paths_of(fi).len() + 1 && paths_of(fi).push(l.0)[j] == k;
                            assert(j < paths_of(fi).len());
                            assert(paths_of(fi)[j] == k);
                        }
                    }
                    let i = choose|i: int| 0 <= i < init.len() && init[i].0 == k && p(init[i]);
                    assert(fs[i] == init[i]);
                }
            }
            if exists|i: int| 0 <= i < fs.len() && fs[i].0 == k && p(fs[i]) {
                let i = choose|i: int| 0 <= i < fs.len() && fs[i].0 == k && p(fs[i]);
                if i == fs.len() - 1 {
                    assert(paths_of(fs.filter(p))[paths_of(fi).len() as int] == k);
                } else {
                    assert(init[i] == fs[i]);
                    assert(paths_of(fi).contains(k));
                    let j = choose|j: int| 0 <= j < paths_of(fi).len() && paths_of(fi)[j] == k;
                    assert(paths_of(fs.filter(p))[j] == k);
                }
            }
        }
    }
}

proof fn lemma_filter_distinct(x: Seq<Seq<char>>, p: spec_fn(Seq<char>) -> bool)
    requires
        x.no_duplicates(),
    ensures
        x.filter(p).no_duplicates(),
        forall|k: Seq<char>| #[trigger] x.filter(p).contains(k) <==> x.contains(k) && p(k),
    decreases x.len(),
{
    broadcast use vstd::seq_lib::group_filter_ensures;

    reveal(Seq::filter);
    if x.len() > 0 {
        let init = x.drop_last();
        let l = x.last();
        lemma_filter_distinct(init, p);
        if p(l) {
            assert(x.filter(p) == init.filter(p).push(l));
            assert(!init.filter(p).contains(l)) by {
                if init.filter(p).contains(l) {
                    let i = choose|i: int| 0 <= i < init.len() && init[i] == l;
                    assert(x[i] == x[x.len() - 1]);
                }
            }
        }
        assert forall|k: Seq<char>| #[trigger] x.filter(p).contains(k) <==> x.contains(k) && p(k) by {
            if x.filter(p).contains(k) {
                x.lemma_filter_contains_rev(p, k);
                let j = choose|j: int| 0 <= j < x.filter(p).len() && x.filter(p)[j] == k;
                x.lemma_filter_pred(p, j);
            }
            if x.contains(k) && p(k) {
                let i = choose|i: int| 0 <= i < x.len() && x[i] == k;
                x.lemma_filter_contains(p, i);
            }
        }
    }
}

/// With one file per path and one record per path, the plan counts distinct
/// paths: new files are the paths on disk with no record, changed files the
/// recorded paths on disk newer than their record (or with no recorded time),
/// deleted paths the recorded ones no longer on disk.
pub proof fn lemma_plan_counts(fs: Seq<(Seq<char>, i64)>, ss: Seq<(Seq<char>, Option<i64>)>)
    requires
        paths_of(fs).no_duplicates(),
        synced_paths(ss).no_duplicates(),
    ensures
        plan_spec(fs, ss).0.len() == new_paths(fs, ss).len(),
        plan_spec(fs, ss).1.len() == changed_paths(fs, ss).len(),
        plan_spec(fs, ss).2.len() == deleted_paths(fs, ss).len(),
{
    let pn = |f: (Seq<char>, i64)| is_new(ss, f);
    let pc = |f: (Seq<char>, i64)| is_changed(ss, f);
    let pd = |p: Seq<char>| !paths_of(fs).contains(p);
    let (n, c, d, _u) = plan_spec(fs, ss);
    // new files
    lemma_filter_paths(fs, pn);
    paths_of(n).unique_seq_to_set();
    assert(paths_of(n).to_set() =~= new_paths(fs, ss)) by {
        assert forall|k: Seq<char>| paths_of(n).to_set().contains(k) <==> new_paths(fs, ss).contains(k) by {
            if paths_of(fs).contains(k) {
                let i = choose|i: int| 0 <= i < paths_of(fs).len() && paths_of(fs)[i] == k;
                assert(fs[i].0 == k);
            }
            if paths_of(n).contains(k) {
                let i = choose|i: int| 0 <= i < fs.len() && fs[i].0 == k && pn(fs[i]);
                assert(paths_of(fs)[i] == k);
            }
        }
    }
    // changed files
    lemma_filter_paths(fs, pc);
    paths_of(c).unique_seq_to_set();
    assert(paths_of(c).to_set() =~= changed_paths(fs, ss)) by {
        assert forall|k: Seq<char>| paths_of(c).to_set().contains(k) <==> changed_paths(fs, ss).contains(k) by {
            if paths_of(fs).contains(k) {
                let i = choose|i: int| 0 <= i < paths_of(fs).len() && paths_of(fs)[i] == k;
                assert(fs[i].0 == k);
                lemma_file_time(fs, i);
            }
            if paths_of(c).contains(k) {
                let i = choose|i: int| 0 <= i < fs.len() && fs[i].0 == k && pc(fs[i]);
                assert(paths_of(fs)[i] == k);
                lemma_file_time(fs, i);
            }
        }
    }
    // deleted paths
    lemma_filter_distinct(synced_paths(ss), pd);
    d.unique_seq_to_set();
    assert(d.to_set() =~= deleted_paths(fs, ss));
}

impl SortKey for (String, i64) {
    type K = Seq<char>;

    open spec fn key(&self) -> Seq<char> {
        self.0@
    }

    open spec fn key_lt() -> spec_fn(Seq<char>, Seq<char>) -> bool {
        str_order()
    }

    proof fn lemma_key_order() {
        lemma_str_order();
    }

    fn key_less(&self, other: &Self) -> (r: bool) {
        str_lt(self.0.as_str(), other.0.as_str())
    }
}

/// Orders files on disk by path.
pub fn sort_files(fs: &mut Vec<(String, i64)>)
    ensures
        final(fs)@.to_multiset() == old(fs)@.to_multiset(),
        sorted_by_key(final(fs)@),
{
    sort_by_key(fs);
}

} // verus!
