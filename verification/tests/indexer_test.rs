use kg_core::indexer::{plan_index, stub_targets, summarize, unchanged_summary, IndexSummary};
use kg_core::resolve::{LinkResolution, ResolvedEdge};

fn files(list: &[(&str, i64)]) -> Vec<(String, i64)> {
    list.iter().map(|(p, t)| (p.to_string(), *t)).collect()
}

fn synced(list: &[(&str, Option<i64>)]) -> Vec<(String, Option<i64>)> {
    list.iter().map(|(p, t)| (p.to_string(), *t)).collect()
}

#[test]
fn plan_from_scratch_adds_everything() {
    let plan = plan_index(&files(&[("a.md", 1), ("b.md", 2)]), &synced(&[]));
    assert_eq!(plan.new_files, files(&[("a.md", 1), ("b.md", 2)]));
    assert!(plan.changed_files.is_empty());
    assert!(plan.deleted.is_empty());
    assert!(plan.unchanged.is_empty());
    assert!(!plan.is_noop());
}

#[test]
fn plan_nothing_changed_is_noop() {
    let plan = plan_index(&files(&[("a.md", 5)]), &synced(&[("a.md", Some(5))]));
    assert!(plan.is_noop());
    assert_eq!(plan.unchanged, vec!["a.md"]);
}

#[test]
fn plan_detects_touched_and_deleted_files() {
    let plan = plan_index(
        &files(&[("a.md", 9), ("b.md", 3), ("c.md", 1)]),
        &synced(&[("a.md", Some(5)), ("b.md", Some(3)), ("gone.md", Some(1))]),
    );
    assert_eq!(plan.new_files, files(&[("c.md", 1)]));
    assert_eq!(plan.changed_files, files(&[("a.md", 9)]));
    assert_eq!(plan.deleted, vec!["gone.md"]);
    assert_eq!(plan.unchanged, vec!["b.md"]);
}

#[test]
fn plan_file_without_recorded_time_is_changed() {
    let plan = plan_index(&files(&[("a.md", 1)]), &synced(&[("a.md", None)]));
    assert_eq!(plan.changed_files, files(&[("a.md", 1)]));
}

#[test]
fn plan_older_file_is_unchanged() {
    let plan = plan_index(&files(&[("a.md", 1)]), &synced(&[("a.md", Some(7))]));
    assert!(plan.is_noop());
}

fn edge(target_raw: &str, resolution: LinkResolution) -> ResolvedEdge {
    ResolvedEdge {
        source: "a.md".into(),
        target_raw: target_raw.into(),
        context: String::new(),
        resolution,
    }
}

#[test]
fn stubs_are_the_unresolved_targets() {
    let resolved = vec![
        edge("B", LinkResolution::Resolved { id: "B.md".into() }),
        edge("Ghost", LinkResolution::Unresolved),
        edge("Other", LinkResolution::Unresolved),
    ];
    assert_eq!(stub_targets(&resolved), vec!["Ghost", "Other"]);
}

#[test]
fn summary_counts_plan_and_stubs() {
    let plan = plan_index(
        &files(&[("a.md", 9), ("c.md", 1)]),
        &synced(&[("a.md", Some(5)), ("gone.md", Some(1))]),
    );
    let resolved = vec![edge("Ghost", LinkResolution::Unresolved)];
    assert_eq!(summarize(&plan, &resolved), IndexSummary { added: 1, changed: 1, deleted: 1, stubs: 1 });
}

#[test]
fn unchanged_summary_is_all_zero() {
    assert_eq!(unchanged_summary(), IndexSummary { added: 0, changed: 0, deleted: 0, stubs: 0 });
}

#[test]
fn files_sorted_by_path() {
    let mut fs = files(&[("b.md", 1), ("A.md", 2), ("a.md", 3)]);
    kg_core::indexer::sort_files(&mut fs);
    assert_eq!(fs, files(&[("A.md", 2), ("a.md", 3), ("b.md", 1)]));
}

#[test]
fn every_file_on_disk_is_planned_once() {
    let fs = files(&[("a.md", 9), ("b.md", 3), ("c.md", 1), ("d.md", 4)]);
    let plan = plan_index(&fs, &synced(&[("a.md", Some(5)), ("b.md", Some(3)), ("d.md", None)]));
    assert_eq!(plan.new_files.len() + plan.changed_files.len() + plan.unchanged.len(), fs.len());
}

#[test]
fn plan_counts_each_kind_of_path_once() {
    let fs = files(&[("a.md", 5), ("b.md", 3), ("c.md", 9), ("e.md", 1)]);
    let ss = synced(&[("a.md", Some(5)), ("b.md", Some(1)), ("c.md", None), ("d.md", Some(2))]);
    let plan = plan_index(&fs, &ss);
    assert_eq!(plan.new_files, files(&[("e.md", 1)]));
    assert_eq!(plan.changed_files, files(&[("b.md", 3), ("c.md", 9)]));
    assert_eq!(plan.deleted, vec!["d.md"]);
    assert_eq!(plan.unchanged, vec!["a.md"]);
    let resolved: Vec<ResolvedEdge> = Vec::new();
    assert_eq!(summarize(&plan, &resolved), IndexSummary { added: 1, changed: 2, deleted: 1, stubs: 0 });
}

#[test]
fn plan_reindex_of_recorded_files_is_noop() {
    let fs = files(&[("a.md", 5), ("b.md", 3)]);
    let ss = synced(&[("b.md", Some(3)), ("a.md", Some(7))]);
    let plan = plan_index(&fs, &ss);
    assert!(plan.is_noop());
    assert_eq!(plan.unchanged, vec!["a.md", "b.md"]);
}
