use kg_core::front::FrontValue;
use kg_core::resolve::{
    extract_aliases, resolve_edges, resolve_name, resolved_target, stem_of, LinkResolution,
    MatchKind, StemLookup,
};
use kg_core::types::{ParsedEdge, ParsedNode};

// --- stem_of ---

#[test]
fn stem_of_strips_dir_and_extension() {
    assert_eq!(stem_of("People/Alice Smith.md"), "alice smith");
}

#[test]
fn stem_of_concept_path() {
    assert_eq!(stem_of("Concepts/Widget Theory.md"), "widget theory");
}

#[test]
fn stem_of_no_directory() {
    assert_eq!(stem_of("orphan.md"), "orphan");
}

#[test]
fn stem_of_nested_directory() {
    assert_eq!(stem_of("Notes/Sub/Deep.md"), "deep");
}

#[test]
fn stem_of_no_extension_no_dir() {
    assert_eq!(stem_of("Already"), "already");
}

// --- StemLookup::build ---

#[test]
fn build_groups_by_stem() {
    let ids = ["Notes/Alice.md", "People/Bob.md", "Archive/Alice.md"];
    let lookup = StemLookup::build(&ids);
    assert_eq!(lookup.stem_candidates("alice").unwrap().len(), 2);
    assert_eq!(lookup.stem_candidates("bob").unwrap().len(), 1);
}

#[test]
fn build_no_directory() {
    let ids = ["Foo.md"];
    let lookup = StemLookup::build(&ids);
    assert_eq!(lookup.stem_candidates("foo").unwrap(), vec!["Foo.md"]);
}

#[test]
fn build_empty_input() {
    let ids: [&str; 0] = [];
    let lookup = StemLookup::build(&ids);
    assert_eq!(lookup.stem_count(), 0);
    assert!(lookup.is_empty());
}

#[test]
fn build_case_insensitive_key() {
    let ids = ["Notes/ABC.md", "Notes/abc.md"];
    let lookup = StemLookup::build(&ids);
    assert_eq!(lookup.stem_candidates("abc").unwrap().len(), 2);
}

#[test]
fn build_candidates_in_string_order() {
    let ids = ["Zed/Alice.md", "Archive/Alice.md", "People/Bob.md"];
    let lookup = StemLookup::build(&ids);
    assert_eq!(lookup.stem_candidates("alice").unwrap(), vec!["Archive/Alice.md", "Zed/Alice.md"]);
    assert_eq!(lookup.stem_count(), 2);
    assert!(lookup.stem_candidates("carol").is_none());
}

// --- StemLookup::resolve ---

#[test]
fn resolve_exact_path() {
    let ids = ["People/Alice Smith.md", "Archive/Alice Smith.md"];
    let lookup = StemLookup::build(&ids);
    assert_eq!(
        lookup.resolve("People/Alice Smith"),
        LinkResolution::Resolved { id: "People/Alice Smith.md".into() }
    );
}

#[test]
fn resolve_unique_basename() {
    let ids = ["People/Bob Jones.md"];
    let lookup = StemLookup::build(&ids);
    assert_eq!(
        lookup.resolve("Bob Jones"),
        LinkResolution::Resolved { id: "People/Bob Jones.md".into() }
    );
}

#[test]
fn resolve_ambiguous_basename() {
    let ids = ["Archive/Alice Smith.md", "People/Alice Smith.md"];
    let lookup = StemLookup::build(&ids);
    let res = lookup.resolve("Alice Smith");
    match res {
        LinkResolution::Ambiguous { picked, candidates } => {
            assert_eq!(picked, "Archive/Alice Smith.md");
            assert_eq!(candidates.len(), 2);
        }
        other => panic!("expected Ambiguous, got {other:?}"),
    }
}

#[test]
fn resolve_path_suffix_disambiguates() {
    let ids = ["Archive/Alice Smith.md", "People/Alice Smith.md"];
    let lookup = StemLookup::build(&ids);
    assert_eq!(
        lookup.resolve("People/Alice Smith"),
        LinkResolution::Resolved { id: "People/Alice Smith.md".into() }
    );
}

#[test]
fn resolve_nonexistent() {
    let ids = ["People/Bob Jones.md"];
    let lookup = StemLookup::build(&ids);
    assert_eq!(lookup.resolve("NonExistent"), LinkResolution::Unresolved);
}

#[test]
fn resolve_case_insensitive_stem() {
    let ids = ["People/Alice Smith.md"];
    let lookup = StemLookup::build(&ids);
    assert_eq!(
        lookup.resolve("alice smith"),
        LinkResolution::Resolved { id: "People/Alice Smith.md".into() }
    );
}

#[test]
fn resolve_target_with_md_extension() {
    let ids = ["Concepts/Widget Theory.md"];
    let lookup = StemLookup::build(&ids);
    assert_eq!(
        lookup.resolve("Widget Theory.md"),
        LinkResolution::Resolved { id: "Concepts/Widget Theory.md".into() }
    );
}

#[test]
fn resolve_unmatched_suffix_is_ambiguous() {
    let ids = ["People/Alice Smith.md", "Archive/Alice Smith.md"];
    let lookup = StemLookup::build(&ids);
    assert_eq!(
        lookup.resolve("Other/Alice Smith"),
        LinkResolution::Ambiguous {
            picked: "Archive/Alice Smith.md".into(),
            candidates: vec!["Archive/Alice Smith.md".into(), "People/Alice Smith.md".into()],
        }
    );
}

// --- resolve_edges ---

fn make_node(id: &str) -> ParsedNode {
    ParsedNode {
        id: id.into(),
        title: stem_of(id),
        tags: vec![],
        frontmatter: FrontValue::Object(vec![]),
        first_paragraph: String::new(),
    }
}

fn make_edge(source: &str, target_raw: &str, context: &str) -> ParsedEdge {
    ParsedEdge {
        source: source.into(),
        target_raw: target_raw.into(),
        context: context.into(),
    }
}

#[test]
fn resolve_edges_resolves_by_basename() {
    let nodes = [make_node("A.md"), make_node("Dir/B.md")];
    let edges = [make_edge("A.md", "B", "links to [[B]]")];
    let resolved = resolve_edges(&nodes, &edges);
    assert_eq!(resolved.len(), 1);
    assert_eq!(resolved[0].resolution, LinkResolution::Resolved { id: "Dir/B.md".into() });
}

#[test]
fn resolve_edges_unresolved_target() {
    let nodes = [make_node("A.md")];
    let edges = [make_edge("A.md", "Ghost", "see [[Ghost]]")];
    let resolved = resolve_edges(&nodes, &edges);
    assert_eq!(resolved[0].resolution, LinkResolution::Unresolved);
}

#[test]
fn resolve_edges_dedup_same_source_target() {
    let nodes = [make_node("A.md"), make_node("B.md")];
    let edges = [
        make_edge("A.md", "B", "first [[B]]"),
        make_edge("A.md", "B", "second [[B]]"),
    ];
    let resolved = resolve_edges(&nodes, &edges);
    let a_to_b: Vec<_> = resolved.iter().filter(|e| e.source == "A.md").collect();
    assert_eq!(a_to_b.len(), 1);
    assert_eq!(a_to_b[0].context, "first [[B]]");
}

#[test]
fn resolve_edges_different_sources_kept() {
    let nodes = [make_node("A.md"), make_node("B.md"), make_node("C.md")];
    let edges = [
        make_edge("A.md", "C", "from A [[C]]"),
        make_edge("B.md", "C", "from B [[C]]"),
    ];
    let resolved = resolve_edges(&nodes, &edges);
    assert_eq!(resolved.len(), 2);
}

#[test]
fn resolve_edges_sorted_deterministically() {
    let nodes = [make_node("B.md"), make_node("A.md"), make_node("C.md")];
    let edges = [make_edge("B.md", "C", ""), make_edge("A.md", "C", "")];
    let resolved = resolve_edges(&nodes, &edges);
    assert_eq!(resolved[0].source, "A.md");
    assert_eq!(resolved[1].source, "B.md");
}

#[test]
fn resolved_target_is_id_or_raw_target() {
    let nodes = [make_node("A.md"), make_node("Dir/B.md")];
    let edges = [make_edge("A.md", "B", ""), make_edge("A.md", "Ghost", "")];
    let resolved = resolve_edges(&nodes, &edges);
    let targets: Vec<String> = resolved.iter().map(resolved_target).collect();
    assert!(targets.contains(&"Dir/B.md".to_string()));
    assert!(targets.contains(&"Ghost".to_string()));
}

// --- resolve_name ---

fn make_node_full(id: &str, title: &str, fm: FrontValue) -> ParsedNode {
    ParsedNode {
        id: id.into(),
        title: title.into(),
        tags: vec![],
        frontmatter: fm,
        first_paragraph: String::new(),
    }
}

fn empty() -> FrontValue {
    FrontValue::Object(vec![])
}

fn aliases(names: &[&str]) -> FrontValue {
    FrontValue::Object(vec![(
        "aliases".to_string(),
        FrontValue::Array(names.iter().map(|n| FrontValue::Str(n.to_string())).collect()),
    )])
}

#[test]
fn resolve_name_by_id() {
    let nodes = [make_node_full("People/Alice Smith.md", "Alice Smith", empty())];
    let matches = resolve_name("People/Alice Smith.md", &nodes);
    assert_eq!(matches.len(), 1);
    assert_eq!(matches[0].kind, MatchKind::Id);
}

#[test]
fn resolve_name_exact_title() {
    let nodes = [make_node_full("People/Alice Smith.md", "Alice Smith", empty())];
    let matches = resolve_name("Alice Smith", &nodes);
    assert_eq!(matches.len(), 1);
    assert_eq!(matches[0].kind, MatchKind::Exact);
}

#[test]
fn resolve_name_case_insensitive_title() {
    let nodes = [make_node_full("People/Alice Smith.md", "Alice Smith", empty())];
    let matches = resolve_name("alice smith", &nodes);
    assert_eq!(matches.len(), 1);
    assert_eq!(matches[0].kind, MatchKind::CaseInsensitive);
}

#[test]
fn resolve_name_alias() {
    let nodes = [make_node_full("People/Alice Smith.md", "Alice Smith", aliases(&["Ali"]))];
    let matches = resolve_name("Ali", &nodes);
    assert_eq!(matches.len(), 1);
    assert_eq!(matches[0].kind, MatchKind::Alias);
}

#[test]
fn resolve_name_alias_case_insensitive() {
    let nodes = [make_node_full("People/Alice Smith.md", "Alice Smith", aliases(&["Ali"]))];
    let matches = resolve_name("ali", &nodes);
    assert_eq!(matches.len(), 1);
    assert_eq!(matches[0].kind, MatchKind::Alias);
}

#[test]
fn resolve_name_substring() {
    let nodes = [make_node_full("People/Alice.md", "Alice", empty())];
    let matches = resolve_name("lic", &nodes);
    assert_eq!(matches.len(), 1);
    assert_eq!(matches[0].kind, MatchKind::Substring);
}

#[test]
fn resolve_name_no_match() {
    let nodes = [make_node_full("People/Alice.md", "Alice", empty())];
    let matches = resolve_name("zzz_nothing", &nodes);
    assert!(matches.is_empty());
}

#[test]
fn resolve_name_multiple_exact_matches() {
    let nodes = [
        make_node_full("A/Alice.md", "Alice", empty()),
        make_node_full("B/Alice.md", "Alice", empty()),
    ];
    let matches = resolve_name("Alice", &nodes);
    assert_eq!(matches.len(), 2);
    assert!(matches.iter().all(|m| m.kind == MatchKind::Exact));
}

#[test]
fn resolve_name_highest_tier_wins() {
    let nodes = [make_node_full("People/Alice Smith.md", "Alice Smith", empty())];
    let matches = resolve_name("People/Alice Smith.md", &nodes);
    assert_eq!(matches.len(), 1);
    assert_eq!(matches[0].kind, MatchKind::Id);
}

#[test]
fn resolve_name_lower_tiers_dropped_when_higher_matches() {
    let nodes = [
        make_node_full("A.md", "Alice", empty()),
        make_node_full("B.md", "alice", empty()),
        make_node_full("C.md", "Malice", empty()),
    ];
    let matches = resolve_name("Alice", &nodes);
    assert_eq!(matches.len(), 1);
    assert_eq!(matches[0].id, "A.md");
    assert_eq!(matches[0].kind, MatchKind::Exact);
}

#[test]
fn aliases_from_single_string() {
    let fm = FrontValue::Object(vec![("aliases".to_string(), FrontValue::Str("Ali".into()))]);
    assert_eq!(extract_aliases(&fm), vec!["Ali"]);
}

#[test]
fn stem_ignores_leading_directories() {
    assert_eq!(stem_of("Deep/Er/Notes/Alice.md"), stem_of("Alice.md"));
    assert_eq!(stem_of("X/Alice"), "alice");
}

#[test]
fn resolution_ignores_id_order() {
    let a = StemLookup::build(&["People/Alice Smith.md", "Archive/Alice Smith.md", "B.md"]);
    let b = StemLookup::build(&["B.md", "Archive/Alice Smith.md", "People/Alice Smith.md"]);
    for t in ["Alice Smith", "People/Alice Smith", "B", "Nobody"] {
        assert_eq!(a.resolve(t), b.resolve(t));
    }
}

#[test]
fn build_groups_each_stem_in_string_order() {
    let ids = ["b/Zed.md", "Notes/abc.md", "Notes/ABC.md", "x.md"];
    let lookup = StemLookup::build(&ids);
    assert_eq!(lookup.stem_candidates("abc").unwrap(), vec!["Notes/ABC.md", "Notes/abc.md"]);
    assert_eq!(lookup.stem_candidates("zed").unwrap(), vec!["b/Zed.md"]);
    assert_eq!(lookup.stem_candidates("x").unwrap(), vec!["x.md"]);
    assert!(lookup.stem_candidates("nope").is_none());
    assert_eq!(lookup.stem_count(), 3);
}
