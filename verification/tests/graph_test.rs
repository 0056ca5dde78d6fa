use std::collections::HashSet;

use kg_core::error::Error;
use kg_core::graph::KnowledgeGraph;
use kg_core::types::NeighborEntry;

fn build_graph(nodes: &[&str], edges: &[(&str, &str)]) -> KnowledgeGraph {
    build_graph_with_stubs(nodes, &[], edges)
}

fn build_graph_with_stubs(nodes: &[&str], stub_ids: &[&str], edges: &[(&str, &str)]) -> KnowledgeGraph {
    let mut records: Vec<(String, bool)> = nodes.iter().map(|id| (id.to_string(), false)).collect();
    records.extend(stub_ids.iter().map(|id| (id.to_string(), true)));
    let links: Vec<(String, String)> =
        edges.iter().map(|(s, t)| (s.to_string(), t.to_string())).collect();
    KnowledgeGraph::from_parts(&records, &links)
}

// --- building ---

#[test]
fn from_parts_counts_nodes_and_links() {
    let kg = build_graph_with_stubs(&["a.md", "b.md", "c.md"], &["Ghost"], &[("a.md", "b.md"), ("a.md", "Ghost")]);
    assert_eq!(kg.node_count(), 4);
    assert_eq!(kg.edge_count(), 2);
}

#[test]
fn from_parts_empty() {
    let kg = build_graph(&[], &[]);
    assert_eq!(kg.node_count(), 0);
    assert_eq!(kg.edge_count(), 0);
}

#[test]
fn from_parts_self_loop() {
    let kg = build_graph(&["a.md"], &[("a.md", "a.md")]);
    assert_eq!(kg.edge_count(), 1);
}

#[test]
fn from_parts_drops_links_to_unknown_nodes() {
    let kg = build_graph(&["a.md"], &[("a.md", "missing.md"), ("missing.md", "a.md")]);
    assert_eq!(kg.edge_count(), 0);
}

#[test]
fn from_parts_keeps_first_record_of_an_id() {
    let records = vec![("a.md".to_string(), false), ("a.md".to_string(), false)];
    let kg = KnowledgeGraph::from_parts(&records, &vec![]);
    assert_eq!(kg.node_count(), 1);
    assert_eq!(kg.node_ids(), vec!["a.md"]);
}

// --- neighbors ---

#[test]
fn neighbors_depth1_undirected() {
    let kg = build_graph(&["A", "B", "C"], &[("A", "B"), ("C", "A")]);
    let result = kg.neighbors("A", 1, false).unwrap();
    let ids: Vec<&str> = result.iter().map(|e| e.id.as_str()).collect();
    assert_eq!(ids, vec!["B", "C"]);
}

#[test]
fn neighbors_depth1_directed() {
    let kg = build_graph(&["A", "B", "C"], &[("A", "B"), ("C", "A")]);
    let result = kg.neighbors("A", 1, true).unwrap();
    let ids: Vec<&str> = result.iter().map(|e| e.id.as_str()).collect();
    assert_eq!(ids, vec!["B"]);
}

#[test]
fn neighbors_depth2() {
    let kg = build_graph(&["A", "B", "C"], &[("A", "B"), ("B", "C")]);
    let result = kg.neighbors("A", 2, false).unwrap();
    assert_eq!(
        result,
        vec![
            NeighborEntry { id: "B".into(), depth: 1 },
            NeighborEntry { id: "C".into(), depth: 2 },
        ]
    );
}

#[test]
fn neighbors_self_loop_excluded() {
    let kg = build_graph(&["A", "B"], &[("A", "A"), ("A", "B")]);
    let result = kg.neighbors("A", 1, false).unwrap();
    let ids: Vec<&str> = result.iter().map(|e| e.id.as_str()).collect();
    assert_eq!(ids, vec!["B"]);
}

#[test]
fn neighbors_depth0_returns_empty() {
    let kg = build_graph(&["A", "B"], &[("A", "B")]);
    let result = kg.neighbors("A", 0, false).unwrap();
    assert!(result.is_empty());
}

#[test]
fn neighbors_isolated_node() {
    let kg = build_graph(&["A"], &[]);
    let result = kg.neighbors("A", 1, false).unwrap();
    assert!(result.is_empty());
}

#[test]
fn neighbors_nonexistent_node() {
    let kg = build_graph(&["A"], &[]);
    let err = kg.neighbors("Z", 1, false).unwrap_err();
    assert!(matches!(err, Error::NodeNotFound { .. }));
}

#[test]
fn neighbors_sorted_by_depth_then_id() {
    let kg = build_graph(&["A", "B", "C", "D"], &[("A", "C"), ("A", "B"), ("B", "D")]);
    let result = kg.neighbors("A", 2, false).unwrap();
    assert_eq!(result[0], NeighborEntry { id: "B".into(), depth: 1 });
    assert_eq!(result[1], NeighborEntry { id: "C".into(), depth: 1 });
    assert_eq!(result[2], NeighborEntry { id: "D".into(), depth: 2 });
}

#[test]
fn neighbors_report_shortest_distance() {
    let kg = build_graph(&["A", "B", "C", "D"], &[("A", "B"), ("B", "C"), ("C", "D"), ("A", "D")]);
    let result = kg.neighbors("A", 5, false).unwrap();
    assert_eq!(
        result,
        vec![
            NeighborEntry { id: "B".into(), depth: 1 },
            NeighborEntry { id: "D".into(), depth: 1 },
            NeighborEntry { id: "C".into(), depth: 2 },
        ]
    );
}

#[test]
fn neighbors_large_depth_stops_when_nothing_is_left() {
    let kg = build_graph(&["A", "B"], &[("A", "B")]);
    let result = kg.neighbors("A", usize::MAX, false).unwrap();
    assert_eq!(result, vec![NeighborEntry { id: "B".into(), depth: 1 }]);
}

#[test]
fn neighbors_error_names_the_node() {
    let kg = build_graph(&["A"], &[]);
    assert_eq!(kg.neighbors("Z", 1, false).unwrap_err(), Error::NodeNotFound { id: "Z".into() });
}

// --- path ---

#[test]
fn path_direct_link() {
    let kg = build_graph(&["A", "B"], &[("A", "B")]);
    let paths = kg.path("A", "B", 5, false).unwrap();
    assert_eq!(paths, vec![vec!["A", "B"]]);
}

#[test]
fn path_two_hop() {
    let kg = build_graph(&["A", "B", "C"], &[("A", "B"), ("B", "C")]);
    let paths = kg.path("A", "C", 5, false).unwrap();
    assert!(paths.contains(&vec!["A".to_string(), "B".into(), "C".into()]));
}

#[test]
fn path_multiple_sorted() {
    let kg = build_graph(&["A", "B", "C", "D"], &[("A", "B"), ("A", "C"), ("B", "D"), ("C", "D")]);
    let paths = kg.path("A", "D", 5, false).unwrap();
    assert!(paths.len() >= 2);
    for i in 1..paths.len() {
        assert!(paths[i - 1] <= paths[i], "paths should be sorted lexicographically");
    }
}

#[test]
fn path_max_depth_caps() {
    let kg = build_graph(&["A", "B", "C"], &[("A", "B"), ("B", "C")]);
    let paths = kg.path("A", "C", 1, false).unwrap();
    assert!(paths.is_empty(), "max_depth=1 should not find 2-hop path");
}

#[test]
fn path_same_node() {
    let kg = build_graph(&["A"], &[]);
    let paths = kg.path("A", "A", 5, false).unwrap();
    assert_eq!(paths, vec![vec!["A"]]);
}

#[test]
fn path_no_connection() {
    let kg = build_graph(&["A", "B"], &[]);
    let paths = kg.path("A", "B", 5, false).unwrap();
    assert!(paths.is_empty());
}

#[test]
fn path_nonexistent_node() {
    let kg = build_graph(&["A"], &[]);
    let err = kg.path("A", "Z", 5, false).unwrap_err();
    assert!(matches!(err, Error::NodeNotFound { .. }));
}

#[test]
fn path_directed_respects_direction() {
    let kg = build_graph(&["A", "B"], &[("B", "A")]);
    let paths = kg.path("A", "B", 5, true).unwrap();
    assert!(paths.is_empty(), "directed: no path from A to B when only B→A exists");
}

#[test]
fn path_cycle_avoidance() {
    let kg = build_graph(&["A", "B", "C"], &[("A", "B"), ("B", "C"), ("C", "A")]);
    let paths = kg.path("A", "C", 10, false).unwrap();
    for p in &paths {
        let unique: HashSet<&String> = p.iter().collect();
        assert_eq!(unique.len(), p.len(), "paths should be simple (no repeated nodes): {p:?}");
    }
}

#[test]
fn path_exact_list_on_a_square() {
    let kg = build_graph(&["A", "B", "C", "D"], &[("A", "B"), ("A", "C"), ("B", "D"), ("C", "D")]);
    let paths = kg.path("A", "D", 5, false).unwrap();
    assert_eq!(paths, vec![vec!["A", "B", "D"], vec!["A", "C", "D"]]);
}

#[test]
fn path_mutual_links_give_each_path_once() {
    let kg = build_graph(&["A", "B"], &[("A", "B"), ("B", "A")]);
    assert_eq!(kg.path("A", "B", 5, false).unwrap(), vec![vec!["A", "B"]]);
    assert_eq!(kg.path("A", "B", 5, true).unwrap(), vec![vec!["A", "B"]]);
}

#[test]
fn path_parallel_links_give_each_path_once() {
    let kg = build_graph(&["A", "B", "C"], &[("A", "B"), ("A", "B"), ("B", "C"), ("C", "B")]);
    assert_eq!(kg.path("A", "C", 5, false).unwrap(), vec![vec!["A", "B", "C"]]);
}

#[test]
fn path_zero_depth_finds_nothing() {
    let kg = build_graph(&["A", "B"], &[("A", "B")]);
    assert!(kg.path("A", "B", 0, false).unwrap().is_empty());
}

#[test]
fn path_missing_start_is_reported_first() {
    let kg = build_graph(&["A"], &[]);
    assert_eq!(kg.path("X", "Y", 3, false).unwrap_err(), Error::NodeNotFound { id: "X".into() });
}

// --- shared ---

#[test]
fn shared_common_neighbors() {
    let kg = build_graph(&["A", "B", "C"], &[("A", "C"), ("B", "C")]);
    let common = kg.shared("A", "B", false).unwrap();
    assert_eq!(common, vec!["C"]);
}

#[test]
fn shared_no_common() {
    let kg = build_graph(&["A", "B", "C", "D"], &[("A", "C"), ("B", "D")]);
    let common = kg.shared("A", "B", false).unwrap();
    assert!(common.is_empty());
}

#[test]
fn shared_excludes_a_and_b() {
    let kg = build_graph(&["A", "B"], &[("A", "B"), ("B", "A")]);
    let common = kg.shared("A", "B", false).unwrap();
    assert!(common.is_empty(), "a and b themselves should be excluded");
}

#[test]
fn shared_nonexistent_node() {
    let kg = build_graph(&["A"], &[]);
    let err = kg.shared("A", "Z", false).unwrap_err();
    assert!(matches!(err, Error::NodeNotFound { .. }));
}

#[test]
fn shared_directed() {
    let kg = build_graph(&["A", "B", "C"], &[("A", "C"), ("B", "C")]);
    let common = kg.shared("A", "B", true).unwrap();
    assert_eq!(common, vec!["C"]);
}

#[test]
fn shared_directed_ignores_incoming_links() {
    let kg = build_graph(&["A", "B", "C"], &[("C", "A"), ("C", "B")]);
    assert!(kg.shared("A", "B", true).unwrap().is_empty());
    assert_eq!(kg.shared("A", "B", false).unwrap(), vec!["C"]);
}

#[test]
fn shared_is_symmetric_and_sorted() {
    let kg = build_graph(&["A", "B", "Z", "M"], &[("A", "Z"), ("A", "M"), ("Z", "B"), ("M", "B")]);
    let ab = kg.shared("A", "B", false).unwrap();
    let ba = kg.shared("B", "A", false).unwrap();
    assert_eq!(ab, vec!["M", "Z"]);
    assert_eq!(ab, ba);
}

// --- subgraph ---

#[test]
fn subgraph_single_seed_depth0() {
    let kg = build_graph(&["A", "B"], &[("A", "B")]);
    let sg = kg.subgraph(&["A"], 0, false).unwrap();
    assert_eq!(sg.nodes.len(), 1);
    assert_eq!(sg.nodes[0].id, "A");
    assert!(sg.edges.is_empty());
}

#[test]
fn subgraph_depth1_includes_neighbors() {
    let kg = build_graph(&["A", "B", "C"], &[("A", "B"), ("A", "C"), ("B", "C")]);
    let sg = kg.subgraph(&["A"], 1, false).unwrap();
    assert_eq!(sg.nodes.len(), 3);
    assert!(sg.edges.len() >= 2);
}

#[test]
fn subgraph_multiple_seeds() {
    let kg = build_graph(&["A", "B", "C", "D"], &[("A", "B"), ("C", "D")]);
    let sg = kg.subgraph(&["A", "C"], 1, false).unwrap();
    assert_eq!(sg.nodes.len(), 4);
}

#[test]
fn subgraph_stub_marking() {
    let kg = build_graph_with_stubs(&["A"], &["S"], &[("A", "S")]);
    let sg = kg.subgraph(&["A"], 1, false).unwrap();
    let stub_node = sg.nodes.iter().find(|n| n.id == "S").unwrap();
    assert!(stub_node.is_stub);
    let real_node = sg.nodes.iter().find(|n| n.id == "A").unwrap();
    assert!(!real_node.is_stub);
}

#[test]
fn subgraph_induced_edges_only() {
    let kg = build_graph(&["A", "B", "C"], &[("A", "B"), ("B", "C")]);
    let sg = kg.subgraph(&["A"], 1, false).unwrap();
    assert!(sg.edges.iter().all(|e| {
        sg.nodes.iter().any(|n| n.id == e.source) && sg.nodes.iter().any(|n| n.id == e.target)
    }));
}

#[test]
fn subgraph_nonexistent_seed() {
    let kg = build_graph(&["A"], &[]);
    let err = kg.subgraph(&["Z"], 1, false).unwrap_err();
    assert!(matches!(err, Error::NodeNotFound { .. }));
}

#[test]
fn subgraph_deterministic_ordering() {
    let kg = build_graph(&["C", "A", "B"], &[("A", "B"), ("A", "C"), ("B", "C")]);
    let sg = kg.subgraph(&["A"], 1, false).unwrap();
    let ids: Vec<&str> = sg.nodes.iter().map(|n| n.id.as_str()).collect();
    assert_eq!(ids, vec!["A", "B", "C"]);
    for i in 1..sg.edges.len() {
        assert!(
            (sg.edges[i - 1].source.as_str(), sg.edges[i - 1].target.as_str())
                <= (sg.edges[i].source.as_str(), sg.edges[i].target.as_str())
        );
    }
}

#[test]
fn subgraph_grows_from_each_seed() {
    let kg = build_graph(&["A", "X", "B", "C", "E"], &[("A", "X"), ("X", "B"), ("C", "B"), ("B", "E")]);
    let sg = kg.subgraph(&["A", "C"], 2, false).unwrap();
    let ids: Vec<&str> = sg.nodes.iter().map(|n| n.id.as_str()).collect();
    assert_eq!(ids, vec!["A", "B", "C", "E", "X"]);
    assert!(sg.nodes.iter().all(|n| !n.is_stub));
    let pairs: Vec<(&str, &str)> = sg.edges.iter().map(|e| (e.source.as_str(), e.target.as_str())).collect();
    assert_eq!(pairs, vec![("A", "X"), ("B", "E"), ("C", "B"), ("X", "B")]);
}

#[test]
fn subgraph_does_not_depend_on_seed_order() {
    let kg = build_graph(
        &["A", "B", "P", "X", "Y"],
        &[("A", "P"), ("P", "X"), ("X", "Y"), ("B", "X")],
    );
    let sg = kg.subgraph(&["A", "B"], 2, false).unwrap();
    let sg2 = kg.subgraph(&["B", "A"], 2, false).unwrap();
    let ids: Vec<&str> = sg.nodes.iter().map(|n| n.id.as_str()).collect();
    assert_eq!(ids, vec!["A", "B", "P", "X", "Y"]);
    assert_eq!(sg, sg2);
}

#[test]
fn subgraph_first_missing_seed_is_reported() {
    let kg = build_graph(&["A"], &[]);
    let err = kg.subgraph(&["A", "Q", "R"], 1, false).unwrap_err();
    assert_eq!(err, Error::NodeNotFound { id: "Q".into() });
}

#[test]
fn subgraph_keeps_parallel_links() {
    let kg = build_graph(&["A", "B"], &[("B", "A"), ("A", "B"), ("A", "B")]);
    let sg = kg.subgraph(&["A"], 1, true).unwrap();
    let pairs: Vec<(&str, &str)> =
        sg.edges.iter().map(|e| (e.source.as_str(), e.target.as_str())).collect();
    assert_eq!(pairs, vec![("A", "B"), ("A", "B"), ("B", "A")]);
}

// --- undirected structure ---

#[test]
fn degrees_count_distinct_neighbours() {
    let kg = build_graph(
        &["Center", "L1", "L2", "L3", "Lone"],
        &[("Center", "L1"), ("L1", "Center"), ("Center", "L2"), ("Center", "L3"), ("L3", "L3")],
    );
    let degrees = kg.degrees();
    assert_eq!(
        degrees,
        vec![
            ("Center".to_string(), 3),
            ("L1".to_string(), 1),
            ("L2".to_string(), 1),
            ("L3".to_string(), 2),
        ]
    );
}

#[test]
fn undirected_adjacency_skips_self_links() {
    let kg = build_graph(&["A", "B", "C"], &[("A", "A"), ("B", "A"), ("A", "C"), ("C", "A")]);
    let adj = kg.undirected_adjacency();
    assert_eq!(adj, vec![vec![1, 2], vec![0], vec![0]]);
    assert_eq!(kg.node_ids(), vec!["A", "B", "C"]);
}

#[test]
fn deeper_neighbourhood_contains_shallower() {
    let kg = build_graph(&["A", "B", "C", "D"], &[("A", "B"), ("B", "C"), ("C", "D")]);
    let one = kg.neighbors("A", 1, false).unwrap();
    let three = kg.neighbors("A", 3, false).unwrap();
    assert!(one.iter().all(|e| three.contains(e)));
    assert_eq!(three.len(), 3);
}

#[test]
fn undirected_links_work_both_ways() {
    let kg = build_graph(&["A", "B"], &[("A", "B")]);
    assert_eq!(kg.neighbors("B", 1, false).unwrap(), vec![NeighborEntry { id: "A".into(), depth: 1 }]);
    assert!(kg.neighbors("B", 1, true).unwrap().is_empty());
    assert_eq!(kg.path("B", "A", 2, false).unwrap(), vec![vec!["B", "A"]]);
}
