//! The directed graph that holds a vault's links: petgraph's `Graph`, with node
//! weights that are note ids and no edge weights.
//!
//! The graph's contents are described by two names: the node weights in index
//! order, and the links in insertion order as pairs of node indices.

use vstd::prelude::*;

use petgraph::graph::{EdgeIndex, Graph, NodeIndex};
use petgraph::{Directed, Direction};

verus! {

#[verifier::external_type_specification]
#[verifier::external_body]
#[verifier::reject_recursive_types(N)]
#[verifier::reject_recursive_types(E)]
#[verifier::reject_recursive_types(Ty)]
#[verifier::reject_recursive_types(Ix)]
pub struct ExGraph<N, E, Ty, Ix>(Graph<N, E, Ty, Ix>);

#[verifier::external_type_specification]
#[verifier::external_body]
pub struct ExDirected(Directed);

/// The node weights of a graph, by node index.
pub uninterp spec fn graph_nodes(g: Graph<String, (), Directed, u32>) -> Seq<Seq<char>>;

/// The links of a graph, in the order they were added, as (source, target) node indices.
pub uninterp spec fn graph_edges(g: Graph<String, (), Directed, u32>) -> Seq<(int, int)>;

/// Targets of the links from `u`, the most recently added first.
pub open spec fn out_list(edges: Seq<(int, int)>, u: int) -> Seq<int>
    decreases edges.len(),
{
    if edges.len() == 0 {
        Seq::empty()
    } else {
        let e = edges.last();
        let rest = out_list(edges.drop_last(), u);
        if e.0 == u {
            seq![e.1] + rest
        } else {
            rest
        }
    }
}

/// Sources of the links to `u`, the most recently added first.
pub open spec fn in_list(edges: Seq<(int, int)>, u: int) -> Seq<int>
    decreases edges.len(),
{
    if edges.len() == 0 {
        Seq::empty()
    } else {
        let e = edges.last();
        let rest = in_list(edges.drop_last(), u);
        if e.1 == u {
            seq![e.0] + rest
        } else {
            rest
        }
    }
}

/// `petgraph::graph::Graph::new`: a directed graph with no nodes and no links.
#[verifier::external_body]
pub(crate) fn graph_new() -> (g: Graph<String, (), Directed, u32>)
    ensures
        graph_nodes(g) == Seq::<Seq<char>>::empty(),
        graph_edges(g) == Seq::<(int, int)>::empty(),
{
    Graph::new()
}

/// `Graph::add_node`: appends a node with weight `id` and returns its index, the
/// old node count. It panics only when the count has reached `u32::MAX`.
#[verifier::external_body]
pub(crate) fn graph_add_node(g: &mut Graph<String, (), Directed, u32>, id: String) -> (r: usize)
    requires
        graph_nodes(*old(g)).len() < u32::MAX,
    ensures
        r == graph_nodes(*old(g)).len(),
        graph_nodes(*final(g)) == graph_nodes(*old(g)).push(id@),
        graph_edges(*final(g)) == graph_edges(*old(g)),
{
    g.add_node(id).index()
}

/// `Graph::add_edge`: appends a link from node `a` to node `b`. It panics when a
/// node does not exist or the link count has reached `u32::MAX`.
#[verifier::external_body]
pub(crate) fn graph_add_edge(g: &mut Graph<String, (), Directed, u32>, a: usize, b: usize)
    requires
        a < graph_nodes(*old(g)).len(),
        b < graph_nodes(*old(g)).len(),
        graph_edges(*old(g)).len() < u32::MAX,
    ensures
        graph_nodes(*final(g)) == graph_nodes(*old(g)),
        graph_edges(*final(g)) == graph_edges(*old(g)).push((a as int, b as int)),
{
    g.add_edge(NodeIndex::new(a), NodeIndex::new(b), ());
}

/// `Graph::node_count`: the number of nodes.
#[verifier::external_body]
pub(crate) fn graph_node_count(g: &Graph<String, (), Directed, u32>) -> (r: usize)
    ensures
        r == graph_nodes(*g).len(),
{
    g.node_count()
}

/// `Graph::edge_count`: the number of links.
#[verifier::external_body]
pub(crate) fn graph_edge_count(g: &Graph<String, (), Directed, u32>) -> (r: usize)
    ensures
        r == graph_edges(*g).len(),
{
    g.edge_count()
}

/// Indexing a graph by a node index: the weight of node `i`.
#[verifier::external_body]
pub(crate) fn graph_node<'a>(g: &'a Graph<String, (), Directed, u32>, i: usize) -> (r: &'a String)
    requires
        i < graph_nodes(*g).len(),
    ensures
        r@ == graph_nodes(*g)[i as int],
{
    &g[NodeIndex::new(i)]
}

/// `Graph::edge_endpoints`: the source and target of link `e`.
#[verifier::external_body]
pub(crate) fn graph_edge(g: &Graph<String, (), Directed, u32>, e: usize) -> (r: (usize, usize))
    requires
        e < graph_edges(*g).len(),
    ensures
        (r.0 as int, r.1 as int) == graph_edges(*g)[e as int],
{
    let (a, b) = g.edge_endpoints(EdgeIndex::new(e)).unwrap();
    (a.index(), b.index())
}

/// `Graph::neighbors_directed`: with `outgoing`, the targets of the links from
/// node `i`; otherwise the sources of the links to it; in both cases the most
/// recently added link first, one entry per link.
#[verifier::external_body]
pub(crate) fn graph_neighbors(g: &Graph<String, (), Directed, u32>, i: usize, outgoing: bool) -> (r:
    Vec<usize>)
    requires
        i < graph_nodes(*g).len(),
    ensures
        r@.map_values(|x: usize| x as int) == (if outgoing {
            out_list(graph_edges(*g), i as int)
        } else {
            in_list(graph_edges(*g), i as int)
        }),
{
    let dir = if outgoing { Direction::Outgoing } else { Direction::Incoming };
    g.neighbors_directed(NodeIndex::new(i), dir).map(|n| n.index()).collect()
}

} // verus!
