//! Graph queries over an indexed vault: neighbourhoods, paths, shared links and
//! subgraphs.
//!
//! A graph is modelled by its node ids (by node index, all distinct), its links
//! (pairs of node indices, in the order they were added) and the set of ids
//! that are stubs. Queries that ignore direction follow links both ways.

use vstd::prelude::*;
use vstd::relations::sorted_by;

use petgraph::graph::Graph;
use petgraph::Directed;

use crate::digraph::{
    graph_add_edge, graph_add_node, graph_edge, graph_edge_count, graph_edges, graph_neighbors,
    graph_new, graph_node, graph_node_count, graph_nodes, in_list, out_list,
};
use crate::error::Error;
use crate::front::views;
use crate::resolve::contains_string;
use crate::order::{
    le_of,
    lemma_sorted_sets_equal,
    keys, lemma_map_multiset, lemma_nat_order, lemma_pair_order, lemma_same_multiset,
    lemma_str_order, lemma_strs_order, nat_order, pair_order, sort_by_key, sorted_by_key, str_lt,
    str_order, strs_lt, strs_order, strs_view, SortKey,
};
use crate::text::str_eq;
use crate::types::{NeighborEntry, Subgraph, SubgraphEdge, SubgraphNode};

verus! {

// ---------------------------------------------------------------------------
// Adjacency
// ---------------------------------------------------------------------------

/// A link runs from `u` to `v`, or, when `directed` is false, from `v` to `u`.
pub open spec fn linked(links: Seq<(int, int)>, u: int, v: int, directed: bool) -> bool {
    exists|k: int|
        0 <= k < links.len() && (#[trigger] links[k] == (u, v) || (!directed && links[k] == (v, u)))
}

/// The neighbours of `u` in the order a search visits them: targets of links
/// from `u`, newest first, then (when `directed` is false) sources of links to
/// `u`, newest first. A node appears once per link.
pub open spec fn nbr_list(links: Seq<(int, int)>, u: int, directed: bool) -> Seq<int> {
    out_list(links, u) + if directed {
        Seq::<int>::empty()
    } else {
        in_list(links, u)
    }
}

proof fn lemma_out_list(links: Seq<(int, int)>, u: int, v: int)
    ensures
        out_list(links, u).contains(v) <==> exists|k: int|
            0 <= k < links.len() && #[trigger] links[k] == (u, v),
    decreases links.len(),
{
    if links.len() > 0 {
        let init = links.drop_last();
        lemma_out_list(init, u, v);
        let rest = out_list(init, u);
        let e = links.last();
        if out_list(links, u).contains(v) {
            if e.0 == u && e.1 == v {
                assert(links[links.len() - 1] == (u, v));
            } else {
                let j = choose|j: int| 0 <= j < out_list(links, u).len() && out_list(links, u)[j] == v;
                if e.0 == u {
                    assert(out_list(links, u) == seq![e.1] + rest);
                    assert(rest[j - 1] == v);
                } else {
                    assert(rest[j] == v);
                }
                let k = choose|k: int| 0 <= k < init.len() && #[trigger] init[k] == (u, v);
                assert(links[k] == (u, v));
            }
        } else {
            assert forall|k: int| 0 <= k < links.len() implies #[trigger] links[k] != (u, v) by {
                if k == links.len() - 1 {
                    if e.0 == u && e.1 == v {
                        assert(out_list(links, u)[0] == v);
                    }
                } else {
                    assert(init[k] == links[k]);
                    if links[k] == (u, v) {
                        assert(rest.contains(v));
                        let j = choose|j: int| 0 <= j < rest.len() && rest[j] == v;
                        if e.0 == u {
                            assert(out_list(links, u)[j + 1] == v);
                        } else {
                            assert(out_list(links, u)[j] == v);
                        }
                    }
                }
            }
        }
    }
}

proof fn lemma_in_list(links: Seq<(int, int)>, u: int, v: int)
    ensures
        in_list(links, u).contains(v) <==> exists|k: int|
            0 <= k < links.len() && #[trigger] links[k] == (v, u),
    decreases links.len(),
{
    if links.len() > 0 {
        let init = links.drop_last();
        lemma_in_list(init, u, v);
        let rest = in_list(init, u);
        let e = links.last();
        if in_list(links, u).contains(v) {
            if e.1 == u && e.0 == v {
                assert(links[links.len() - 1] == (v, u));
            } else {
                let j = choose|j: int| 0 <= j < in_list(links, u).len() && in_list(links, u)[j] == v;
                if e.1 == u {
                    assert(rest[j - 1] == v);
                } else {
                    assert(rest[j] == v);
                }
                let k = choose|k: int| 0 <= k < init.len() && #[trigger] init[k] == (v, u);
                assert(links[k] == (v, u));
            }
        } else {
            assert forall|k: int| 0 <= k < links.len() implies #[trigger] links[k] != (v, u) by {
                if k == links.len() - 1 {
                    if e.1 == u && e.0 == v {
                        assert(in_list(links, u)[0] == v);
                    }
                } else {
                    assert(init[k] == links[k]);
                    if links[k] == (v, u) {
                        assert(rest.contains(v));
                        let j = choose|j: int| 0 <= j < rest.len() && rest[j] == v;
                        if e.1 == u {
                            assert(in_list(links, u)[j + 1] == v);
                        } else {
                            assert(in_list(links, u)[j] == v);
                        }
                    }
                }
            }
        }
    }
}

/// A node is in the neighbour list of `u` exactly when it is linked to `u`.
pub proof fn lemma_nbr_list(links: Seq<(int, int)>, u: int, v: int, directed: bool)
    ensures
        nbr_list(links, u, directed).contains(v) <==> linked(links, u, v, directed),
{
    lemma_out_list(links, u, v);
    lemma_in_list(links, u, v);
    let o = out_list(links, u);
    let i = if directed {
        Seq::<int>::empty()
    } else {
        in_list(links, u)
    };
    let all = nbr_list(links, u, directed);
    if all.contains(v) {
        let j = choose|j: int| 0 <= j < all.len() && all[j] == v;
        if j < o.len() {
            assert(o[j] == v);
            let k = choose|k: int| 0 <= k < links.len() && #[trigger] links[k] == (u, v);
            assert(linked(links, u, v, directed));
        } else {
            assert(i[j - o.len()] == v);
            assert(!directed);
            let k = choose|k: int| 0 <= k < links.len() && #[trigger] links[k] == (v, u);
            assert(linked(links, u, v, directed));
        }
    }
    if linked(links, u, v, directed) {
        let k = choose|k: int|
            0 <= k < links.len() && (#[trigger] links[k] == (u, v) || (!directed && links[k] == (
                v,
                u,
            )));
        if links[k] == (u, v) {
            let j = choose|j: int| 0 <= j < o.len() && o[j] == v;
            assert(all[j] == v);
        } else {
            let j = choose|j: int| 0 <= j < i.len() && i[j] == v;
            assert(all[o.len() + j] == v);
        }
    }
}

// ---------------------------------------------------------------------------
// The graph
// ---------------------------------------------------------------------------

/// The link graph of a vault: one node per note or stub, one link per resolved
/// wiki link.
pub struct KnowledgeGraph {
    graph: Graph<String, (), Directed, u32>,
    stubs: Vec<String>,
}

/// Node ids of a list of (id, is stub) records, each id kept at its first occurrence.
pub open spec fn first_ids(nodes: Seq<(Seq<char>, bool)>) -> Seq<Seq<char>>
    decreases nodes.len(),
{
    if nodes.len() == 0 {
        Seq::empty()
    } else {
        let d = first_ids(nodes.drop_last());
        if d.contains(nodes.last().0) {
            d
        } else {
            d.push(nodes.last().0)
        }
    }
}

/// The ids that some record marks as a stub.
pub open spec fn stub_set(nodes: Seq<(Seq<char>, bool)>) -> Set<Seq<char>> {
    Set::new(|id: Seq<char>| exists|i: int| 0 <= i < nodes.len() && #[trigger] nodes[i] == (id, true))
}

/// The (source, target) records whose both ends are among `ids`, in order.
pub open spec fn kept_links(ids: Seq<Seq<char>>, links: Seq<(Seq<char>, Seq<char>)>) -> Seq<
    (Seq<char>, Seq<char>),
> {
    links.filter(|l: (Seq<char>, Seq<char>)| ids.contains(l.0) && ids.contains(l.1))
}

/// Node records as plain values.
pub open spec fn node_records(v: Seq<(String, bool)>) -> Seq<(Seq<char>, bool)> {
    v.map_values(|p: (String, bool)| (p.0@, p.1))
}

/// Link records as plain values.
pub open spec fn link_records(v: Seq<(String, String)>) -> Seq<(Seq<char>, Seq<char>)> {
    v.map_values(|p: (String, String)| (p.0@, p.1@))
}

/// The links of a graph written with node ids.
pub open spec fn link_ids(ids: Seq<Seq<char>>, links: Seq<(int, int)>) -> Seq<(Seq<char>, Seq<char>)> {
    links.map_values(|l: (int, int)| (ids[l.0], ids[l.1]))
}

/// Ids are distinct and every link joins existing nodes.
pub open spec fn graph_ok(ids: Seq<Seq<char>>, links: Seq<(int, int)>) -> bool {
    &&& ids.no_duplicates()
    &&& forall|k: int|
        0 <= k < links.len() ==> 0 <= (#[trigger] links[k]).0 < ids.len() && 0 <= links[k].1
            < ids.len()
}

/// Index of `id` among the nodes of `g`, if it is there.
fn index_in(g: &Graph<String, (), Directed, u32>, id: &str) -> (r: Option<usize>)
    requires
        graph_nodes(*g).no_duplicates(),
    ensures
        match r {
            Some(i) => i < graph_nodes(*g).len() && graph_nodes(*g)[i as int] == id@,
            None => !graph_nodes(*g).contains(id@),
        },
{
    let n = graph_node_count(g);
    let mut i: usize = 0;
    while i < n
        invariant
            n == graph_nodes(*g).len(),
            i <= n,
            forall|j: int| 0 <= j < i ==> graph_nodes(*g)[j] != id@,
        decreases n - i,
    {
        if str_eq(graph_node(g, i).as_str(), id) {
            return Some(i);
        }
        i = i + 1;
    }
    None
}

impl KnowledgeGraph {
    /// Node ids, by node index.
    pub closed spec fn ids(&self) -> Seq<Seq<char>> {
        graph_nodes(self.graph)
    }

    /// Links as pairs of node indices, in the order they were added.
    pub closed spec fn links(&self) -> Seq<(int, int)> {
        graph_edges(self.graph)
    }

    /// The ids of stub nodes.
    pub closed spec fn stub_ids(&self) -> Set<Seq<char>> {
        views(self.stubs@).to_set()
    }

    #[verifier::type_invariant]
    pub closed spec fn valid(&self) -> bool {
        graph_ok(self.ids(), self.links())
    }

    /// Builds the graph from node records (id, whether it is a stub) and link
    /// records (source id, target id). A record repeating an id adds no node; a
    /// link whose source or target is not a node is left out.
    pub fn from_parts(nodes: &Vec<(String, bool)>, links: &Vec<(String, String)>) -> (r: Self)
        requires
            nodes@.len() < u32::MAX,
            links@.len() < u32::MAX,
        ensures
            r.valid(),
            graph_ok(r.ids(), r.links()),
            r.ids() == first_ids(node_records(nodes@)),
            r.stub_ids() == stub_set(node_records(nodes@)),
            link_ids(r.ids(), r.links()) == kept_links(r.ids(), link_records(links@)),
    {
        let ghost recs = node_records(nodes@);
        let mut graph = graph_new();
        let mut stubs: Vec<String> = Vec::new();
        let mut i: usize = 0;
        while i < nodes.len()
            invariant
                i <= nodes@.len(),
                nodes@.len() < u32::MAX,
                recs == node_records(nodes@),
                graph_nodes(graph) == first_ids(recs.take(i as int)),
                graph_nodes(graph).no_duplicates(),
                graph_nodes(graph).len() <= i,
                graph_edges(graph) == Seq::<(int, int)>::empty(),
                views(stubs@).to_set() == stub_set(recs.take(i as int)),
            decreases nodes@.len() - i,
        {
            let ghost before = graph_nodes(graph);
            let ghost sv = stubs@;
            assert(recs.take(i + 1).drop_last() =~= recs.take(i as int));
            assert(recs.take(i + 1).last() == recs[i as int]);
            let id = &nodes[i].0;
            let is_stub = nodes[i].1;
            match index_in(&graph, id.as_str()) {
                Some(_) => {},
                None => {
                    graph_add_node(&mut graph, id.clone());
                    proof {
                        assert forall|a: int, b: int|
                            0 <= a < b < graph_nodes(graph).len() implies graph_nodes(graph)[a]
                            != graph_nodes(graph)[b] by {
                            if b == before.len() {
                                assert(before[a] == graph_nodes(graph)[a]);
                            }
                        }
                    }
                },
            }
            if is_stub {
                stubs.push(id.clone());
            }
            proof {
                let prev = stub_set(recs.take(i as int));
                let next = stub_set(recs.take(i + 1));
                let sm = views(stubs@);
                if is_stub {
                    assert(stubs@ == sv.push(nodes@[i as int].0));
                    assert(sm =~= views(sv).push(id@));
                    assert(next =~= prev.insert(id@)) by {
                        assert(recs.take(i + 1)[i as int] == (id@, true));
                        assert forall|x: Seq<char>| next.contains(x) implies prev.insert(x).contains(
                            x,
                        ) && (x == id@ || prev.contains(x)) by {
                            let j = choose|j: int|
                                0 <= j < i + 1 && #[trigger] recs.take(i + 1)[j] == (x, true);
                            if j < i {
                                assert(recs.take(i as int)[j] == (x, true));
                            }
                        }
                        assert forall|x: Seq<char>| prev.contains(x) implies next.contains(x) by {
                            let j = choose|j: int|
                                0 <= j < i && #[trigger] recs.take(i as int)[j] == (x, true);
                            assert(recs.take(i + 1)[j] == (x, true));
                        }
                    }
                    let svm = views(sv);
                    Seq::lemma_to_set_insert_commutes(svm, id@);
                    assert(sm =~= svm + seq![id@]);
                    assert(sm.to_set() =~= svm.to_set().insert(id@));
                } else {
                    assert(next =~= prev) by {
                        assert forall|x: Seq<char>| next.contains(x) implies prev.contains(x) by {
                            let j = choose|j: int|
                                0 <= j < i + 1 && #[trigger] recs.take(i + 1)[j] == (x, true);
                            assert(j < i);
                            assert(recs.take(i as int)[j] == (x, true));
                        }
                        assert forall|x: Seq<char>| prev.contains(x) implies next.contains(x) by {
                            let j = choose|j: int|
                                0 <= j < i && #[trigger] recs.take(i as int)[j] == (x, true);
                            assert(recs.take(i + 1)[j] == (x, true));
                        }
                    }
                    assert(sm =~= views(sv));
                }
            }
            i = i + 1;
        }
        assert(recs.take(nodes@.len() as int) =~= recs);
        let ghost ids = graph_nodes(graph);
        let ghost lrecs = link_records(links@);
        let ghost pred = |l: (Seq<char>, Seq<char>)| ids.contains(l.0) && ids.contains(l.1);
        let mut k: usize = 0;
        while k < links.len()
            invariant
                k <= links@.len(),
                links@.len() < u32::MAX,
                graph_nodes(graph) == ids,
                ids.no_duplicates(),
                lrecs == link_records(links@),
                pred == (|l: (Seq<char>, Seq<char>)| ids.contains(l.0) && ids.contains(l.1)),
                graph_edges(graph).len() <= k,
                graph_ok(ids, graph_edges(graph)),
                link_ids(ids, graph_edges(graph)) == lrecs.take(k as int).filter(pred),
            decreases links@.len() - k,
        {
            let ghost before = graph_edges(graph);
            assert(lrecs.take(k + 1).drop_last() =~= lrecs.take(k as int));
            assert(lrecs.take(k + 1).last() == lrecs[k as int]);
            let src = index_in(&graph, links[k].0.as_str());
            let tgt = index_in(&graph, links[k].1.as_str());
            match (src, tgt) {
                (Some(a), Some(b)) => {
                    graph_add_edge(&mut graph, a, b);
                    assert(link_ids(ids, graph_edges(graph)) =~= link_ids(ids, before).push(
                        (ids[a as int], ids[b as int]),
                    ));
                },
                _ => {},
            }
            proof {
                reveal(Seq::filter);
            }
            k = k + 1;
        }
        assert(lrecs.take(links@.len() as int) =~= lrecs);
        KnowledgeGraph { graph, stubs }
    }

    /// The number of nodes.
    pub fn node_count(&self) -> (r: usize)
        ensures
            graph_ok(self.ids(), self.links()),
            r == self.ids().len(),
    {
        proof {
            use_type_invariant(self);
        }
        graph_node_count(&self.graph)
    }

    /// The number of links.
    pub fn edge_count(&self) -> (r: usize)
        ensures
            graph_ok(self.ids(), self.links()),
            r == self.links().len(),
    {
        proof {
            use_type_invariant(self);
        }
        graph_edge_count(&self.graph)
    }

    /// The node index of `id`, or `NodeNotFound` naming it.
    fn resolve_node_index(&self, id: &str) -> (r: Result<usize, Error>)
        ensures
            match r {
                Ok(i) => i < self.ids().len() && self.ids()[i as int] == id@,
                Err(e) => !self.ids().contains(id@) && e == (Error::NodeNotFound { id: e->id })
                    && e->id@ == id@,
            },
    {
        proof {
            use_type_invariant(self);
        }
        match index_in(&self.graph, id) {
            Some(i) => Ok(i),
            None => Err(Error::NodeNotFound { id: id.to_string() }),
        }
    }
}

// ---------------------------------------------------------------------------
// Breadth-first layers
// ---------------------------------------------------------------------------

/// A list of node indices as integers.
pub open spec fn ints(v: Seq<usize>) -> Seq<int> {
    v.map_values(|x: usize| x as int)
}

/// Nodes joined by a link to some node of `w`.
pub open spec fn step(links: Seq<(int, int)>, w: Set<int>, directed: bool) -> Set<int> {
    Set::new(|v: int| exists|u: int| w.contains(u) && #[trigger] linked(links, u, v, directed))
}

/// Nodes at most `d` links away from `s`.
pub open spec fn within(links: Seq<(int, int)>, s: int, d: nat, directed: bool) -> Set<int>
    decreases d,
{
    if d == 0 {
        set![s]
    } else {
        let w = within(links, s, (d - 1) as nat, directed);
        w.union(step(links, w, directed))
    }
}

/// Nodes exactly `d` links away from `s`.
pub open spec fn layer(links: Seq<(int, int)>, s: int, d: nat, directed: bool) -> Set<int> {
    if d == 0 {
        set![s]
    } else {
        within(links, s, d, directed).difference(within(links, s, (d - 1) as nat, directed))
    }
}

/// What a neighbourhood query of depth `depth` reports: every node at distance
/// `d` from `s`, for `1 <= d <= depth`, as (d, its id).
pub open spec fn neighbor_entries(
    ids: Seq<Seq<char>>,
    links: Seq<(int, int)>,
    s: int,
    depth: nat,
    directed: bool,
) -> Set<(nat, Seq<char>)> {
    Set::new(
        |e: (nat, Seq<char>)|
            exists|v: int|
                0 <= v < ids.len() && 1 <= e.0 <= depth && #[trigger] layer(
                    links,
                    s,
                    e.0,
                    directed,
                ).contains(v) && e.1 == ids[v],
    )
}

/// The index of `id` among `ids`.
pub open spec fn position(ids: Seq<Seq<char>>, id: Seq<char>) -> int {
    choose|i: int| 0 <= i < ids.len() && ids[i] == id
}

proof fn lemma_position(ids: Seq<Seq<char>>, i: int)
    requires
        ids.no_duplicates(),
        0 <= i < ids.len(),
    ensures
        position(ids, ids[i]) == i,
{
    let p = position(ids, ids[i]);
    assert(0 <= p < ids.len() && ids[p] == ids[i]);
}

proof fn lemma_linked_in_range(ids: Seq<Seq<char>>, links: Seq<(int, int)>, u: int, v: int, directed: bool)
    requires
        graph_ok(ids, links),
        linked(links, u, v, directed),
    ensures
        0 <= v < ids.len(),
        0 <= u < ids.len(),
{
    let k = choose|k: int|
        0 <= k < links.len() && (#[trigger] links[k] == (u, v) || (!directed && links[k] == (v, u)));
    assert(0 <= links[k].0 < ids.len() && 0 <= links[k].1 < ids.len());
}

proof fn lemma_within_grows(links: Seq<(int, int)>, s: int, d: nat, k: nat, directed: bool)
    requires
        d <= k,
    ensures
        within(links, s, d, directed).subset_of(within(links, s, k, directed)),
    decreases k,
{
    if d < k {
        lemma_within_grows(links, s, d, (k - 1) as nat, directed);
    }
}

proof fn lemma_within_next(links: Seq<(int, int)>, s: int, d: nat, directed: bool)
    ensures
        within(links, s, d + 1, directed) == within(links, s, d, directed).union(
            step(links, layer(links, s, d, directed), directed),
        ),
{
    let w = within(links, s, d, directed);
    let l = layer(links, s, d, directed);
    let lhs = within(links, s, d + 1, directed);
    let rhs = w.union(step(links, l, directed));
    assert forall|v: int| lhs.contains(v) implies rhs.contains(v) by {
        if !w.contains(v) {
            let u = choose|u: int| w.contains(u) && #[trigger] linked(links, u, v, directed);
            if d > 0 {
                let p = within(links, s, (d - 1) as nat, directed);
                if p.contains(u) {
                    assert(step(links, p, directed).contains(v));
                    assert(w.contains(v));
                }
            }
            assert(l.contains(u));
            assert(step(links, l, directed).contains(v));
        }
    }
    assert forall|v: int| rhs.contains(v) implies lhs.contains(v) by {
        if !w.contains(v) {
            let u = choose|u: int| l.contains(u) && #[trigger] linked(links, u, v, directed);
            assert(w.contains(u));
            assert(step(links, w, directed).contains(v));
        }
    }
    assert(lhs =~= rhs);
}

proof fn lemma_within_stable(links: Seq<(int, int)>, s: int, d: nat, k: nat, directed: bool)
    requires
        1 <= d <= k,
        within(links, s, d, directed) == within(links, s, (d - 1) as nat, directed),
    ensures
        within(links, s, k, directed) == within(links, s, d, directed),
    decreases k,
{
    if d < k {
        lemma_within_stable(links, s, d, (k - 1) as nat, directed);
    }
}

proof fn lemma_entries_next(
    ids: Seq<Seq<char>>,
    links: Seq<(int, int)>,
    s: int,
    d: nat,
    directed: bool,
)
    ensures
        neighbor_entries(ids, links, s, d + 1, directed) == neighbor_entries(
            ids,
            links,
            s,
            d,
            directed,
        ).union(
            Set::new(
                |e: (nat, Seq<char>)|
                    exists|v: int|
                        0 <= v < ids.len() && e.0 == d + 1 && #[trigger] layer(
                            links,
                            s,
                            d + 1,
                            directed,
                        ).contains(v) && e.1 == ids[v],
            ),
        ),
{
    let lhs = neighbor_entries(ids, links, s, d + 1, directed);
    let rhs = neighbor_entries(ids, links, s, d, directed).union(
        Set::new(
            |e: (nat, Seq<char>)|
                exists|v: int|
                    0 <= v < ids.len() && e.0 == d + 1 && #[trigger] layer(
                        links,
                        s,
                        d + 1,
                        directed,
                    ).contains(v) && e.1 == ids[v],
        ),
    );
    assert forall|e: (nat, Seq<char>)| lhs.contains(e) implies rhs.contains(e) by {
        let v = choose|v: int|
            0 <= v < ids.len() && 1 <= e.0 <= d + 1 && #[trigger] layer(links, s, e.0, directed).contains(
                v,
            ) && e.1 == ids[v];
        if e.0 <= d {
            assert(neighbor_entries(ids, links, s, d, directed).contains(e));
        }
    }
    assert(lhs =~= rhs);
}

proof fn lemma_entries_stable(
    ids: Seq<Seq<char>>,
    links: Seq<(int, int)>,
    s: int,
    d: nat,
    depth: nat,
    directed: bool,
)
    requires
        1 <= d <= depth,
        within(links, s, d, directed) == within(links, s, (d - 1) as nat, directed),
    ensures
        neighbor_entries(ids, links, s, depth, directed) == neighbor_entries(
            ids,
            links,
            s,
            (d - 1) as nat,
            directed,
        ),
{
    let lhs = neighbor_entries(ids, links, s, depth, directed);
    let rhs = neighbor_entries(ids, links, s, (d - 1) as nat, directed);
    assert forall|e: (nat, Seq<char>)| lhs.contains(e) implies rhs.contains(e) by {
        let v = choose|v: int|
            0 <= v < ids.len() && 1 <= e.0 <= depth && #[trigger] layer(links, s, e.0, directed).contains(
                v,
            ) && e.1 == ids[v];
        if e.0 >= d {
            lemma_within_stable(links, s, d, e.0, directed);
            if e.0 > d {
                lemma_within_stable(links, s, d, (e.0 - 1) as nat, directed);
            }
            assert(false);
        }
    }
    assert(lhs =~= rhs);
}

/// Marks each unvisited node of `ws` as visited and appends it to `next`.
fn mark_all(ws: &Vec<usize>, visited: &mut Vec<bool>, next: &mut Vec<usize>)
    requires
        forall|k: int| 0 <= k < ws@.len() ==> ws@[k] < old(visited)@.len(),
        forall|k: int| 0 <= k < old(next)@.len() ==> #[trigger] old(next)@[k] < old(visited)@.len(),
        forall|k: int| 0 <= k < old(next)@.len() ==> old(visited)@[#[trigger] old(next)@[k] as int],
        old(next)@.no_duplicates(),
    ensures
        final(visited)@.len() == old(visited)@.len(),
        forall|v: int|
            0 <= v < old(visited)@.len() ==> (#[trigger] final(visited)@[v] <==> (old(visited)@[v]
                || ints(ws@).contains(v))),
        forall|v: int|
            #[trigger] ints(final(next)@).contains(v) <==> (ints(old(next)@).contains(v) || (0 <= v
                < old(visited)@.len() && !old(visited)@[v] && ints(ws@).contains(v))),
        forall|k: int| 0 <= k < final(next)@.len() ==> #[trigger] final(next)@[k] < old(visited)@.len(),
        forall|k: int|
            0 <= k < final(next)@.len() ==> final(visited)@[#[trigger] final(next)@[k] as int],
        final(next)@.no_duplicates(),
{
    let ghost vis0 = visited@;
    let ghost next0 = next@;
    let n = visited.len();
    let mut j: usize = 0;
    while j < ws.len()
        invariant
            n == vis0.len(),
            visited@.len() == n,
            j <= ws@.len(),
            forall|k: int| 0 <= k < ws@.len() ==> ws@[k] < n,
            forall|v: int|
                0 <= v < n ==> (#[trigger] visited@[v] <==> (vis0[v] || ints(ws@.take(j as int)).contains(v))),
            forall|v: int|
                #[trigger] ints(next@).contains(v) <==> (ints(next0).contains(v) || (0 <= v < n
                    && !vis0[v] && ints(ws@.take(j as int)).contains(v))),
            forall|k: int| 0 <= k < next@.len() ==> #[trigger] next@[k] < n,
            forall|k: int| 0 <= k < next@.len() ==> visited@[#[trigger] next@[k] as int],
            next@.no_duplicates(),
        decreases ws@.len() - j,
    {
        let w = ws[j];
        let ghost before = ints(ws@.take(j as int));
        assert(ints(ws@.take(j + 1)) =~= before.push(w as int));
        assert forall|v: int| #[trigger] ints(ws@.take(j + 1)).contains(v) <==> (before.contains(v) || v == w as int) by {
            vstd::seq_lib::lemma_seq_contains_after_push(before, w as int, v);
        }
        if !visited[w] {
            let ghost nb = next@;
            visited.set(w, true);
            next.push(w);
            proof {
                assert(ints(next@) =~= ints(nb).push(w as int));
                assert forall|v: int| #[trigger] ints(next@).contains(v) <==> (ints(nb).contains(v) || v == w as int) by {
                    vstd::seq_lib::lemma_seq_contains_after_push(ints(nb), w as int, v);
                }
                assert forall|a: int, b: int| 0 <= a < b < next@.len() implies next@[a] != next@[b] by {
                    if b == nb.len() {
                        assert(visited@[nb[a] as int]);
                    }
                }
                assert forall|k: int| 0 <= k < next@.len() implies visited@[#[trigger] next@[k] as int] by {
                    if k < nb.len() {
                        assert(next@[k] == nb[k]);
                    }
                }
            }
        }
        j = j + 1;
    }
    assert(ws@.take(ws@.len() as int) =~= ws@);
}

impl KnowledgeGraph {
    /// Visits the unvisited neighbours of the nodes of `frontier` and returns them.
    fn expand(&self, frontier: &Vec<usize>, directed: bool, visited: &mut Vec<bool>) -> (next: Vec<
        usize,
    >)
        requires
            old(visited)@.len() == self.ids().len(),
            forall|k: int| 0 <= k < frontier@.len() ==> frontier@[k] < self.ids().len(),
        ensures
            final(visited)@.len() == self.ids().len(),
            forall|v: int|
                0 <= v < self.ids().len() ==> (#[trigger] final(visited)@[v] <==> (old(visited)@[v]
                    || step(self.links(), ints(frontier@).to_set(), directed).contains(v))),
            forall|v: int|
                #[trigger] ints(next@).contains(v) <==> (0 <= v < self.ids().len()
                    && !old(visited)@[v] && step(self.links(), ints(frontier@).to_set(), directed).contains(v)),
            forall|k: int| 0 <= k < next@.len() ==> #[trigger] next@[k] < self.ids().len(),
            next@.no_duplicates(),
    {
        proof {
            use_type_invariant(self);
        }
        let ghost ids = self.ids();
        let ghost links = self.links();
        let ghost vis0 = visited@;
        let mut next: Vec<usize> = Vec::new();
        let mut i: usize = 0;
        while i < frontier.len()
            invariant
                graph_ok(ids, links),
                ids == self.ids(),
                links == self.links(),
                vis0.len() == ids.len(),
                visited@.len() == ids.len(),
                i <= frontier@.len(),
                forall|k: int| 0 <= k < frontier@.len() ==> frontier@[k] < ids.len(),
                forall|v: int|
                    0 <= v < ids.len() ==> (#[trigger] visited@[v] <==> (vis0[v] || step(
                        links,
                        ints(frontier@.take(i as int)).to_set(),
                        directed,
                    ).contains(v))),
                forall|v: int|
                    #[trigger] ints(next@).contains(v) <==> (0 <= v < ids.len() && !vis0[v] && step(
                        links,
                        ints(frontier@.take(i as int)).to_set(),
                        directed,
                    ).contains(v)),
                forall|k: int| 0 <= k < next@.len() ==> #[trigger] next@[k] < ids.len(),
                forall|k: int| 0 <= k < next@.len() ==> visited@[#[trigger] next@[k] as int],
                next@.no_duplicates(),
            decreases frontier@.len() - i,
        {
            let u = frontier[i];
            let ghost vis1 = visited@;
            let ghost next1 = next@;
            let outs = graph_neighbors(&self.graph, u, true);
            proof {
                assert forall|k: int| 0 <= k < outs@.len() implies outs@[k] < ids.len() by {
                    assert(ints(outs@)[k] == out_list(links, u as int)[k]);
                    assert(out_list(links, u as int).contains(outs@[k] as int));
                    lemma_out_list(links, u as int, outs@[k] as int);
                    let e = choose|e: int| 0 <= e < links.len() && #[trigger] links[e] == (u as int, outs@[k] as int);
                    assert(0 <= links[e].1 < ids.len());
                }
            }
            mark_all(&outs, visited, &mut next);
            let ghost vis2 = visited@;
            let ghost next2 = next@;
            let ghost ins_seq: Seq<int> = Seq::empty();
            if !directed {
                let ins = graph_neighbors(&self.graph, u, false);
                proof {
                    ins_seq = ints(ins@);
                    assert forall|k: int| 0 <= k < ins@.len() implies ins@[k] < ids.len() by {
                        assert(ints(ins@)[k] == in_list(links, u as int)[k]);
                        assert(in_list(links, u as int).contains(ins@[k] as int));
                        lemma_in_list(links, u as int, ins@[k] as int);
                        let e = choose|e: int| 0 <= e < links.len() && #[trigger] links[e] == (ins@[k] as int, u as int);
                        assert(0 <= links[e].0 < ids.len());
                    }
                }
                mark_all(&ins, visited, &mut next);
            }
            proof {
                let fs = ints(frontier@.take(i as int)).to_set();
                let fs2 = ints(frontier@.take(i + 1)).to_set();
                assert(ints(frontier@.take(i + 1)) =~= ints(frontier@.take(i as int)) + seq![u as int]);
                Seq::lemma_to_set_insert_commutes(ints(frontier@.take(i as int)), u as int);
                assert(fs2 =~= fs.insert(u as int));
                let nl = nbr_list(links, u as int, directed);
                assert(nl =~= ints(outs@) + ins_seq);
                assert forall|v: int| #[trigger] step(links, fs2, directed).contains(v) <==> (step(links, fs, directed).contains(v) || nl.contains(v)) by {
                    lemma_nbr_list(links, u as int, v, directed);
                    if step(links, fs2, directed).contains(v) {
                        let w = choose|w: int| fs2.contains(w) && #[trigger] linked(links, w, v, directed);
                        if w != u as int {
                            assert(step(links, fs, directed).contains(v));
                        }
                    }
                    if step(links, fs, directed).contains(v) {
                        let w = choose|w: int| fs.contains(w) && #[trigger] linked(links, w, v, directed);
                        assert(fs2.contains(w));
                    }
                    if nl.contains(v) {
                        assert(fs2.contains(u as int));
                    }
                }
                assert forall|v: int| nl.contains(v) <==> (ints(outs@).contains(v) || ins_seq.contains(v)) by {
                    if nl.contains(v) {
                        let j = choose|j: int| 0 <= j < nl.len() && nl[j] == v;
                        if j < ints(outs@).len() {
                            assert(ints(outs@)[j] == v);
                        } else {
                            assert(ins_seq[j - ints(outs@).len()] == v);
                        }
                    }
                    if ints(outs@).contains(v) {
                        let j = choose|j: int| 0 <= j < ints(outs@).len() && ints(outs@)[j] == v;
                        assert(nl[j] == v);
                    }
                    if ins_seq.contains(v) {
                        let j = choose|j: int| 0 <= j < ins_seq.len() && ins_seq[j] == v;
                        assert(nl[ints(outs@).len() + j] == v);
                    }
                }
                if directed {
                    assert(visited@ == vis2);
                    assert(next@ == next2);
                }
            }
            i = i + 1;
        }
        assert(frontier@.take(frontier@.len() as int) =~= frontier@);
        next
    }
}

/// Appending `x` adds it to the set of elements, and keeps a list without
/// duplicates so when `x` was not there.
proof fn lemma_push<A>(s: Seq<A>, x: A)
    ensures
        s.push(x).to_set() == s.to_set().insert(x),
        s.no_duplicates() && !s.contains(x) ==> s.push(x).no_duplicates(),
{
    assert(s.push(x) =~= s + seq![x]);
    Seq::lemma_to_set_insert_commutes(s, x);
    if s.no_duplicates() && !s.contains(x) {
        assert forall|a: int, b: int| 0 <= a < b < s.push(x).len() implies s.push(x)[a] != s.push(
            x,
        )[b] by {
            if b == s.len() {
                assert(s.contains(s[a]));
            }
        }
    }
}

impl SortKey for NeighborEntry {
    type K = (nat, Seq<char>);

    open spec fn key(&self) -> (nat, Seq<char>) {
        self@
    }

    open spec fn key_lt() -> spec_fn((nat, Seq<char>), (nat, Seq<char>)) -> bool {
        pair_order(nat_order(), str_order())
    }

    proof fn lemma_key_order() {
        lemma_nat_order();
        lemma_str_order();
        lemma_pair_order(nat_order(), str_order());
    }

    fn key_less(&self, other: &Self) -> (r: bool) {
        self.depth < other.depth || (self.depth == other.depth && str_lt(
            self.id.as_str(),
            other.id.as_str(),
        ))
    }
}

/// `n` unvisited flags.
fn unvisited(n: usize) -> (r: Vec<bool>)
    ensures
        r@.len() == n,
        forall|j: int| 0 <= j < n ==> !r@[j],
{
    let mut r: Vec<bool> = Vec::new();
    let mut k: usize = 0;
    while k < n
        invariant
            r@.len() == k,
            k <= n,
            forall|j: int| 0 <= j < k ==> !r@[j],
        decreases n - k,
    {
        r.push(false);
        k = k + 1;
    }
    r
}

impl KnowledgeGraph {
    /// The nodes within `depth` links of `id`, each with its distance, ordered by
    /// distance and then by id. The start node itself is not reported; with
    /// `directed` only links from a node to another are followed.
    pub fn neighbors(&self, id: &str, depth: usize, directed: bool) -> (r: Result<
        Vec<NeighborEntry>,
        Error,
    >)
        ensures
            graph_ok(self.ids(), self.links()),
            match r {
                Ok(v) => {
                    &&& self.ids().contains(id@)
                    &&& sorted_by_key(v@)
                    &&& keys(v@).no_duplicates()
                    &&& keys(v@).to_set() == neighbor_entries(
                        self.ids(),
                        self.links(),
                        position(self.ids(), id@),
                        depth as nat,
                        directed,
                    )
                },
                Err(e) => !self.ids().contains(id@) && e == (Error::NodeNotFound { id: e->id })
                    && e->id@ == id@,
            },
    {
        proof {
            use_type_invariant(self);
        }
        let s = match self.resolve_node_index(id) {
            Ok(i) => i,
            Err(e) => {
                return Err(e);
            },
        };
        let ghost ids = self.ids();
        let ghost links = self.links();
        proof {
            lemma_position(ids, s as int);
        }
        let n = graph_node_count(&self.graph);
        let mut visited = unvisited(n);
        visited.set(s, true);
        let mut frontier: Vec<usize> = Vec::new();
        frontier.push(s);
        let mut result: Vec<NeighborEntry> = Vec::new();
        let mut d: usize = 0;
        proof {
            assert(ints(frontier@) =~= seq![s as int]);
            assert forall|v: int| #[trigger] ints(frontier@).contains(v) <==> layer(links, s as int, 0, directed).contains(v) by {
                if ints(frontier@).contains(v) {
                    let t = choose|t: int| 0 <= t < ints(frontier@).len() && ints(frontier@)[t] == v;
                }
                if v == s as int {
                    assert(ints(frontier@)[0] == v);
                }
            }
            assert(keys(result@) =~= Seq::<(nat, Seq<char>)>::empty());
            assert(neighbor_entries(ids, links, s as int, 0, directed) =~= Set::empty());
            assert(keys(result@).to_set() =~= Set::empty());
        }
        while d < depth && frontier.len() > 0
            invariant
                graph_ok(ids, links),
                ids == self.ids(),
                links == self.links(),
                n == ids.len(),
                s < n,
                d <= depth,
                visited@.len() == n,
                forall|v: int|
                    0 <= v < n ==> (#[trigger] visited@[v] <==> within(links, s as int, d as nat, directed).contains(v)),
                forall|v: int|
                    #[trigger] ints(frontier@).contains(v) <==> layer(links, s as int, d as nat, directed).contains(v),
                forall|k: int| 0 <= k < frontier@.len() ==> #[trigger] frontier@[k] < n,
                d == 0 ==> frontier@.len() > 0,
                keys(result@).no_duplicates(),
                keys(result@).to_set() == neighbor_entries(ids, links, s as int, d as nat, directed),
            decreases depth - d,
        {
            let ghost vis0 = visited@;
            let next = self.expand(&frontier, directed, &mut visited);
            let ghost lay = layer(links, s as int, d as nat, directed);
            let ghost lay1 = layer(links, s as int, (d + 1) as nat, directed);
            proof {
                lemma_within_next(links, s as int, d as nat, directed);
                lemma_within_grows(links, s as int, d as nat, (d + 1) as nat, directed);
                assert(ints(frontier@).to_set() =~= lay);
                assert forall|v: int| #[trigger] ints(next@).contains(v) <==> lay1.contains(v) by {
                    if step(links, lay, directed).contains(v) {
                        let u = choose|u: int| lay.contains(u) && #[trigger] linked(links, u, v, directed);
                        lemma_linked_in_range(ids, links, u, v, directed);
                    }
                }
            }
            let ghost r0 = keys(result@);
            assert forall|e: (nat, Seq<char>)| #[trigger] r0.contains(e) implies e.0 <= d by {
                assert(r0.to_set().contains(e));
            }
            let ghost added = Set::new(
                |e: (nat, Seq<char>)|
                    exists|v: int|
                        0 <= v < ids.len() && e.0 == d + 1 && #[trigger] lay1.contains(v) && e.1 == ids[v],
            );
            let mut j: usize = 0;
            while j < next.len()
                invariant
                    graph_ok(ids, links),
                    ids == self.ids(),
                    n == ids.len(),
                    d < depth,
                    j <= next@.len(),
                    forall|k: int| 0 <= k < next@.len() ==> #[trigger] next@[k] < n,
                    next@.no_duplicates(),
                    forall|e: (nat, Seq<char>)| #[trigger] r0.contains(e) ==> e.0 <= d,
                    keys(result@).no_duplicates(),
                    keys(result@).to_set() == r0.to_set().union(
                        Set::new(
                            |e: (nat, Seq<char>)|
                                exists|t: int| 0 <= t < j && e == ((d + 1) as nat, ids[#[trigger] next@[t] as int]),
                        ),
                    ),
                decreases next@.len() - j,
            {
                let w = next[j];
                let ghost before = keys(result@);
                let entry = NeighborEntry { id: graph_node(&self.graph, w).clone(), depth: d + 1 };
                result.push(entry);
                proof {
                    let x = ((d + 1) as nat, ids[w as int]);
                    assert(keys(result@) =~= before.push(x));
                    let sj = Set::new(
                        |e: (nat, Seq<char>)|
                            exists|t: int| 0 <= t < j && e == ((d + 1) as nat, ids[#[trigger] next@[t] as int]),
                    );
                    let sj1 = Set::new(
                        |e: (nat, Seq<char>)|
                            exists|t: int| 0 <= t < j + 1 && e == ((d + 1) as nat, ids[#[trigger] next@[t] as int]),
                    );
                    assert(sj1 =~= sj.insert(x)) by {
                        assert(next@[j as int] == w);
                    }
                    if before.contains(x) {
                        assert(before.to_set().contains(x));
                        if !r0.to_set().contains(x) {
                            let t = choose|t: int| 0 <= t < j && x == ((d + 1) as nat, ids[#[trigger] next@[t] as int]);
                            assert(ids[next@[t] as int] == ids[w as int]);
                            assert(next@[t] != next@[j as int]);
                        } else {
                            assert(r0.contains(x));
                        }
                    }
                    lemma_push(before, x);
                }
                j = j + 1;
            }
            proof {
                let sj = Set::new(
                    |e: (nat, Seq<char>)|
                        exists|t: int| 0 <= t < next@.len() && e == ((d + 1) as nat, ids[#[trigger] next@[t] as int]),
                );
                assert(sj =~= added) by {
                    assert forall|e: (nat, Seq<char>)| sj.contains(e) implies added.contains(e) by {
                        let t = choose|t: int| 0 <= t < next@.len() && e == ((d + 1) as nat, ids[#[trigger] next@[t] as int]);
                        assert(ints(next@)[t] == next@[t] as int);
                        assert(ints(next@).contains(next@[t] as int));
                        assert(lay1.contains(next@[t] as int));
                    }
                    assert forall|e: (nat, Seq<char>)| added.contains(e) implies sj.contains(e) by {
                        let v = choose|v: int|
                            0 <= v < ids.len() && e.0 == d + 1 && #[trigger] lay1.contains(v) && e.1 == ids[v];
                        assert(ints(next@).contains(v));
                        let t = choose|t: int| 0 <= t < ints(next@).len() && ints(next@)[t] == v;
                        assert(next@[t] as int == v);
                    }
                }
                lemma_entries_next(ids, links, s as int, d as nat, directed);
                assert(r0.to_set() == neighbor_entries(ids, links, s as int, d as nat, directed));
            }
            frontier = next;
            d = d + 1;
        }
        proof {
            if d < depth {
                assert(frontier@.len() == 0);
                assert(d >= 1);
                let w = within(links, s as int, d as nat, directed);
                let p = within(links, s as int, (d - 1) as nat, directed);
                lemma_within_grows(links, s as int, (d - 1) as nat, d as nat, directed);
                assert(w =~= p) by {
                    assert forall|v: int| w.contains(v) implies p.contains(v) by {
                        if !p.contains(v) {
                            assert(layer(links, s as int, d as nat, directed).contains(v));
                            assert(ints(frontier@).contains(v));
                        }
                    }
                }
                lemma_entries_stable(ids, links, s as int, d as nat, depth as nat, directed);
                lemma_entries_stable(ids, links, s as int, d as nat, d as nat, directed);
            }
        }
        let ghost unsorted = result@;
        sort_by_key(&mut result);
        proof {
            lemma_map_multiset(result@, unsorted);
            lemma_same_multiset(keys(result@), keys(unsorted));
        }
        Ok(result)
    }
}

// ---------------------------------------------------------------------------
// Shared neighbours
// ---------------------------------------------------------------------------

/// Ids of the nodes other than `a` and `b` that are linked to both.
pub open spec fn shared_ids(
    ids: Seq<Seq<char>>,
    links: Seq<(int, int)>,
    a: int,
    b: int,
    directed: bool,
) -> Set<Seq<char>> {
    Set::new(
        |x: Seq<char>|
            exists|v: int|
                0 <= v < ids.len() && v != a && v != b && #[trigger] linked(links, a, v, directed)
                    && linked(links, b, v, directed) && x == ids[v],
    )
}

/// The id that a two-node query reports as missing: the first of `a` and `b` that is not a node.
pub open spec fn missing_of_two(ids: Seq<Seq<char>>, a: Seq<char>, b: Seq<char>) -> Seq<char> {
    if !ids.contains(a) {
        a
    } else {
        b
    }
}

impl KnowledgeGraph {
    /// Flags of the nodes linked to node `a`.
    fn linked_flags(&self, a: usize, directed: bool) -> (r: Vec<bool>)
        requires
            a < self.ids().len(),
        ensures
            r@.len() == self.ids().len(),
            forall|v: int|
                0 <= v < self.ids().len() ==> (#[trigger] r@[v] <==> linked(self.links(), a as int, v, directed)),
    {
        let n = graph_node_count(&self.graph);
        let mut flags = unvisited(n);
        let mut start: Vec<usize> = Vec::new();
        start.push(a);
        let _ = self.expand(&start, directed, &mut flags);
        proof {
            assert(ints(start@) =~= seq![a as int]);
            assert(ints(start@).to_set() =~= set![a as int]) by {
                assert(ints(start@)[0] == a as int);
            }
            assert forall|v: int| 0 <= v < self.ids().len() implies (#[trigger] flags@[v] <==> linked(self.links(), a as int, v, directed)) by {
                if linked(self.links(), a as int, v, directed) {
                    assert(set![a as int].contains(a as int));
                }
            }
        }
        flags
    }

    /// The nodes other than `a` and `b` linked to both of them, ordered by id.
    /// With `directed`, only links from `a` and from `b` count.
    pub fn shared(&self, a: &str, b: &str, directed: bool) -> (r: Result<Vec<String>, Error>)
        ensures
            graph_ok(self.ids(), self.links()),
            match r {
                Ok(v) => {
                    &&& self.ids().contains(a@)
                    &&& self.ids().contains(b@)
                    &&& sorted_by_key(v@)
                    &&& views(v@).no_duplicates()
                    &&& views(v@).to_set() == shared_ids(
                        self.ids(),
                        self.links(),
                        position(self.ids(), a@),
                        position(self.ids(), b@),
                        directed,
                    )
                },
                Err(e) => {
                    &&& !(self.ids().contains(a@) && self.ids().contains(b@))
                    &&& e == (Error::NodeNotFound { id: e->id })
                    &&& e->id@ == missing_of_two(self.ids(), a@, b@)
                },
            },
    {
        proof {
            use_type_invariant(self);
        }
        let ai = match self.resolve_node_index(a) {
            Ok(i) => i,
            Err(e) => {
                return Err(e);
            },
        };
        let bi = match self.resolve_node_index(b) {
            Ok(i) => i,
            Err(e) => {
                return Err(e);
            },
        };
        let ghost ids = self.ids();
        let ghost links = self.links();
        proof {
            lemma_position(ids, ai as int);
            lemma_position(ids, bi as int);
        }
        let fa = self.linked_flags(ai, directed);
        let fb = self.linked_flags(bi, directed);
        let n = graph_node_count(&self.graph);
        let mut common: Vec<String> = Vec::new();
        let mut v: usize = 0;
        while v < n
            invariant
                graph_ok(ids, links),
                ids == self.ids(),
                links == self.links(),
                n == ids.len(),
                ai < n,
                bi < n,
                v <= n,
                fa@.len() == n,
                fb@.len() == n,
                forall|u: int| 0 <= u < n ==> (#[trigger] fa@[u] <==> linked(links, ai as int, u, directed)),
                forall|u: int| 0 <= u < n ==> (#[trigger] fb@[u] <==> linked(links, bi as int, u, directed)),
                views(common@).no_duplicates(),
                forall|x: Seq<char>|
                    #[trigger] views(common@).contains(x) <==> exists|u: int|
                        0 <= u < v && u != ai && u != bi && #[trigger] linked(links, ai as int, u, directed)
                            && linked(links, bi as int, u, directed) && x == ids[u],
            decreases n - v,
        {
            if fa[v] && fb[v] && v != ai && v != bi {
                let ghost before = views(common@);
                common.push(graph_node(&self.graph, v).clone());
                proof {
                    assert(views(common@) =~= before.push(ids[v as int]));
                    if before.contains(ids[v as int]) {
                        let u = choose|u: int|
                            0 <= u < v && u != ai && u != bi && #[trigger] linked(links, ai as int, u, directed)
                                && linked(links, bi as int, u, directed) && ids[v as int] == ids[u];
                        assert(ids[u] != ids[v as int]);
                    }
                    lemma_push(before, ids[v as int]);
                    assert forall|x: Seq<char>| #[trigger] views(common@).contains(x) <==> (before.contains(x) || x == ids[v as int]) by {
                        vstd::seq_lib::lemma_seq_contains_after_push(before, ids[v as int], x);
                    }
                }
            }
            v = v + 1;
        }
        let ghost unsorted = common@;
        sort_by_key(&mut common);
        proof {
            lemma_map_multiset(common@, unsorted);
            assert(keys(common@) =~= views(common@));
            assert(keys(unsorted) =~= views(unsorted));
            lemma_same_multiset(views(common@), views(unsorted));
            let want = shared_ids(ids, links, ai as int, bi as int, directed);
            assert(views(unsorted).to_set() =~= want) by {
                assert forall|x: Seq<char>| views(unsorted).to_set().contains(x) implies want.contains(x) by {
                    assert(views(unsorted).contains(x));
                }
            }
        }
        Ok(common)
    }
}

// ---------------------------------------------------------------------------
// Subgraphs
// ---------------------------------------------------------------------------

/// The nodes of a subgraph: every node at most `depth` links away from some
/// seed, distances measured in the whole graph.
pub open spec fn reached(links: Seq<(int, int)>, seeds: Seq<int>, depth: nat, directed: bool) -> Set<
    int,
> {
    Set::new(
        |v: int|
            exists|i: int|
                0 <= i < seeds.len() && #[trigger] within(links, seeds[i], depth, directed).contains(v),
    )
}

/// The links among the nodes of `keep`, in order, written with node ids.
pub open spec fn induced(ids: Seq<Seq<char>>, links: Seq<(int, int)>, keep: Set<int>) -> Seq<
    (Seq<char>, Seq<char>),
> {
    link_ids(ids, links.filter(|l: (int, int)| keep.contains(l.0) && keep.contains(l.1)))
}

/// The seeds as plain strings.
pub open spec fn seed_views(seeds: Seq<&str>) -> Seq<Seq<char>> {
    seeds.map_values(|s: &str| s@)
}

/// Seed `i` is the first seed that is not a node.
pub open spec fn first_missing(ids: Seq<Seq<char>>, seeds: Seq<Seq<char>>, i: int) -> bool {
    &&& 0 <= i < seeds.len()
    &&& !ids.contains(seeds[i])
    &&& forall|j: int| 0 <= j < i ==> ids.contains(#[trigger] seeds[j])
}

/// The node records of a subgraph as plain values.
pub open spec fn node_views(v: Seq<SubgraphNode>) -> Seq<(Seq<char>, bool)> {
    v.map_values(|n: SubgraphNode| n@)
}

/// The link records of a subgraph as plain values.
pub open spec fn edge_views(v: Seq<SubgraphEdge>) -> Seq<(Seq<char>, Seq<char>)> {
    v.map_values(|e: SubgraphEdge| e@)
}

/// Every node within some distance of an existing node is an existing node.
proof fn lemma_within_in_range(
    ids: Seq<Seq<char>>,
    links: Seq<(int, int)>,
    s: int,
    d: nat,
    directed: bool,
)
    requires
        graph_ok(ids, links),
        0 <= s < ids.len(),
    ensures
        forall|v: int| #[trigger] within(links, s, d, directed).contains(v) ==> 0 <= v < ids.len(),
    decreases d,
{
    if d > 0 {
        lemma_within_in_range(ids, links, s, (d - 1) as nat, directed);
        let w = within(links, s, (d - 1) as nat, directed);
        assert forall|v: int| #[trigger] within(links, s, d, directed).contains(v) implies 0 <= v
            < ids.len() by {
            if !w.contains(v) {
                let u = choose|u: int| w.contains(u) && #[trigger] linked(links, u, v, directed);
                lemma_linked_in_range(ids, links, u, v, directed);
            }
        }
    }
}

impl SortKey for SubgraphNode {
    type K = Seq<char>;

    open spec fn key(&self) -> Seq<char> {
        self.id@
    }

    open spec fn key_lt() -> spec_fn(Seq<char>, Seq<char>) -> bool {
        str_order()
    }

    proof fn lemma_key_order() {
        lemma_str_order();
    }

    fn key_less(&self, other: &Self) -> (r: bool) {
        str_lt(self.id.as_str(), other.id.as_str())
    }
}

impl SortKey for SubgraphEdge {
    type K = (Seq<char>, Seq<char>);

    open spec fn key(&self) -> (Seq<char>, Seq<char>) {
        self@
    }

    open spec fn key_lt() -> spec_fn((Seq<char>, Seq<char>), (Seq<char>, Seq<char>)) -> bool {
        pair_order(str_order(), str_order())
    }

    proof fn lemma_key_order() {
        lemma_str_order();
        lemma_pair_order(str_order(), str_order());
    }

    fn key_less(&self, other: &Self) -> (r: bool) {
        str_lt(self.source.as_str(), other.source.as_str()) || (str_eq(
            self.source.as_str(),
            other.source.as_str(),
        ) && str_lt(self.target.as_str(), other.target.as_str()))
    }
}

/// The nodes whose flag is set.
pub open spec fn flagged(f: Seq<bool>) -> Set<int> {
    Set::new(|v: int| 0 <= v < f.len() && f[v])
}

impl KnowledgeGraph {
    /// Flags of the nodes at most `depth` links away from node `s`.
    fn ball(&self, s: usize, depth: usize, directed: bool) -> (r: Vec<bool>)
        requires
            s < self.ids().len(),
        ensures
            r@.len() == self.ids().len(),
            forall|v: int|
                0 <= v < self.ids().len() ==> (#[trigger] r@[v] <==> within(
                    self.links(),
                    s as int,
                    depth as nat,
                    directed,
                ).contains(v)),
    {
        proof {
            use_type_invariant(self);
        }
        let ghost ids = self.ids();
        let ghost links = self.links();
        let n = graph_node_count(&self.graph);
        let mut visited = unvisited(n);
        visited.set(s, true);
        let mut frontier: Vec<usize> = Vec::new();
        frontier.push(s);
        let mut d: usize = 0;
        proof {
            assert(ints(frontier@) =~= seq![s as int]);
            assert forall|v: int| #[trigger] ints(frontier@).contains(v) <==> layer(links, s as int, 0, directed).contains(v) by {
                if ints(frontier@).contains(v) {
                    let t = choose|t: int| 0 <= t < ints(frontier@).len() && ints(frontier@)[t] == v;
                }
                if v == s as int {
                    assert(ints(frontier@)[0] == v);
                }
            }
        }
        while d < depth && frontier.len() > 0
            invariant
                graph_ok(ids, links),
                ids == self.ids(),
                links == self.links(),
                n == ids.len(),
                s < n,
                d <= depth,
                visited@.len() == n,
                forall|v: int|
                    0 <= v < n ==> (#[trigger] visited@[v] <==> within(links, s as int, d as nat, directed).contains(v)),
                forall|v: int|
                    #[trigger] ints(frontier@).contains(v) <==> layer(links, s as int, d as nat, directed).contains(v),
                forall|k: int| 0 <= k < frontier@.len() ==> #[trigger] frontier@[k] < n,
                d == 0 ==> frontier@.len() > 0,
            decreases depth - d,
        {
            let next = self.expand(&frontier, directed, &mut visited);
            let ghost lay = layer(links, s as int, d as nat, directed);
            let ghost lay1 = layer(links, s as int, (d + 1) as nat, directed);
            proof {
                lemma_within_next(links, s as int, d as nat, directed);
                lemma_within_grows(links, s as int, d as nat, (d + 1) as nat, directed);
                assert(ints(frontier@).to_set() =~= lay);
                assert forall|v: int| #[trigger] ints(next@).contains(v) <==> lay1.contains(v) by {
                    if step(links, lay, directed).contains(v) {
                        let u = choose|u: int| lay.contains(u) && #[trigger] linked(links, u, v, directed);
                        lemma_linked_in_range(ids, links, u, v, directed);
                    }
                }
            }
            frontier = next;
            d = d + 1;
        }
        proof {
            if d < depth {
                assert(frontier@.len() == 0);
                let w = within(links, s as int, d as nat, directed);
                let p = within(links, s as int, (d - 1) as nat, directed);
                lemma_within_grows(links, s as int, (d - 1) as nat, d as nat, directed);
                assert(w =~= p) by {
                    assert forall|v: int| w.contains(v) implies p.contains(v) by {
                        if !p.contains(v) {
                            assert(layer(links, s as int, d as nat, directed).contains(v));
                            assert(ints(frontier@).contains(v));
                        }
                    }
                }
                lemma_within_stable(links, s as int, d as nat, depth as nat, directed);
            }
        }
        visited
    }

    /// The part of the graph around the seed nodes: every node at most `depth`
    /// links from some seed (see `reached`), ordered by id and marked when it
    /// is a stub, and the links among those nodes, ordered by source and then
    /// target. The first seed that is not a node gives `NodeNotFound`.
    pub fn subgraph(&self, seeds: &[&str], depth: usize, directed: bool) -> (r: Result<
        Subgraph,
        Error,
    >)
        ensures
            graph_ok(self.ids(), self.links()),
            match r {
                Ok(sg) => {
                    let keep = reached(
                        self.links(),
                        seed_views(seeds@).map_values(|x: Seq<char>| position(self.ids(), x)),
                        depth as nat,
                        directed,
                    );
                    &&& forall|i: int|
                        0 <= i < seeds@.len() ==> self.ids().contains(#[trigger] seed_views(seeds@)[i])
                    &&& sorted_by_key(sg.nodes@)
                    &&& node_views(sg.nodes@).no_duplicates()
                    &&& node_views(sg.nodes@).to_set() == Set::new(
                        |x: (Seq<char>, bool)|
                            exists|v: int|
                                0 <= v < self.ids().len() && #[trigger] keep.contains(v) && x == (
                                    self.ids()[v],
                                    self.stub_ids().contains(self.ids()[v]),
                                ),
                    )
                    &&& sorted_by_key(sg.edges@)
                    &&& edge_views(sg.edges@).to_multiset() == induced(
                        self.ids(),
                        self.links(),
                        keep,
                    ).to_multiset()
                },
                Err(e) => exists|i: int|
                    first_missing(self.ids(), seed_views(seeds@), i) && e == (Error::NodeNotFound {
                        id: e->id,
                    }) && e->id@ == seed_views(seeds@)[i],
            },
    {
        proof {
            use_type_invariant(self);
        }
        let ghost ids = self.ids();
        let ghost links = self.links();
        let ghost sv = seed_views(seeds@);
        let ghost pos = sv.map_values(|x: Seq<char>| position(ids, x));
        let n = graph_node_count(&self.graph);
        let mut taken = unvisited(n);
        let mut i: usize = 0;
        proof {
            assert(flagged(taken@) =~= reached(links, pos.take(0), depth as nat, directed));
        }
        while i < seeds.len()
            invariant
                graph_ok(ids, links),
                ids == self.ids(),
                links == self.links(),
                n == ids.len(),
                sv == seed_views(seeds@),
                pos == sv.map_values(|x: Seq<char>| position(ids, x)),
                i <= seeds@.len(),
                taken@.len() == n,
                forall|j: int| 0 <= j < i ==> ids.contains(#[trigger] sv[j]),
                flagged(taken@) == reached(links, pos.take(i as int), depth as nat, directed),
            decreases seeds@.len() - i,
        {
            let s = match self.resolve_node_index(seeds[i]) {
                Ok(k) => k,
                Err(e) => {
                    proof {
                        assert(sv[i as int] == seeds@[i as int]@);
                        assert(first_missing(ids, sv, i as int));
                    }
                    return Err(e);
                },
            };
            proof {
                lemma_position(ids, s as int);
                assert(sv[i as int] == seeds@[i as int]@);
                assert(pos[i as int] == s as int);
                assert(pos.take(i + 1).drop_last() =~= pos.take(i as int));
                lemma_within_in_range(ids, links, s as int, depth as nat, directed);
            }
            let near = self.ball(s, depth, directed);
            let ghost before = taken@;
            let mut v: usize = 0;
            while v < n
                invariant
                    n == ids.len(),
                    v <= n,
                    near@.len() == n,
                    before.len() == n,
                    taken@.len() == n,
                    forall|u: int| 0 <= u < n ==> (#[trigger] taken@[u] <==> (before[u] || (u < v && near@[u]))),
                decreases n - v,
            {
                if near[v] {
                    taken.set(v, true);
                }
                v = v + 1;
            }
            proof {
                let prev = reached(links, pos.take(i as int), depth as nat, directed);
                let next = reached(links, pos.take(i + 1), depth as nat, directed);
                let ball = within(links, s as int, depth as nat, directed);
                assert(flagged(before) == prev);
                assert forall|u: int| #[trigger] flagged(taken@).contains(u) <==> next.contains(u) by {
                    if flagged(taken@).contains(u) {
                        if flagged(before).contains(u) {
                            let j = choose|j: int|
                                0 <= j < pos.take(i as int).len() && #[trigger] within(links, pos.take(i as int)[j], depth as nat, directed).contains(u);
                            assert(pos.take(i + 1)[j] == pos.take(i as int)[j]);
                        } else {
                            assert(pos.take(i + 1)[i as int] == s as int);
                            assert(within(links, pos.take(i + 1)[i as int], depth as nat, directed).contains(u));
                        }
                    }
                    if next.contains(u) {
                        let j = choose|j: int|
                            0 <= j < pos.take(i + 1).len() && #[trigger] within(links, pos.take(i + 1)[j], depth as nat, directed).contains(u);
                        if j < i {
                            assert(pos.take(i as int)[j] == pos.take(i + 1)[j]);
                            assert(prev.contains(u));
                        } else {
                            assert(pos.take(i + 1)[j] == s as int);
                            assert(ball.contains(u));
                        }
                    }
                }
                assert(flagged(taken@) =~= next);
            }
            i = i + 1;
        }
        assert(pos.take(seeds@.len() as int) =~= pos);
        let ghost keep = flagged(taken@);
        // the nodes
        let mut nodes: Vec<SubgraphNode> = Vec::new();
        let mut v: usize = 0;
        while v < n
            invariant
                graph_ok(ids, links),
                ids == self.ids(),
                n == ids.len(),
                v <= n,
                taken@.len() == n,
                keep == flagged(taken@),
                node_views(nodes@).no_duplicates(),
                forall|x: (Seq<char>, bool)|
                    #[trigger] node_views(nodes@).contains(x) <==> exists|u: int|
                        0 <= u < v && #[trigger] keep.contains(u) && x == (
                            ids[u],
                            self.stub_ids().contains(ids[u]),
                        ),
            decreases n - v,
        {
            if taken[v] {
                let id = graph_node(&self.graph, v);
                let is_stub = contains_string(&self.stubs, id.as_str());
                let ghost before = nodes@;
                let ghost x = (ids[v as int], self.stub_ids().contains(ids[v as int]));
                nodes.push(SubgraphNode { id: id.clone(), is_stub });
                proof {
                    assert(views(self.stubs@).contains(id@) == views(self.stubs@).to_set().contains(id@));
                    assert(node_views(nodes@) =~= node_views(before).push(x));
                    if node_views(before).contains(x) {
                        let u = choose|u: int|
                            0 <= u < v && #[trigger] keep.contains(u) && x == (
                                ids[u],
                                self.stub_ids().contains(ids[u]),
                            );
                        assert(ids[u] != ids[v as int]);
                    }
                    lemma_push(node_views(before), x);
                    assert forall|y: (Seq<char>, bool)| #[trigger] node_views(nodes@).contains(y) <==> exists|u: int|
                        0 <= u < v + 1 && #[trigger] keep.contains(u) && y == (
                            ids[u],
                            self.stub_ids().contains(ids[u]),
                        ) by {
                        vstd::seq_lib::lemma_seq_contains_after_push(node_views(before), x, y);
                        if y == x {
                            assert(keep.contains(v as int));
                        }
                        if exists|u: int|
                            0 <= u < v + 1 && #[trigger] keep.contains(u) && y == (
                                ids[u],
                                self.stub_ids().contains(ids[u]),
                            ) {
                            let u = choose|u: int|
                                0 <= u < v + 1 && #[trigger] keep.contains(u) && y == (
                                    ids[u],
                                    self.stub_ids().contains(ids[u]),
                                );
                            if u < v {
                                assert(node_views(before).contains(y));
                            }
                        }
                    }
                }
            } else {
                proof {
                    assert forall|y: (Seq<char>, bool)| #[trigger] node_views(nodes@).contains(y) <==> exists|u: int|
                        0 <= u < v + 1 && #[trigger] keep.contains(u) && y == (
                            ids[u],
                            self.stub_ids().contains(ids[u]),
                        ) by {
                        if exists|u: int|
                            0 <= u < v + 1 && #[trigger] keep.contains(u) && y == (
                                ids[u],
                                self.stub_ids().contains(ids[u]),
                            ) {
                            let u = choose|u: int|
                                0 <= u < v + 1 && #[trigger] keep.contains(u) && y == (
                                    ids[u],
                                    self.stub_ids().contains(ids[u]),
                                );
                            assert(u != v);
                        }
                    }
                }
            }
            v = v + 1;
        }
        let ghost unsorted_nodes = nodes@;
        sort_by_key(&mut nodes);
        proof {
            lemma_map_values_multiset_nodes(nodes@, unsorted_nodes);
            lemma_same_multiset(node_views(nodes@), node_views(unsorted_nodes));
        }
        // the links
        let m = graph_edge_count(&self.graph);
        let ghost pred = |l: (int, int)| keep.contains(l.0) && keep.contains(l.1);
        let mut edges: Vec<SubgraphEdge> = Vec::new();
        let mut k: usize = 0;
        while k < m
            invariant
                graph_ok(ids, links),
                ids == self.ids(),
                links == self.links(),
                n == ids.len(),
                m == links.len(),
                k <= m,
                taken@.len() == n,
                keep == flagged(taken@),
                pred == (|l: (int, int)| keep.contains(l.0) && keep.contains(l.1)),
                edge_views(edges@) == link_ids(ids, links.take(k as int).filter(pred)),
            decreases m - k,
        {
            let (a, b) = graph_edge(&self.graph, k);
            let ghost before = links.take(k as int).filter(pred);
            proof {
                assert(links.take(k + 1).drop_last() =~= links.take(k as int));
                assert(links.take(k + 1).last() == links[k as int]);
                reveal(Seq::filter);
                assert(0 <= links[k as int].0 < n && 0 <= links[k as int].1 < n);
            }
            if taken[a] && taken[b] {
                let ghost ev = edge_views(edges@);
                edges.push(
                    SubgraphEdge {
                        source: graph_node(&self.graph, a).clone(),
                        target: graph_node(&self.graph, b).clone(),
                    },
                );
                proof {
                    assert(links.take(k + 1).filter(pred) == before.push(links[k as int]));
                    assert(edge_views(edges@) =~= ev.push((ids[a as int], ids[b as int])));
                    assert(link_ids(ids, before.push(links[k as int])) =~= link_ids(ids, before).push(
                        (ids[a as int], ids[b as int]),
                    ));
                }
            } else {
                proof {
                    assert(links.take(k + 1).filter(pred) == before);
                }
            }
            k = k + 1;
        }
        assert(links.take(m as int) =~= links);
        let ghost unsorted_edges = edges@;
        sort_by_key(&mut edges);
        proof {
            lemma_map_values_multiset_edges(edges@, unsorted_edges);
        }
        Ok(Subgraph { nodes, edges })
    }
}

proof fn lemma_map_values_multiset_nodes(r: Seq<SubgraphNode>, s: Seq<SubgraphNode>)
    requires
        r.to_multiset() == s.to_multiset(),
    ensures
        node_views(r).to_multiset() == node_views(s).to_multiset(),
{
    crate::order::lemma_map_values_multiset(r, s, |n: SubgraphNode| n@);
}

proof fn lemma_map_values_multiset_edges(r: Seq<SubgraphEdge>, s: Seq<SubgraphEdge>)
    requires
        r.to_multiset() == s.to_multiset(),
    ensures
        edge_views(r).to_multiset() == edge_views(s).to_multiset(),
{
    crate::order::lemma_map_values_multiset(r, s, |e: SubgraphEdge| e@);
}

// ---------------------------------------------------------------------------
// Paths
// ---------------------------------------------------------------------------

/// `s` with each element kept at its first occurrence only.
pub open spec fn first_each(s: Seq<int>) -> Seq<int>
    decreases s.len(),
{
    if s.len() == 0 {
        Seq::empty()
    } else {
        let d = first_each(s.drop_last());
        if d.contains(s.last()) {
            d
        } else {
            d.push(s.last())
        }
    }
}

/// The distinct neighbours of `u` in the order a path search tries them: the
/// neighbour list (see `nbr_list`) with repeats dropped.
pub open spec fn step_list(links: Seq<(int, int)>, u: int, directed: bool) -> Seq<int> {
    first_each(nbr_list(links, u, directed))
}

proof fn lemma_first_each(s: Seq<int>)
    ensures
        first_each(s).no_duplicates(),
        forall|v: int| #[trigger] first_each(s).contains(v) <==> s.contains(v),
    decreases s.len(),
{
    if s.len() > 0 {
        let init = s.drop_last();
        lemma_first_each(init);
        let d = first_each(init);
        assert forall|v: int| #[trigger] s.contains(v) <==> (init.contains(v) || v == s.last()) by {
            if s.contains(v) {
                let k = choose|k: int| 0 <= k < s.len() && s[k] == v;
                if k < s.len() - 1 {
                    assert(init[k] == v);
                }
            }
            if init.contains(v) {
                let k = choose|k: int| 0 <= k < init.len() && init[k] == v;
                assert(s[k] == v);
            }
        }
        if !d.contains(s.last()) {
            lemma_push(d, s.last());
            assert forall|v: int| #[trigger] d.push(s.last()).contains(v) <==> (d.contains(v) || v == s.last()) by {
                vstd::seq_lib::lemma_seq_contains_after_push(d, s.last(), v);
            }
        }
    }
}

/// A node is in the path search's neighbour list of `u` exactly when it is
/// linked to `u`, and the list holds no node twice.
pub proof fn lemma_step_list(links: Seq<(int, int)>, u: int, v: int, directed: bool)
    ensures
        step_list(links, u, directed).contains(v) <==> linked(links, u, v, directed),
        step_list(links, u, directed).no_duplicates(),
{
    lemma_first_each(nbr_list(links, u, directed));
    lemma_nbr_list(links, u, v, directed);
}

/// The elements of `v`, each kept at its first occurrence.
fn distinct_indices(v: &Vec<usize>, n: usize) -> (r: Vec<usize>)
    requires
        forall|k: int| 0 <= k < v@.len() ==> #[trigger] v@[k] < n,
    ensures
        ints(r@) == first_each(ints(v@)),
        forall|k: int| 0 <= k < r@.len() ==> #[trigger] r@[k] < n,
{
    let mut seen = unvisited(n);
    let mut r: Vec<usize> = Vec::new();
    let mut j: usize = 0;
    while j < v.len()
        invariant
            j <= v@.len(),
            seen@.len() == n,
            forall|k: int| 0 <= k < v@.len() ==> #[trigger] v@[k] < n,
            forall|k: int| 0 <= k < r@.len() ==> #[trigger] r@[k] < n,
            ints(r@) == first_each(ints(v@).take(j as int)),
            forall|x: int| 0 <= x < n ==> (#[trigger] seen@[x] <==> ints(r@).contains(x)),
        decreases v@.len() - j,
    {
        let x = v[j];
        let ghost before = ints(r@);
        assert(ints(v@).take(j + 1).drop_last() =~= ints(v@).take(j as int));
        assert(ints(v@).take(j + 1).last() == x as int);
        if !seen[x] {
            seen.set(x, true);
            r.push(x);
            assert(ints(r@) =~= before.push(x as int));
            assert forall|y: int| 0 <= y < n implies (#[trigger] seen@[y] <==> ints(r@).contains(y)) by {
                vstd::seq_lib::lemma_seq_contains_after_push(before, x as int, y);
            }
        }
        j = j + 1;
    }
    assert(ints(v@).take(v@.len() as int) =~= ints(v@));
    r
}

/// The paths a depth-first search finds towards `t`, each written as the nodes
/// after the node being left: it tries the nodes of `ns` in turn; reaching `t`
/// ends a path; a node of `on_path` is not entered again; at most `budget`
/// more links may be taken. From each node the search goes on to its distinct
/// neighbours (see `step_list`), so no path is found twice (`lemma_path_once`).
pub open spec fn found(
    links: Seq<(int, int)>,
    ns: Seq<int>,
    t: int,
    budget: nat,
    on_path: Set<int>,
    directed: bool,
) -> Seq<Seq<int>>
    decreases budget, ns.len(),
{
    if ns.len() == 0 || budget == 0 {
        Seq::empty()
    } else {
        let w = ns[0];
        let here = if w == t {
            seq![seq![t]]
        } else if on_path.contains(w) {
            Seq::empty()
        } else {
            found(
                links,
                step_list(links, w, directed),
                t,
                (budget - 1) as nat,
                on_path.insert(w),
                directed,
            ).map_values(|p: Seq<int>| seq![w] + p)
        };
        here + found(links, ns.drop_first(), t, budget, on_path, directed)
    }
}

/// The paths from `s` to `t` with at most `max_depth` links, as node indices,
/// in the order the search finds them; from a node to itself, the one-node path.
pub open spec fn all_paths(
    links: Seq<(int, int)>,
    s: int,
    t: int,
    max_depth: nat,
    directed: bool,
) -> Seq<Seq<int>> {
    if s == t {
        seq![seq![s]]
    } else {
        found(links, step_list(links, s, directed), t, max_depth, set![s], directed).map_values(
            |p: Seq<int>| seq![s] + p,
        )
    }
}

/// A path written with node ids.
pub open spec fn id_path(ids: Seq<Seq<char>>, p: Seq<int>) -> Seq<Seq<char>> {
    p.map_values(|i: int| ids[i])
}

/// `p` is a path from `s` to `t` along links that visits no node twice and
/// takes at least one and at most `max_depth` links.
pub open spec fn simple_path(
    links: Seq<(int, int)>,
    p: Seq<int>,
    s: int,
    t: int,
    max_depth: nat,
    directed: bool,
) -> bool {
    &&& 2 <= p.len() <= max_depth + 1
    &&& p[0] == s
    &&& p.last() == t
    &&& p.no_duplicates()
    &&& forall|i: int| 0 <= i < p.len() - 1 ==> #[trigger] linked(links, p[i], p[i + 1], directed)
}

proof fn lemma_found_concat(
    links: Seq<(int, int)>,
    a: Seq<int>,
    b: Seq<int>,
    t: int,
    budget: nat,
    on_path: Set<int>,
    directed: bool,
)
    ensures
        found(links, a + b, t, budget, on_path, directed) == found(links, a, t, budget, on_path, directed)
            + found(links, b, t, budget, on_path, directed),
    decreases a.len(),
{
    if budget == 0 {
    } else if a.len() == 0 {
        assert(a + b =~= b);
    } else {
        assert((a + b)[0] == a[0]);
        assert((a + b).drop_first() =~= a.drop_first() + b);
        lemma_found_concat(links, a.drop_first(), b, t, budget, on_path, directed);
    }
}

/// What the search finds from the nodes `ns` is made of single-node paths to
/// `t` and of paths through nodes off `on_path`, each following links.
proof fn lemma_found_sound(
    links: Seq<(int, int)>,
    ns: Seq<int>,
    t: int,
    budget: nat,
    on_path: Set<int>,
    directed: bool,
    q: Seq<int>,
)
    requires
        found(links, ns, t, budget, on_path, directed).contains(q),
    ensures
        1 <= q.len() <= budget,
        ns.contains(q[0]),
        q.last() == t,
        q.no_duplicates(),
        forall|i: int| 0 <= i < q.len() - 1 ==> q[i] != t && !on_path.contains(#[trigger] q[i]),
        forall|i: int|
            0 <= i < q.len() - 1 ==> #[trigger] step_list(links, q[i], directed).contains(q[i + 1]),
    decreases budget, ns.len(),
{
    let all = found(links, ns, t, budget, on_path, directed);
    let w = ns[0];
    let here = if w == t {
        seq![seq![t]]
    } else if on_path.contains(w) {
        Seq::empty()
    } else {
        found(
            links,
            step_list(links, w, directed),
            t,
            (budget - 1) as nat,
            on_path.insert(w),
            directed,
        ).map_values(|p: Seq<int>| seq![w] + p)
    };
    let rest = found(links, ns.drop_first(), t, budget, on_path, directed);
    assert(all == here + rest);
    let k = choose|k: int| 0 <= k < all.len() && all[k] == q;
    if k < here.len() {
        assert(here[k] == q);
        if w == t {
            assert(q == seq![t]);
            assert(ns.contains(w)) by {
                assert(ns[0] == w);
            }
        } else {
            let inner = found(
                links,
                step_list(links, w, directed),
                t,
                (budget - 1) as nat,
                on_path.insert(w),
                directed,
            );
            let q2 = inner[k];
            assert(q == seq![w] + q2);
            assert(inner.contains(q2));
            lemma_found_sound(
                links,
                step_list(links, w, directed),
                t,
                (budget - 1) as nat,
                on_path.insert(w),
                directed,
                q2,
            );
            assert(ns[0] == w);
            assert(q[0] == w);
            assert forall|i: int| 0 <= i < q.len() - 1 implies q[i] != t && !on_path.contains(#[trigger] q[i]) by {
                if i > 0 {
                    assert(q[i] == q2[i - 1]);
                }
            }
            assert forall|i: int| 0 <= i < q.len() - 1 implies #[trigger] step_list(links, q[i], directed).contains(q[i + 1]) by {
                if i > 0 {
                    assert(q[i] == q2[i - 1]);
                    assert(q[i + 1] == q2[i]);
                    let j = i - 1;
                    assert(step_list(links, q2[j], directed).contains(q2[j + 1]));
                } else {
                    assert(q[1] == q2[0]);
                    assert(step_list(links, q[0], directed) == step_list(links, w, directed));
                }
            }
            assert forall|a: int, b: int| 0 <= a < b < q.len() implies q[a] != q[b] by {
                assert(q[b] == q2[b - 1]);
                if a > 0 {
                    assert(q[a] == q2[a - 1]);
                } else if b - 1 < q2.len() - 1 {
                    assert(!on_path.insert(w).contains(q2[b - 1]));
                } else {
                    assert(q2[b - 1] == t);
                }
            }
        }
    } else {
        assert(rest[k - here.len()] == q);
        assert(rest.contains(q));
        lemma_found_sound(links, ns.drop_first(), t, budget, on_path, directed, q);
        let j = choose|j: int| 0 <= j < ns.drop_first().len() && ns.drop_first()[j] == q[0];
        assert(ns[j + 1] == q[0]);
    }
}

/// Every path of that shape is found.
proof fn lemma_found_complete(
    links: Seq<(int, int)>,
    ns: Seq<int>,
    t: int,
    budget: nat,
    on_path: Set<int>,
    directed: bool,
    q: Seq<int>,
)
    requires
        1 <= q.len() <= budget,
        ns.contains(q[0]),
        q.last() == t,
        q.no_duplicates(),
        forall|i: int| 0 <= i < q.len() - 1 ==> q[i] != t && !on_path.contains(#[trigger] q[i]),
        forall|i: int|
            0 <= i < q.len() - 1 ==> #[trigger] step_list(links, q[i], directed).contains(q[i + 1]),
    ensures
        found(links, ns, t, budget, on_path, directed).contains(q),
    decreases budget, ns.len(),
{
    let all = found(links, ns, t, budget, on_path, directed);
    let w = ns[0];
    let here = if w == t {
        seq![seq![t]]
    } else if on_path.contains(w) {
        Seq::empty()
    } else {
        found(
            links,
            step_list(links, w, directed),
            t,
            (budget - 1) as nat,
            on_path.insert(w),
            directed,
        ).map_values(|p: Seq<int>| seq![w] + p)
    };
    let rest = found(links, ns.drop_first(), t, budget, on_path, directed);
    assert(all == here + rest);
    if w == q[0] {
        if w == t {
            if q.len() > 1 {
                assert(q[0] != t);
            }
            assert(q =~= seq![t]);
            assert(here[0] == q);
            assert(all[0] == q);
        } else {
            assert(q.len() >= 2);
            assert(!on_path.contains(q[0]));
            let q2 = q.drop_first();
            assert(step_list(links, q[0], directed).contains(q[1]));
            assert forall|i: int| 0 <= i < q2.len() - 1 implies q2[i] != t && !on_path.insert(w).contains(#[trigger] q2[i]) by {
                assert(q2[i] == q[i + 1]);
                assert(q[0] != q[i + 1]);
            }
            assert forall|i: int| 0 <= i < q2.len() - 1 implies #[trigger] step_list(links, q2[i], directed).contains(q2[i + 1]) by {
                assert(q2[i] == q[i + 1]);
                assert(q2[i + 1] == q[i + 2]);
            }
            assert(q2.no_duplicates()) by {
                assert forall|a: int, b: int| 0 <= a < b < q2.len() implies q2[a] != q2[b] by {
                    assert(q2[a] == q[a + 1] && q2[b] == q[b + 1]);
                }
            }
            lemma_found_complete(
                links,
                step_list(links, w, directed),
                t,
                (budget - 1) as nat,
                on_path.insert(w),
                directed,
                q2,
            );
            let inner = found(
                links,
                step_list(links, w, directed),
                t,
                (budget - 1) as nat,
                on_path.insert(w),
                directed,
            );
            let k = choose|k: int| 0 <= k < inner.len() && inner[k] == q2;
            assert(seq![w] + q2 =~= q);
            assert(here[k] == q);
            assert(all[k] == q);
        }
    } else {
        let j = choose|j: int| 0 <= j < ns.len() && ns[j] == q[0];
        assert(j > 0);
        assert(ns.drop_first()[j - 1] == q[0]);
        lemma_found_complete(links, ns.drop_first(), t, budget, on_path, directed, q);
        let k = choose|k: int| 0 <= k < rest.len() && rest[k] == q;
        assert(all[here.len() + k] == q);
    }
}

/// Each path that `all_paths` lists between two different nodes is a simple
/// path between them of at most `max_depth` links.
pub proof fn lemma_path_sound(
    links: Seq<(int, int)>,
    s: int,
    t: int,
    max_depth: nat,
    directed: bool,
    p: Seq<int>,
)
    requires
        s != t,
        all_paths(links, s, t, max_depth, directed).contains(p),
    ensures
        simple_path(links, p, s, t, max_depth, directed),
{
    let f = found(links, step_list(links, s, directed), t, max_depth, set![s], directed);
    let k = choose|k: int| 0 <= k < all_paths(links, s, t, max_depth, directed).len() && all_paths(
        links,
        s,
        t,
        max_depth,
        directed,
    )[k] == p;
    let q = f[k];
    assert(p == seq![s] + q);
    assert(f.contains(q));
    lemma_found_sound(links, step_list(links, s, directed), t, max_depth, set![s], directed, q);
    assert forall|i: int| 0 <= i < p.len() - 1 implies #[trigger] linked(links, p[i], p[i + 1], directed) by {
        if i == 0 {
            assert(p[0] == s);
            assert(p[1] == q[0]);
            lemma_step_list(links, s, q[0], directed);
        } else {
            assert(p[i] == q[i - 1] && p[i + 1] == q[i]);
            let j = i - 1;
            assert(step_list(links, q[j], directed).contains(q[j + 1]));
            lemma_step_list(links, q[i - 1], q[i], directed);
        }
    }
    assert forall|a: int, b: int| 0 <= a < b < p.len() implies p[a] != p[b] by {
        assert(p[b] == q[b - 1]);
        if a > 0 {
            assert(p[a] == q[a - 1]);
        } else if b - 1 < q.len() - 1 {
            assert(!set![s].contains(q[b - 1]));
        }
    }
}

/// Every simple path between two different nodes with at most `max_depth`
/// links is listed by `all_paths`.
pub proof fn lemma_path_complete(
    links: Seq<(int, int)>,
    s: int,
    t: int,
    max_depth: nat,
    directed: bool,
    p: Seq<int>,
)
    requires
        s != t,
        simple_path(links, p, s, t, max_depth, directed),
    ensures
        all_paths(links, s, t, max_depth, directed).contains(p),
{
    let q = p.drop_first();
    assert forall|i: int| 0 <= i < q.len() - 1 implies q[i] != t && !set![s].contains(#[trigger] q[i]) by {
        assert(q[i] == p[i + 1]);
        assert(p[0] != p[i + 1]);
        assert(p[p.len() - 1] != p[i + 1]);
    }
    assert forall|i: int| 0 <= i < q.len() - 1 implies #[trigger] step_list(links, q[i], directed).contains(q[i + 1]) by {
        assert(q[i] == p[i + 1] && q[i + 1] == p[i + 2]);
        assert(linked(links, p[i + 1], p[i + 2], directed));
        lemma_step_list(links, q[i], q[i + 1], directed);
    }
    assert(q.no_duplicates()) by {
        assert forall|a: int, b: int| 0 <= a < b < q.len() implies q[a] != q[b] by {
            assert(q[a] == p[a + 1] && q[b] == p[b + 1]);
        }
    }
    let z = 0int;
    assert(linked(links, p[z], p[z + 1], directed));
    lemma_step_list(links, s, p[1], directed);
    lemma_found_complete(links, step_list(links, s, directed), t, max_depth, set![s], directed, q);
    let f = found(links, step_list(links, s, directed), t, max_depth, set![s], directed);
    let k = choose|k: int| 0 <= k < f.len() && f[k] == q;
    assert(seq![s] + q =~= p);
    assert(all_paths(links, s, t, max_depth, directed)[k] == p);
}


/// What the search finds from a list of distinct nodes holds no path twice.
proof fn lemma_found_distinct(
    links: Seq<(int, int)>,
    ns: Seq<int>,
    t: int,
    budget: nat,
    on_path: Set<int>,
    directed: bool,
)
    requires
        ns.no_duplicates(),
    ensures
        found(links, ns, t, budget, on_path, directed).no_duplicates(),
    decreases budget, ns.len(),
{
    if ns.len() > 0 && budget > 0 {
        let all = found(links, ns, t, budget, on_path, directed);
        let w = ns[0];
        let inner = found(
            links,
            step_list(links, w, directed),
            t,
            (budget - 1) as nat,
            on_path.insert(w),
            directed,
        );
        let here = if w == t {
            seq![seq![t]]
        } else if on_path.contains(w) {
            Seq::empty()
        } else {
            inner.map_values(|p: Seq<int>| seq![w] + p)
        };
        let rest = found(links, ns.drop_first(), t, budget, on_path, directed);
        assert(all == here + rest);
        assert(ns.drop_first().no_duplicates()) by {
            assert forall|a: int, b: int| 0 <= a < b < ns.drop_first().len() implies ns.drop_first()[a]
                != ns.drop_first()[b] by {
                assert(ns.drop_first()[a] == ns[a + 1] && ns.drop_first()[b] == ns[b + 1]);
            }
        }
        lemma_found_distinct(links, ns.drop_first(), t, budget, on_path, directed);
        if w != t && !on_path.contains(w) {
            lemma_step_list(links, w, w, directed);
            lemma_found_distinct(
                links,
                step_list(links, w, directed),
                t,
                (budget - 1) as nat,
                on_path.insert(w),
                directed,
            );
            assert forall|a: int, b: int| 0 <= a < b < here.len() implies here[a] != here[b] by {
                assert(inner[a] != inner[b]);
                assert(here[a] == seq![w] + inner[a]);
                assert(here[b] == seq![w] + inner[b]);
                assert(here[a].drop_first() =~= inner[a]);
                assert(here[b].drop_first() =~= inner[b]);
            }
        }
        assert forall|k: int| 0 <= k < here.len() implies (#[trigger] here[k]).len() > 0 && here[k][0]
            == w by {
            if w != t {
                assert(here[k] == seq![w] + inner[k]);
            }
        }
        assert forall|a: int, b: int| 0 <= a < b < all.len() implies all[a] != all[b] by {
            if b >= here.len() {
                let y = rest[b - here.len()];
                assert(all[b] == y);
                if a < here.len() {
                    assert(rest.contains(y));
                    lemma_found_sound(links, ns.drop_first(), t, budget, on_path, directed, y);
                    let j = choose|j: int| 0 <= j < ns.drop_first().len() && ns.drop_first()[j] == y[0];
                    assert(ns[j + 1] == y[0]);
                    assert(here[a][0] == w);
                    assert(ns[0] != ns[j + 1]);
                } else {
                    assert(all[a] == rest[a - here.len()]);
                }
            } else {
                assert(all[a] == here[a] && all[b] == here[b]);
            }
        }
    }
}

/// Each path between two different nodes is listed once.
pub proof fn lemma_path_once(links: Seq<(int, int)>, s: int, t: int, max_depth: nat, directed: bool)
    requires
        s != t,
    ensures
        all_paths(links, s, t, max_depth, directed).no_duplicates(),
{
    let f = found(links, step_list(links, s, directed), t, max_depth, set![s], directed);
    lemma_step_list(links, s, s, directed);
    lemma_found_distinct(links, step_list(links, s, directed), t, max_depth, set![s], directed);
    let ap = all_paths(links, s, t, max_depth, directed);
    assert forall|a: int, b: int| 0 <= a < b < ap.len() implies ap[a] != ap[b] by {
        assert(ap[a] == seq![s] + f[a]);
        assert(ap[b] == seq![s] + f[b]);
        assert(ap[a].drop_first() =~= f[a]);
        assert(ap[b].drop_first() =~= f[b]);
    }
}

/// The paths `path` reports, written with ids: between different nodes every
/// simple path of at most `max_depth` links; from a node to itself the
/// one-node path.
pub open spec fn path_set(
    ids: Seq<Seq<char>>,
    links: Seq<(int, int)>,
    s: int,
    t: int,
    max_depth: nat,
    directed: bool,
) -> Set<Seq<Seq<char>>> {
    if s == t {
        set![seq![ids[s]]]
    } else {
        Set::new(
            |p: Seq<Seq<char>>|
                exists|q: Seq<int>| #[trigger] simple_path(links, q, s, t, max_depth, directed) && p == id_path(ids, q),
        )
    }
}

proof fn lemma_simple_path_in_range(
    ids: Seq<Seq<char>>,
    links: Seq<(int, int)>,
    p: Seq<int>,
    s: int,
    t: int,
    max_depth: nat,
    directed: bool,
)
    requires
        graph_ok(ids, links),
        0 <= s < ids.len(),
        simple_path(links, p, s, t, max_depth, directed),
    ensures
        forall|i: int| 0 <= i < p.len() ==> 0 <= #[trigger] p[i] < ids.len(),
{
    assert forall|i: int| 0 <= i < p.len() implies 0 <= #[trigger] p[i] < ids.len() by {
        if i > 0 {
            let j = i - 1;
            assert(linked(links, p[j], p[j + 1], directed));
            lemma_linked_in_range(ids, links, p[j], p[j + 1], directed);
        }
    }
}

/// Between two different nodes, the listed paths written with ids are
/// distinct and are exactly `path_set`.
proof fn lemma_path_results(
    ids: Seq<Seq<char>>,
    links: Seq<(int, int)>,
    s: int,
    t: int,
    max_depth: nat,
    directed: bool,
)
    requires
        graph_ok(ids, links),
        0 <= s < ids.len(),
        s != t,
    ensures
        all_paths(links, s, t, max_depth, directed).map_values(|p: Seq<int>| id_path(ids, p)).no_duplicates(),
        all_paths(links, s, t, max_depth, directed).map_values(|p: Seq<int>| id_path(ids, p)).to_set()
            == path_set(ids, links, s, t, max_depth, directed),
{
    let ap = all_paths(links, s, t, max_depth, directed);
    let w = ap.map_values(|p: Seq<int>| id_path(ids, p));
    lemma_path_once(links, s, t, max_depth, directed);
    assert forall|a: int, b: int| 0 <= a < b < w.len() implies w[a] != w[b] by {
        assert(ap.contains(ap[a]) && ap.contains(ap[b]));
        lemma_path_sound(links, s, t, max_depth, directed, ap[a]);
        lemma_path_sound(links, s, t, max_depth, directed, ap[b]);
        lemma_simple_path_in_range(ids, links, ap[a], s, t, max_depth, directed);
        lemma_simple_path_in_range(ids, links, ap[b], s, t, max_depth, directed);
        if w[a] == w[b] {
            assert(ap[a].len() == w[a].len());
            assert(ap[b].len() == w[b].len());
            assert forall|i: int| 0 <= i < ap[a].len() implies ap[a][i] == ap[b][i] by {
                assert(w[a][i] == ids[ap[a][i]]);
                assert(w[b][i] == ids[ap[b][i]]);
            }
            assert(ap[a] =~= ap[b]);
        }
    }
    let want = path_set(ids, links, s, t, max_depth, directed);
    assert forall|x: Seq<Seq<char>>| #[trigger] w.to_set().contains(x) <==> want.contains(x) by {
        if w.to_set().contains(x) {
            assert(w.contains(x));
            let k = choose|k: int| 0 <= k < w.len() && w[k] == x;
            assert(ap.contains(ap[k]));
            lemma_path_sound(links, s, t, max_depth, directed, ap[k]);
            assert(simple_path(links, ap[k], s, t, max_depth, directed));
        }
        if want.contains(x) {
            let q = choose|q: Seq<int>| #[trigger] simple_path(links, q, s, t, max_depth, directed) && x == id_path(ids, q);
            lemma_path_complete(links, s, t, max_depth, directed, q);
            let k = choose|k: int| 0 <= k < ap.len() && ap[k] == q;
            assert(w[k] == x);
            assert(w.contains(x));
        }
    }
    assert(w.to_set() =~= want);
}

impl SortKey for Vec<String> {
    type K = Seq<Seq<char>>;

    open spec fn key(&self) -> Seq<Seq<char>> {
        strs_view(self@)
    }

    open spec fn key_lt() -> spec_fn(Seq<Seq<char>>, Seq<Seq<char>>) -> bool {
        strs_order()
    }

    proof fn lemma_key_order() {
        lemma_strs_order();
    }

    fn key_less(&self, other: &Self) -> (r: bool) {
        strs_lt(self, other)
    }
}

impl KnowledgeGraph {
    /// The ids of the nodes of `path`.
    fn ids_of(&self, path: &Vec<usize>) -> (r: Vec<String>)
        requires
            forall|k: int| 0 <= k < path@.len() ==> #[trigger] path@[k] < self.ids().len(),
        ensures
            strs_view(r@) == id_path(self.ids(), ints(path@)),
    {
        let mut r: Vec<String> = Vec::new();
        let mut k: usize = 0;
        while k < path.len()
            invariant
                k <= path@.len(),
                forall|j: int| 0 <= j < path@.len() ==> #[trigger] path@[j] < self.ids().len(),
                strs_view(r@) == id_path(self.ids(), ints(path@.take(k as int))),
            decreases path@.len() - k,
        {
            let ghost before = r@;
            r.push(graph_node(&self.graph, path[k]).clone());
            let ghost x = path@[k as int] as int;
            assert(ints(path@.take(k + 1)) =~= ints(path@.take(k as int)).push(x));
            assert(strs_view(r@) =~= strs_view(before).push(self.ids()[x]));
            assert(id_path(self.ids(), ints(path@.take(k as int)).push(x)) =~= id_path(
                self.ids(),
                ints(path@.take(k as int)),
            ).push(self.ids()[x]));
            k = k + 1;
        }
        assert(path@.take(path@.len() as int) =~= path@);
        r
    }

    /// Depth-first search from `current`, the last node of `path`, for the
    /// paths to `target` through unvisited nodes with at most `budget` more
    /// links; appends each path found, as ids, to `results`.
    fn dfs(
        &self,
        current: usize,
        target: usize,
        budget: usize,
        directed: bool,
        visited: &mut Vec<bool>,
        path: &mut Vec<usize>,
        results: &mut Vec<Vec<String>>,
    )
        requires
            current < self.ids().len(),
            target < self.ids().len(),
            old(visited)@.len() == self.ids().len(),
            forall|k: int| 0 <= k < old(path)@.len() ==> #[trigger] old(path)@[k] < self.ids().len(),
        ensures
            final(visited)@ == old(visited)@,
            final(path)@ == old(path)@,
            keys(final(results)@) == keys(old(results)@) + found(
                self.links(),
                step_list(self.links(), current as int, directed),
                target as int,
                budget as nat,
                flagged(old(visited)@),
                directed,
            ).map_values(|q: Seq<int>| id_path(self.ids(), ints(old(path)@) + q)),
        decreases budget,
    {
        proof {
            use_type_invariant(self);
        }
        let ghost ids = self.ids();
        let ghost links = self.links();
        let ghost vis0 = visited@;
        let ghost path0 = path@;
        let ghost res0 = keys(results@);
        let ghost on = flagged(vis0);
        let ghost all = step_list(links, current as int, directed);
        if budget == 0 {
            assert(keys(results@) =~= res0 + found(links, all, target as int, 0, on, directed).map_values(
                |q: Seq<int>| id_path(ids, ints(path0) + q),
            ));
            return;
        }
        let mut raw = graph_neighbors(&self.graph, current, true);
        if !directed {
            let mut ins = graph_neighbors(&self.graph, current, false);
            raw.append(&mut ins);
        }
        proof {
            let full = nbr_list(links, current as int, directed);
            assert(ints(raw@) =~= full);
            assert forall|k: int| 0 <= k < raw@.len() implies raw@[k] < ids.len() by {
                assert(ints(raw@)[k] == full[k]);
                assert(full.contains(raw@[k] as int));
                lemma_nbr_list(links, current as int, raw@[k] as int, directed);
                lemma_linked_in_range(ids, links, current as int, raw@[k] as int, directed);
            }
        }
        let n = graph_node_count(&self.graph);
        let ns = distinct_indices(&raw, n);
        assert(ints(ns@) =~= all);
        let mut j: usize = 0;
        while j < ns.len()
            invariant
                graph_ok(ids, links),
                ids == self.ids(),
                links == self.links(),
                current < ids.len(),
                target < ids.len(),
                budget > 0,
                j <= ns@.len(),
                forall|k: int| 0 <= k < ns@.len() ==> #[trigger] ns@[k] < ids.len(),
                forall|k: int| 0 <= k < path0.len() ==> #[trigger] path0[k] < ids.len(),
                visited@ == vis0,
                vis0.len() == ids.len(),
                on == flagged(vis0),
                path@ == path0,
                keys(results@) == res0 + found(
                    links,
                    ints(ns@).take(j as int),
                    target as int,
                    budget as nat,
                    on,
                    directed,
                ).map_values(|q: Seq<int>| id_path(ids, ints(path0) + q)),
            decreases ns@.len() - j,
        {
            let w = ns[j];
            let ghost before = keys(results@);
            let ghost one = seq![w as int];
            proof {
                assert(ints(ns@).take(j + 1) =~= ints(ns@).take(j as int) + one);
                lemma_found_concat(links, ints(ns@).take(j as int), one, target as int, budget as nat, on, directed);
                assert(one.drop_first() =~= Seq::<int>::empty());
                assert(found(links, Seq::<int>::empty(), target as int, budget as nat, on, directed)
                    =~= Seq::<Seq<int>>::empty());
                assert(one[0] == w as int);
            }
            if w == target {
                path.push(target);
                let found_path = self.ids_of(path);
                results.push(found_path);
                let _ = path.pop();
                proof {
                    assert(ints(path0.push(target)) =~= ints(path0) + seq![target as int]);
                    assert(found(links, one, target as int, budget as nat, on, directed) =~= seq![seq![target as int]]);
                    assert(keys(results@) =~= before.push(id_path(ids, ints(path0) + seq![target as int])));
                }
            } else if !visited[w] {
                visited.set(w, true);
                path.push(w);
                let ghost vis1 = visited@;
                let ghost path1 = path@;
                let ghost res1 = keys(results@);
                self.dfs(w, target, budget - 1, directed, visited, path, results);
                let _ = path.pop();
                visited.set(w, false);
                proof {
                    assert(visited@ =~= vis0);
                    assert(path@ =~= path0);
                    assert(flagged(vis1) =~= on.insert(w as int));
                    let inner = found(
                        links,
                        step_list(links, w as int, directed),
                        target as int,
                        (budget - 1) as nat,
                        on.insert(w as int),
                        directed,
                    );
                    assert(!on.contains(w as int));
                    assert(found(links, one, target as int, budget as nat, on, directed) =~= inner.map_values(
                        |p: Seq<int>| seq![w as int] + p,
                    ));
                    let lhs = inner.map_values(|q: Seq<int>| id_path(ids, ints(path1) + q));
                    let rhs = inner.map_values(|p: Seq<int>| seq![w as int] + p).map_values(
                        |q: Seq<int>| id_path(ids, ints(path0) + q),
                    );
                    assert forall|k: int| 0 <= k < inner.len() implies lhs[k] == rhs[k] by {
                        assert(ints(path1) + inner[k] =~= ints(path0) + (seq![w as int] + inner[k]));
                    }
                    assert(lhs =~= rhs);
                }
            } else {
                proof {
                    assert(on.contains(w as int));
                    assert(found(links, one, target as int, budget as nat, on, directed) =~= Seq::<Seq<int>>::empty());
                }
            }
            proof {
                let f = |q: Seq<int>| id_path(ids, ints(path0) + q);
                let a = found(links, ints(ns@).take(j as int), target as int, budget as nat, on, directed);
                let b = found(links, one, target as int, budget as nat, on, directed);
                assert((a + b).map_values(f) =~= a.map_values(f) + b.map_values(f));
            }
            j = j + 1;
        }
        assert(ints(ns@).take(ns@.len() as int) =~= all);
    }

    /// All paths from `from` to `to` with at most `max_depth` links that visit
    /// no node twice, as lists of ids, each once, in lexicographic order. From
    /// a node to itself, the single one-node path.
    pub fn path(&self, from: &str, to: &str, max_depth: usize, directed: bool) -> (r: Result<
        Vec<Vec<String>>,
        Error,
    >)
        ensures
            graph_ok(self.ids(), self.links()),
            match r {
                Ok(v) => {
                    &&& self.ids().contains(from@)
                    &&& self.ids().contains(to@)
                    &&& sorted_by_key(v@)
                    &&& keys(v@).no_duplicates()
                    &&& keys(v@).to_set() == path_set(
                        self.ids(),
                        self.links(),
                        position(self.ids(), from@),
                        position(self.ids(), to@),
                        max_depth as nat,
                        directed,
                    )
                },
                Err(e) => {
                    &&& !(self.ids().contains(from@) && self.ids().contains(to@))
                    &&& e == (Error::NodeNotFound { id: e->id })
                    &&& e->id@ == missing_of_two(self.ids(), from@, to@)
                },
            },
    {
        proof {
            use_type_invariant(self);
        }
        let s = match self.resolve_node_index(from) {
            Ok(i) => i,
            Err(e) => {
                return Err(e);
            },
        };
        let t = match self.resolve_node_index(to) {
            Ok(i) => i,
            Err(e) => {
                return Err(e);
            },
        };
        let ghost ids = self.ids();
        let ghost links = self.links();
        proof {
            lemma_position(ids, s as int);
            lemma_position(ids, t as int);
        }
        let ghost want = all_paths(links, s as int, t as int, max_depth as nat, directed).map_values(
            |p: Seq<int>| id_path(ids, p),
        );
        if s == t {
            let mut one: Vec<String> = Vec::new();
            one.push(graph_node(&self.graph, s).clone());
            let mut r: Vec<Vec<String>> = Vec::new();
            r.push(one);
            proof {
                assert(all_paths(links, s as int, t as int, max_depth as nat, directed) == seq![seq![s as int]]);
                assert(id_path(ids, seq![s as int]) =~= seq![ids[s as int]]);
                assert(strs_view(one@) =~= seq![ids[s as int]]);
                assert(keys(r@) =~= want);
                assert(keys(r@).to_set() =~= set![seq![ids[s as int]]]) by {
                    assert(keys(r@)[0] == seq![ids[s as int]]);
                }
                assert(sorted_by_key(r@)) by {
                    assert(keys(r@).len() == 1);
                }
            }
            return Ok(r);
        }
        let n = graph_node_count(&self.graph);
        let mut visited = unvisited(n);
        visited.set(s, true);
        let mut path: Vec<usize> = Vec::new();
        path.push(s);
        let mut results: Vec<Vec<String>> = Vec::new();
        proof {
            assert(flagged(visited@) =~= set![s as int]);
            assert(ints(path@) =~= seq![s as int]);
        }
        self.dfs(s, t, max_depth, directed, &mut visited, &mut path, &mut results);
        proof {
            let f = found(links, step_list(links, s as int, directed), t as int, max_depth as nat, set![s as int], directed);
            assert(keys(results@) =~= want) by {
                assert forall|k: int| 0 <= k < f.len() implies keys(results@)[k] == want[k] by {
                    assert(ints(path@) + f[k] =~= seq![s as int] + f[k]);
                }
            }
        }
        let ghost unsorted = results@;
        sort_by_key(&mut results);
        proof {
            lemma_map_multiset(results@, unsorted);
            lemma_same_multiset(keys(results@), keys(unsorted));
            lemma_path_results(ids, links, s as int, t as int, max_depth as nat, directed);
        }
        Ok(results)
    }
}

// ---------------------------------------------------------------------------
// Undirected structure, for centrality scores
// ---------------------------------------------------------------------------

/// The node indices `0..n` for which `keep` holds, in increasing order.
pub open spec fn indices_where(n: nat, keep: spec_fn(int) -> bool) -> Seq<int> {
    Seq::new(n, |i: int| i).filter(keep)
}

/// Holds of the nodes joined to `v` by a link either way, `v` itself included
/// when a link joins it to itself.
pub open spec fn touches(links: Seq<(int, int)>, v: int) -> spec_fn(int) -> bool {
    |u: int| linked(links, v, u, false)
}

/// Holds of the nodes other than `v` joined to `v` by a link either way.
pub open spec fn touches_other(links: Seq<(int, int)>, v: int) -> spec_fn(int) -> bool {
    |u: int| u != v && linked(links, v, u, false)
}

/// Holds of the nodes joined to some node by a link.
pub open spec fn has_link(links: Seq<(int, int)>) -> spec_fn(int) -> bool {
    |v: int| exists|u: int| #[trigger] linked(links, v, u, false)
}

/// Holds of `u` when its flag is set and it is not `skip`.
pub open spec fn flag_set(flags: Seq<bool>, skip: int) -> spec_fn(int) -> bool {
    |u: int| u != skip && flags[u]
}

/// A node's id and its number of distinct neighbours counted either way.
pub open spec fn degree_entry(ids: Seq<Seq<char>>, links: Seq<(int, int)>) -> spec_fn(int) -> (
    Seq<char>,
    nat,
) {
    |v: int| (ids[v], indices_where(ids.len(), touches(links, v)).len())
}

impl KnowledgeGraph {
    /// The node ids, by node index.
    pub fn node_ids(&self) -> (r: Vec<String>)
        ensures
            graph_ok(self.ids(), self.links()),
            views(r@) == self.ids(),
    {
        proof {
            use_type_invariant(self);
        }
        let n = graph_node_count(&self.graph);
        let mut r: Vec<String> = Vec::new();
        let mut k: usize = 0;
        while k < n
            invariant
                n == self.ids().len(),
                k <= n,
                views(r@) == self.ids().take(k as int),
            decreases n - k,
        {
            let ghost before = views(r@);
            r.push(graph_node(&self.graph, k).clone());
            assert(views(r@) =~= before.push(self.ids()[k as int]));
            assert(views(r@) =~= self.ids().take(k + 1));
            k = k + 1;
        }
        assert(self.ids().take(n as int) =~= self.ids());
        r
    }

    /// The indices `u` with `flags[u]` and `u != skip`, in increasing order.
    fn flagged_indices(flags: &Vec<bool>, skip: usize) -> (r: Vec<usize>)
        ensures
            ints(r@) == indices_where(flags@.len(), flag_set(flags@, skip as int)),
    {
        let ghost n = flags@.len();
        let ghost keep = flag_set(flags@, skip as int);
        let mut r: Vec<usize> = Vec::new();
        let mut u: usize = 0;
        while u < flags.len()
            invariant
                n == flags@.len(),
                u <= n,
                keep == flag_set(flags@, skip as int),
                ints(r@) == Seq::new(n, |i: int| i).take(u as int).filter(keep),
            decreases n - u,
        {
            proof {
                let all = Seq::new(n, |i: int| i);
                assert(all.take(u + 1).drop_last() =~= all.take(u as int));
                assert(all.take(u + 1).last() == u as int);
                reveal(Seq::filter);
            }
            if u != skip && flags[u] {
                let ghost before = ints(r@);
                r.push(u);
                assert(ints(r@) =~= before.push(u as int));
            }
            u = u + 1;
        }
        assert(Seq::new(n, |i: int| i).take(n as int) =~= Seq::new(n, |i: int| i));
        r
    }

    /// For each node, the other nodes joined to it by a link either way, in
    /// increasing index order, each once.
    pub fn undirected_adjacency(&self) -> (r: Vec<Vec<usize>>)
        ensures
            graph_ok(self.ids(), self.links()),
            r@.len() == self.ids().len(),
            forall|v: int|
                0 <= v < self.ids().len() ==> ints(#[trigger] r@[v]@) == indices_where(
                    self.ids().len(),
                    touches_other(self.links(), v),
                ),
    {
        proof {
            use_type_invariant(self);
        }
        let n = graph_node_count(&self.graph);
        let mut r: Vec<Vec<usize>> = Vec::new();
        let mut v: usize = 0;
        while v < n
            invariant
                n == self.ids().len(),
                v <= n,
                r@.len() == v,
                forall|w: int|
                    0 <= w < v ==> ints(#[trigger] r@[w]@) == indices_where(
                        n as nat,
                        touches_other(self.links(), w),
                    ),
            decreases n - v,
        {
            let flags = self.linked_flags(v, false);
            let adj = Self::flagged_indices(&flags, v);
            proof {
                let a = flag_set(flags@, v as int);
                let b = touches_other(self.links(), v as int);
                let all = Seq::new(n as nat, |i: int| i);
                assert forall|k: int| 0 <= k < all.len() implies a(#[trigger] all[k]) == b(all[k]) by {}
                lemma_filter_same(all, a, b);
            }
            let ghost before = r@;
            r.push(adj);
            proof {
                assert forall|w: int| 0 <= w < v + 1 implies ints(#[trigger] r@[w]@) == indices_where(
                    n as nat,
                    touches_other(self.links(), w),
                ) by {
                    if w < v {
                        assert(r@[w] == before[w]);
                    }
                }
            }
            v = v + 1;
        }
        r
    }

    /// For each node joined to something by a link, its id and its number of
    /// distinct neighbours counted either way, a node linked to itself
    /// counting itself once; in node index order.
    pub fn degrees(&self) -> (r: Vec<(String, usize)>)
        ensures
            graph_ok(self.ids(), self.links()),
            r@.map_values(|p: (String, usize)| (p.0@, p.1 as nat)) == indices_where(
                self.ids().len(),
                has_link(self.links()),
            ).map_values(degree_entry(self.ids(), self.links())),
    {
        proof {
            use_type_invariant(self);
        }
        let ghost ids = self.ids();
        let ghost links = self.links();
        let n = graph_node_count(&self.graph);
        let ghost f = degree_entry(ids, links);
        let ghost has = has_link(links);
        let ghost all = Seq::new(n as nat, |i: int| i);
        let mut r: Vec<(String, usize)> = Vec::new();
        let mut v: usize = 0;
        while v < n
            invariant
                graph_ok(ids, links),
                ids == self.ids(),
                links == self.links(),
                n == ids.len(),
                v <= n,
                all == Seq::new(n as nat, |i: int| i),
                f == degree_entry(ids, links),
                has == has_link(links),
                r@.map_values(|p: (String, usize)| (p.0@, p.1 as nat)) == all.take(v as int).filter(
                    has,
                ).map_values(f),
            decreases n - v,
        {
            let flags = self.linked_flags(v, false);
            let nbrs = Self::flagged_indices(&flags, n);
            let ghost want = indices_where(ids.len(), touches(links, v as int));
            proof {
                let a = flag_set(flags@, n as int);
                let b = touches(links, v as int);
                assert forall|k: int| 0 <= k < all.len() implies a(#[trigger] all[k]) == b(all[k]) by {}
                lemma_filter_same(all, a, b);
                assert(all.take(v + 1).drop_last() =~= all.take(v as int));
                assert(all.take(v + 1).last() == v as int);
                reveal(Seq::filter);
                if has(v as int) {
                    let u = choose|u: int| #[trigger] linked(links, v as int, u, false);
                    lemma_linked_in_range(ids, links, v as int, u, false);
                    assert(all[u] == u);
                    lemma_filter_contains(all, b, u);
                }
                if want.len() > 0 {
                    lemma_filter_member(all, b, 0);
                    assert(b(want[0]));
                    assert(linked(links, v as int, want[0], false));
                }
            }
            let ghost before = r@.map_values(|p: (String, usize)| (p.0@, p.1 as nat));
            if nbrs.len() > 0 {
                r.push((graph_node(&self.graph, v).clone(), nbrs.len()));
                assert(r@.map_values(|p: (String, usize)| (p.0@, p.1 as nat)) =~= before.push(
                    f(v as int),
                ));
            } else {
                assert(r@.map_values(|p: (String, usize)| (p.0@, p.1 as nat)) =~= before);
            }
            v = v + 1;
        }
        assert(all.take(n as int) =~= all);
        r
    }
}

/// Filtering by two predicates that agree on the elements gives the same result.
proof fn lemma_filter_same<A>(s: Seq<A>, a: spec_fn(A) -> bool, b: spec_fn(A) -> bool)
    requires
        forall|k: int| 0 <= k < s.len() ==> a(#[trigger] s[k]) == b(s[k]),
    ensures
        s.filter(a) == s.filter(b),
    decreases s.len(),
{
    reveal(Seq::filter);
    if s.len() > 0 {
        assert forall|k: int| 0 <= k < s.drop_last().len() implies a(#[trigger] s.drop_last()[k]) == b(
            s.drop_last()[k],
        ) by {
            assert(s.drop_last()[k] == s[k]);
        }
        lemma_filter_same(s.drop_last(), a, b);
        assert(a(s[s.len() - 1]) == b(s[s.len() - 1]));
    }
}

/// An element that satisfies the predicate survives the filter.
proof fn lemma_filter_contains<A>(s: Seq<A>, p: spec_fn(A) -> bool, i: int)
    requires
        0 <= i < s.len(),
        p(s[i]),
    ensures
        s.filter(p).len() > 0,
    decreases s.len(),
{
    reveal(Seq::filter);
    if i < s.len() - 1 {
        assert(s.drop_last()[i] == s[i]);
        lemma_filter_contains(s.drop_last(), p, i);
    }
}

/// Every element left by the filter satisfies the predicate.
proof fn lemma_filter_member<A>(s: Seq<A>, p: spec_fn(A) -> bool, k: int)
    requires
        0 <= k < s.filter(p).len(),
    ensures
        p(s.filter(p)[k]),
{
    s.filter_lemma(p);
}

// ---------------------------------------------------------------------------
// Laws
// ---------------------------------------------------------------------------

/// Ignoring direction, being linked is symmetric.
pub proof fn lemma_undirected_symmetric(links: Seq<(int, int)>, u: int, v: int)
    ensures
        linked(links, u, v, false) == linked(links, v, u, false),
{
    if linked(links, u, v, false) {
        let k = choose|k: int|
            0 <= k < links.len() && (#[trigger] links[k] == (u, v) || links[k] == (v, u));
        assert(linked(links, v, u, false));
    }
    if linked(links, v, u, false) {
        let k = choose|k: int|
            0 <= k < links.len() && (#[trigger] links[k] == (v, u) || links[k] == (u, v));
        assert(linked(links, u, v, false));
    }
}

/// The nodes at distance one from `s` are exactly the other nodes linked to it.
pub proof fn lemma_first_layer(links: Seq<(int, int)>, s: int, v: int, directed: bool)
    requires
        v != s,
    ensures
        layer(links, s, 1, directed).contains(v) <==> linked(links, s, v, directed),
{
    if linked(links, s, v, directed) {
        assert(set![s].contains(s));
        assert(step(links, set![s], directed).contains(v));
    }
}

/// A neighbourhood of depth zero is empty.
pub proof fn lemma_neighbors_depth_zero(
    ids: Seq<Seq<char>>,
    links: Seq<(int, int)>,
    s: int,
    directed: bool,
)
    ensures
        neighbor_entries(ids, links, s, 0, directed) == Set::<(nat, Seq<char>)>::empty(),
{
    assert(neighbor_entries(ids, links, s, 0, directed) =~= Set::<(nat, Seq<char>)>::empty());
}

/// A deeper neighbourhood reports everything a shallower one does.
pub proof fn lemma_neighbors_grow(
    ids: Seq<Seq<char>>,
    links: Seq<(int, int)>,
    s: int,
    depth: nat,
    deeper: nat,
    directed: bool,
)
    requires
        depth <= deeper,
    ensures
        neighbor_entries(ids, links, s, depth, directed).subset_of(
            neighbor_entries(ids, links, s, deeper, directed),
        ),
{
    assert forall|e: (nat, Seq<char>)| #[trigger] neighbor_entries(ids, links, s, depth, directed).contains(e)
        implies neighbor_entries(ids, links, s, deeper, directed).contains(e) by {
        let v = choose|v: int|
            0 <= v < ids.len() && 1 <= e.0 <= depth && #[trigger] layer(links, s, e.0, directed).contains(
                v,
            ) && e.1 == ids[v];
    }
}

/// Shared neighbours do not depend on the order of the two nodes.
pub proof fn lemma_shared_symmetric(
    ids: Seq<Seq<char>>,
    links: Seq<(int, int)>,
    a: int,
    b: int,
    directed: bool,
)
    ensures
        shared_ids(ids, links, a, b, directed) == shared_ids(ids, links, b, a, directed),
{
    let x = shared_ids(ids, links, a, b, directed);
    let y = shared_ids(ids, links, b, a, directed);
    assert forall|id: Seq<char>| x.contains(id) implies y.contains(id) by {
        let v = choose|v: int|
            0 <= v < ids.len() && v != a && v != b && #[trigger] linked(links, a, v, directed)
                && linked(links, b, v, directed) && id == ids[v];
        assert(linked(links, b, v, directed));
    }
    assert forall|id: Seq<char>| y.contains(id) implies x.contains(id) by {
        let v = choose|v: int|
            0 <= v < ids.len() && v != b && v != a && #[trigger] linked(links, b, v, directed)
                && linked(links, a, v, directed) && id == ids[v];
        assert(linked(links, a, v, directed));
    }
    assert(x =~= y);
}

/// Every seed belongs to its subgraph.
pub proof fn lemma_reached_has_seeds(links: Seq<(int, int)>, seeds: Seq<int>, depth: nat, directed: bool, i: int)
    requires
        0 <= i < seeds.len(),
    ensures
        reached(links, seeds, depth, directed).contains(seeds[i]),
{
    lemma_within_grows(links, seeds[i], 0, depth, directed);
    assert(within(links, seeds[i], 0, directed).contains(seeds[i]));
}

/// A node within `depth` links of any one seed belongs to the subgraph,
/// whatever the other seeds are and in whatever order they come.
pub proof fn lemma_reached_from_each_seed(
    links: Seq<(int, int)>,
    seeds: Seq<int>,
    depth: nat,
    directed: bool,
    i: int,
    v: int,
)
    requires
        0 <= i < seeds.len(),
        within(links, seeds[i], depth, directed).contains(v),
    ensures
        reached(links, seeds, depth, directed).contains(v),
{
}

/// Every link of a subgraph joins two of its nodes.
pub proof fn lemma_induced_links(
    ids: Seq<Seq<char>>,
    links: Seq<(int, int)>,
    keep: Set<int>,
    k: int,
)
    requires
        0 <= k < induced(ids, links, keep).len(),
    ensures
        exists|u: int, v: int|
            #[trigger] keep.contains(u) && #[trigger] keep.contains(v) && induced(ids, links, keep)[k] == (
                ids[u],
                ids[v],
            ),
{
    let pred = |l: (int, int)| keep.contains(l.0) && keep.contains(l.1);
    let f = links.filter(pred);
    links.filter_lemma(pred);
    assert(pred(f[k]));
    assert(induced(ids, links, keep)[k] == (ids[f[k].0], ids[f[k].1]));
}

/// The subgraph depends on which seeds are given, not on their order or repeats.
pub proof fn lemma_reached_seed_order(
    links: Seq<(int, int)>,
    a: Seq<int>,
    b: Seq<int>,
    depth: nat,
    directed: bool,
)
    requires
        a.to_set() == b.to_set(),
    ensures
        reached(links, a, depth, directed) == reached(links, b, depth, directed),
{
    let ra = reached(links, a, depth, directed);
    let rb = reached(links, b, depth, directed);
    assert forall|v: int| ra.contains(v) implies rb.contains(v) by {
        let i = choose|i: int| 0 <= i < a.len() && #[trigger] within(links, a[i], depth, directed).contains(v);
        assert(a.to_set().contains(a[i]));
        assert(b.contains(a[i]));
        let j = choose|j: int| 0 <= j < b.len() && b[j] == a[i];
        assert(within(links, b[j], depth, directed).contains(v));
    }
    assert forall|v: int| rb.contains(v) implies ra.contains(v) by {
        let j = choose|j: int| 0 <= j < b.len() && #[trigger] within(links, b[j], depth, directed).contains(v);
        assert(b.to_set().contains(b[j]));
        assert(a.contains(b[j]));
        let i = choose|i: int| 0 <= i < a.len() && a[i] == b[j];
        assert(within(links, a[i], depth, directed).contains(v));
    }
    assert(ra =~= rb);
}

/// `shared` gives the same list whichever of the two nodes comes first: a
/// sorted list without repeats of the shared neighbours' ids is one list.
pub proof fn lemma_shared_results_symmetric(
    ids: Seq<Seq<char>>,
    links: Seq<(int, int)>,
    a: int,
    b: int,
    directed: bool,
    r1: Seq<Seq<char>>,
    r2: Seq<Seq<char>>,
)
    requires
        r1.no_duplicates(),
        r2.no_duplicates(),
        sorted_by(r1, le_of(str_order())),
        sorted_by(r2, le_of(str_order())),
        r1.to_set() == shared_ids(ids, links, a, b, directed),
        r2.to_set() == shared_ids(ids, links, b, a, directed),
    ensures
        r1 == r2,
{
    lemma_shared_symmetric(ids, links, a, b, directed);
    lemma_str_order();
    lemma_sorted_sets_equal(r1, r2, str_order());
}

} // verus!
