//! The records the library produces: parsed notes and links, graph query results.

use vstd::prelude::*;

use crate::front::FrontValue;

verus! {

/// A parsed note. `id` is its path relative to the vault root.
#[derive(Debug)]
pub struct ParsedNode {
    pub id: String,
    pub title: String,
    pub tags: Vec<String>,
    pub frontmatter: FrontValue,
    pub first_paragraph: String,
}

/// A link from a note, with the paragraph it was written in.
#[derive(Debug, Clone, PartialEq)]
pub struct ParsedEdge {
    pub source: String,
    pub target_raw: String,
    pub context: String,
}

impl View for ParsedEdge {
    type V = (Seq<char>, Seq<char>, Seq<char>);

    open spec fn view(&self) -> Self::V {
        (self.source@, self.target_raw@, self.context@)
    }
}

/// One item of a vault parse: a note, or a link from a note.
#[derive(Debug)]
pub enum ParseEvent {
    Node(ParsedNode),
    Edge(ParsedEdge),
}

/// A node reached from a start node, with its distance in links.
#[derive(Debug, Clone, PartialEq)]
pub struct NeighborEntry {
    pub id: String,
    pub depth: usize,
}

impl View for NeighborEntry {
    type V = (nat, Seq<char>);

    open spec fn view(&self) -> Self::V {
        (self.depth as nat, self.id@)
    }
}

/// A node of an extracted subgraph.
#[derive(Debug, Clone, PartialEq)]
pub struct SubgraphNode {
    pub id: String,
    pub is_stub: bool,
}

impl View for SubgraphNode {
    type V = (Seq<char>, bool);

    open spec fn view(&self) -> Self::V {
        (self.id@, self.is_stub)
    }
}

/// A link of an extracted subgraph.
#[derive(Debug, Clone, PartialEq)]
pub struct SubgraphEdge {
    pub source: String,
    pub target: String,
}

impl View for SubgraphEdge {
    type V = (Seq<char>, Seq<char>);

    open spec fn view(&self) -> Self::V {
        (self.source@, self.target@)
    }
}

/// An extracted subgraph: its nodes and the links among them.
#[derive(Debug, Clone, PartialEq)]
pub struct Subgraph {
    pub nodes: Vec<SubgraphNode>,
    pub edges: Vec<SubgraphEdge>,
}

/// Counts over an indexed vault.
#[derive(Debug, Clone, PartialEq)]
pub struct Stats {
    pub nodes: i64,
    pub stubs: i64,
    pub edges: i64,
    pub tags: i64,
}

} // verus!
