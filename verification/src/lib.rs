//! Core of a read-only knowledge-graph tool for Markdown vaults.

pub mod text;
pub mod order;
pub mod wiki_links;
pub mod front;
pub mod types;
pub mod parser;
pub mod resolve;
pub mod error;
pub mod cli;
pub mod indexer;
pub mod digraph;
pub mod graph;
