# kg_core

The verified core of `kg`, a command-line tool over the link graph of an
Obsidian-style Markdown vault.

- `src/` — the library, proved with Verus:
  - `text`, `order`: string helpers and a verified sort with the
    orders that `String` and `Vec<String>` use.
  - `wiki_links`: finding `[[links]]` outside code.
  - `front`, `parser`: front-matter values, tags, titles, first paragraphs,
    link contexts, and whole notes.
  - `resolve`: link resolution (exact path, unique stem, path suffix, first
    candidate) and name lookup in tiers.
  - `indexer`: which files an incremental index must re-read, and its summary.
  - `digraph`, `graph`: the link graph (petgraph) and its queries:
    neighbourhoods, paths, shared neighbours, subgraphs, and the undirected
    structure used by centrality scores.
  - `cli`, `error`: settling what a command line asks for, and errors.
- `app/` — the `kg` program: argument parsing, the SQLite store, reading the
  vault from disk, JSON output, and the floating-point centrality scores.
- `tests/` — tests of the library.
