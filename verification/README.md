# dom_traverse

A DOM traversal service: HTML text is read into a tree under a synthetic
`document` root, a CSS selector (type, `.class`, `#id`, `[key=value]`, `*`,
joined by descendant, `>`, `+` and `~` combinators) is matched against its
nodes, and the tree is searched breadth-first or depth-first for the first
node the selector matches.

The library under `src/` is verified with Verus:

- `text` — whitespace, ASCII case folding, trimming, number reading.
- `domnode`, `tree` — nodes and the tree, with the shape the reader builds.
- `lca` — lowest common ancestors by binary lifting.
- `parser` — the tolerant HTML reader.
- `selector` — selector parsing and matching.
- `search` — the visiting orders of the searches and their laws.
- `bfs`, `dfs`, `p` — the searches, and the pieces the concurrent searches
  are built from.
- `service` — the decisions of the HTTP service.
- `clock` — wall-clock time for the searches' metrics.

`app/main.rs` is the HTTP server (axum): it fetches HTML with reqwest,
answers with JSON, and runs the concurrent searches on threads.
