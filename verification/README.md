# nexus_flow

Back end of a production-line editor: the topology model, a process graph
built from it and its analyses, and the decisions of the message server,
written in Verus and proved against their contracts.

## Layout

- `src/models.rs` – topology data model (nodes, edges, settings).
- `src/digraph.rs` – directed graphs as adjacency lists: walks,
  reachability, cycles and the counting facts used by the proofs.
- `src/edges.rs` – how a topology's edges become adjacency lists (edge ends
  resolved to node indices, lists kept in edge order).
- `src/graph.rs` – `ProcessGraph`: construction from a topology, node and
  edge counts, breadth-first and depth-first traversals in both directions,
  dependency chains, topological sort and bottleneck ranking.
- `src/bfs.rs`, `src/dfs.rs`, `src/kahn.rs` – the three traversal
  algorithms with the orders they produce stated declaratively
  (breadth-first), as a recursive definition (depth-first preorder) and by
  release points (Kahn's algorithm with a first-in first-out queue).
- `src/laws.rs` – properties relating the analyses: one breadth-first order,
  one Kahn order and one ranking per graph; breadth-first and depth-first
  traversals visit the same nodes; backward traversal finds the upstream
  nodes; what a dependency chain holds; edge counts.
- `src/config.rs` – server settings from environment values.
- `src/messages.rs`, `src/session.rs` – replies and request decisions of the
  WebSocket protocol.
- `app/` – the server program: environment and `.env` loading, logging,
  JSON (serde) copies of the model and messages, the WebSocket loop and the
  Supabase client.
- `tests/` – tests of the library.
