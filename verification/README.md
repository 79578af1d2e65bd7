# backend

Dispatch logic of a tow-truck service, verified with Verus.

- `src/models/graph.rs`: the road graph of an area (crossings by id, roads in a
  `dashmap::DashMap` adjacency table), adding crossings and roads, updating
  road weights, and the search for the nearest available tow truck.
- `src/models/paths.rs`: walks, their costs, and what "nearest" means.
- `src/models/search.rs`: the frontier of the search and the proof that it is
  sound and complete, and reports a distance that would not fit in an `i32`.
- `src/models/laws.rs`, `src/cache/laws.rs`: properties kept across calls.
- `src/cache/`: the per-area caches of crossings, roads, graphs, and images.
- `src/domains/`: the tow-truck service and its decisions.
- `src/edge_table.rs`: the trusted interface to `dashmap`.
- `app/`: globals, database rows, repositories and the async service.
