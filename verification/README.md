# hodge-consensus

Hodge decomposition of multi-agent consensus: every disagreement on an
opinion graph splits into a gradient part (already resolved), a curl part
(cyclic, resolves) and a harmonic part (persists because of the graph's
topology).

## Layout

- `src/` — the verified library (Verus). It holds the combinatorial side of
  the decomposition, with contracts and proofs:
  - `graph`: opinion graphs, generic in the weight type; agents stay unique,
    every edge joins known agents, complete and ring graphs.
  - `decomposition`: adjacency lists, the depth-first search for simple
    cycles (sound and complete up to the depth bound), deduplication of
    cycles, and the signed indicator of a cycle on the edges.
  - `harmonic`: connected components by union-find (two agents share a
    component exactly when a walk joins them), their canonical order, the
    isolated agents and the dimension of the harmonic space.
  - `prediction`: which component dominates a dispute, whether it resolves,
    and the counts of a prediction report.
  - `flow`: edge flows on numbered graphs and where comparisons land.
  - `error`, `text`: the error type and its messages.
- `app/` — the numeric layer in plain Rust: the `f64` matrices (Laplacian,
  adjacency, incidence), the least-squares solve and the projections of the
  decomposition, consensus iterations, rankings, and serde support.
- `tests/` — tests of the library.
