# prc — Primary relational cell

A verified library for declared relational topologies and the integer-valued
decisions of the Primary kernel E_primary = Σ(Δ(x)).

* `src/topology.rs` — declared loci and directed edges with provenance
  (`Persistence` is refused spatially), the adjacency lists derived from them
  (out/in per locus, successors/predecessors per edge), propagation capacity
  C_X, and the ten canonical fixtures F1–F10.
* `src/cycle.rs` — undirected-cycle detection (report only) by depth-first
  search, proved equal to "some edge's endpoints stay connected without it".
* `src/kernel.rs` — ρ_P classification, failure modes FM1/FM2, expression
  condition, incident edges used by ρ.
* `src/admissibility.rs` — pre-evaluation failures and the circulation
  cancellation finding, kept apart, and the integer summary of each
  experiment record (`summarize_record`: k is the component count).
* `src/node_field.rs` — observation classes and node-field shape rules.
* `src/experiment.rs` — the single-step gate, Origin-declared inputs, and the
  plans of the k-matrix, intervention-atlas and closure-removal sweeps.

`app/` holds the real-valued operators (Δ, ρ, Σ, antisymmetric term, SVD rank
through nalgebra), the JSON run records, and the three programs
(`simulate`, `v02_sweep`, `quantum_dot_sim`), selected by the first argument.
