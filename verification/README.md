# argus

The data and analyses behind a trait-error debugger, verified with Verus.

- `src/proof_tree`: packed proof-tree nodes, the parent/child topology of a
  proof tree, the interning tables for goals, candidates and results, and the
  decision steps of the proof-tree visitor.
- `src/aadebug`: correction-set analysis; formulas in disjunctive normal form
  over failed goals, the analysis tree, and the cost of each correction set.
- `src/analysis`: binning the obligations of a body by expression, attaching
  reported errors to expressions, and the per-body obligation store.
- `src/types.rs`, `src/ext.rs`: evaluation results, obligations and their
  necessity.
- `app/`: the serialized forms sent to the frontend (serde and ts-rs).

`src/` is verified by Verus; `app/` is ordinary Rust.
