# ptg

A verified core for a prompt-based cortical mesh simulator: columns that
each hold a domain prompt, a lateral wiring between them, routing of
neighbour predictions into each column's prompt, the consensus-loop
control, and the benchmark and judge bookkeeping around it.

## Layout

- `src/` — the library, verified with Verus.
  - `topology.rs` — lateral edge generators (ring, bidirectional ring,
    torus, fully connected, seeded small world) with their graph laws.
  - `column.rs` — columns, domain spheres, the reference columns and edges.
  - `mesh.rs` — the mesh: adding columns, wiring, tick recording, lateral
    source selection, context and prompt rendering, mesh builders.
  - `consensus.rs` — the epoch control state machine and prediction tokens.
  - `stimulus.rs` — the stimulus broadcast to the columns: text, or text
    with image parts.
  - `cli.rs`, `pack.rs`, `setup.rs` — topology planning from command-line
    parameters, column packs, and the setup/serve decisions.
  - `bench.rs`, `judge.rs` — benchmark run ordering, usage roll-ups and
    summary statistics; pair screening, edit distance and verdict handling.
  - `text.rs`, `order.rs` — character-level helpers and orderings.
- `tests/` — executable tests of the library.
- `app/` — the `ptg`, `ptg-bench` and `ptg-judge` programs: argument
  parsing, HTTP, files, async epoch driving, and floating-point metrics.
