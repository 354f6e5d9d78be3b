# gstools_core

Direct sampling for multiple-point statistics, verified with Verus.

A simulation fills the cells of a grid one by one. For each cell it gathers the known values
around it, looks for a place in a training image where these values are matched, and copies the
value found there. Cells that do not depend on each other form a level, and are simulated in
parallel.

## Layout

* `src/word.rs`, `src/arithmetic.rs`: binary64 numbers as 64-bit words, and the rounding
  operations as a trait of which nothing is assumed.
* `src/index.rs`, `src/grid.rs`, `src/image.rs`: row-major indices, grids of values, and the
  training image.
* `src/distance.rs`, `src/scan.rs`, `src/mps.rs`: distances between an event and an anchor, and
  the scan of a window.
* `src/window.rs`, `src/event.rs`, `src/weights.rs`, `src/neighbors.rs`: search windows, data
  events, their weights, and what the nodes of a path look at.
* `src/setup.rs`, `src/gathering.rs`, `src/fitting.rs`, `src/search.rs`, `src/retrieval.rs`,
  `src/node.rs`: the simulation of one node, step by step.
* `src/mps_engine.rs`, `src/messages.rs`, `src/pool.rs`: the simulation of a path, what is said
  when it fails, and the threads that it runs on.
* `src/guarantees.rs`, `src/determinism.rs`, `src/order.rs`: what holds of every simulation.
  Known values are kept, the cells of the path receive numbers, the outcome does not depend on
  the number of threads, and levels lead where the path would have led cell by cell.
* `app/`: Python bindings, with the arithmetic of the machine.

## What is taken on trust

`src/grid.rs` states what a few functions of `ndarray` do, and `src/pool.rs` what a `rayon` pool
does. Everything else in `src/` is proved.

Two things are left to the caller, and nothing is assumed of them: the rounding operations
(`arithmetic::Arithmetic`), and the distance between an event and an anchor by which a simulation
scans (`setup::Metric`). Contracts speak of their outcomes. That a simulation comes to the same
result on any number of threads is proved where each rounding operation and each distance has one
outcome.
