# Parallel code splitting

A bundler's code splitter collects the modules of each chunk by walking the module graph from the blocks
that are imported. This library decides which delayed roots can be walked side by side, walks them, and
commits what the walks bring in the order of the roots. It is written in Rust and verified with Verus.

- `src/schedule.rs` takes the delayed queue apart into batches and single actions.
- `src/batch.rs` and `src/walk.rs` make the jobs of a batch and walk a root depth first, without changing
  anything that another walk reads. `src/walk_model.rs` says what one step of a walk does.
- `src/commit.rs` finds out which results are stale, shares what the walks have extracted, and commits a
  result: the chunk's mask, and the places of its modules, which `src/order.rs` gives out.
- `src/chunk_graph.rs` says which task of building a chunk graph follows on which.
- `src/splitter.rs`, `src/stats.rs` and `src/report.rs` hold the state, the statistics and what is logged
  of them.
- `src/*_laws.rs` state what holds of these together. `src/batch_model.rs` says how a batch is processed
  from beginning to end, with what the bundler does in between.
- `src/mask.rs`, `src/fx.rs` and one function of `src/schedule.rs` call `num-bigint`, `rustc-hash` and
  `rayon`. What is claimed of those crates is written there, and is not proved.

`app/` runs the library inside a bundler: it reads the environment and the clock, walks a batch on the
threads of a pool, and prints the statistics. What only the bundler can do is behind its `Bundler` trait.
