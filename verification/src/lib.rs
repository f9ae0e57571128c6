//! Splitting code in parallel: the delayed roots of chunk groups are walked side by side, each without
//! touching what another one reads, and what the walks bring is committed in the order of the roots.

pub mod basic_laws;
pub mod batch;
pub mod batch_laws;
pub mod batch_model;
pub mod block_map;
pub mod chunk_graph;
pub mod commit;
pub mod commit_effects;
pub mod commit_laws;
pub mod counter;
pub mod depth_first;
pub mod fx;
pub mod graph;
pub mod mask;
pub mod order;
pub mod order_laws;
pub mod queue;
pub mod report;
pub mod round_laws;
pub mod schedule;
pub mod schedule_laws;
pub mod splitter;
pub mod stats;
pub mod stats_laws;
pub mod trace_laws;
pub mod walk;
pub mod walk_laws;
pub mod walk_model;
