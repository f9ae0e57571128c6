use vstd::prelude::*;

use crate::splitter::CodeSplitter;
use crate::stats::ParallelCodeSplitterStats;

verus! {

/// What is logged of the statistics: the counters and then the times, each under its label.
#[derive(Debug)]
pub struct StatsReport {
    pub counters: Vec<(&'static str, u32)>,
    pub times_ns: Vec<(&'static str, u64)>,
}

/// The counters under their labels, in the order in which they are logged.
pub open spec fn labelled_counters(stats: ParallelCodeSplitterStats) -> Seq<(&'static str, u32)> {
    seq![
        ("delayed_rounds", stats.delayed_rounds),
        ("delayed_actions", stats.delayed_actions),
        ("parallel_batches", stats.parallel_batches),
        ("parallel_jobs", stats.parallel_jobs),
        ("serial_actions", stats.serial_actions),
        ("stale_jobs", stats.stale_jobs),
        ("processed_queue_items", stats.processed_queue_items),
        ("processed_blocks", stats.processed_blocks),
        ("committed_modules", stats.committed_modules),
        ("global_pre_candidates", stats.global_pre_order_candidates),
        ("global_post_candidates", stats.global_post_order_candidates),
        ("global_pre_checks", stats.global_pre_order_checks),
        ("global_post_checks", stats.global_post_order_checks),
        ("local_cache_entries", stats.local_cache_entries),
        ("cached_block_entries", stats.cached_block_entries),
        ("max_batch_size", stats.max_batch_size),
    ]
}

/// The times under their labels, in the order in which they are logged.
pub open spec fn labelled_times(stats: ParallelCodeSplitterStats) -> Seq<(&'static str, u64)> {
    seq![
        ("walk_ms", stats.walk_time_ns),
        ("commit_ms", stats.commit_time_ns),
        ("cache_ms", stats.cache_time_ns),
        ("chunk_graph_ms", stats.chunk_graph_time_ns),
        ("chunk_group_order_ms", stats.chunk_group_order_time_ns),
        ("global_order_ms", stats.global_order_time_ns),
        ("async_blocks_ms", stats.async_blocks_time_ns),
        ("skipped_items_ms", stats.skipped_items_time_ns),
    ]
}

/// What is to be logged of the statistics, where they are switched on.
pub fn log_stats(splitter: &CodeSplitter) -> (report: Option<StatsReport>)
    ensures
        match report {
            Some(report) => {
                &&& splitter.parallel_state.stats_enabled
                &&& report.counters@ == labelled_counters(splitter.parallel_state.stats)
                &&& report.times_ns@ == labelled_times(splitter.parallel_state.stats)
            },
            None => !splitter.parallel_state.stats_enabled,
        },
{
    if !splitter.parallel_state.stats_enabled {
        return None;
    }
    let stats = &splitter.parallel_state.stats;
    let counters: Vec<(&'static str, u32)> = vec![
        ("delayed_rounds", stats.delayed_rounds),
        ("delayed_actions", stats.delayed_actions),
        ("parallel_batches", stats.parallel_batches),
        ("parallel_jobs", stats.parallel_jobs),
        ("serial_actions", stats.serial_actions),
        ("stale_jobs", stats.stale_jobs),
        ("processed_queue_items", stats.processed_queue_items),
        ("processed_blocks", stats.processed_blocks),
        ("committed_modules", stats.committed_modules),
        ("global_pre_candidates", stats.global_pre_order_candidates),
        ("global_post_candidates", stats.global_post_order_candidates),
        ("global_pre_checks", stats.global_pre_order_checks),
        ("global_post_checks", stats.global_post_order_checks),
        ("local_cache_entries", stats.local_cache_entries),
        ("cached_block_entries", stats.cached_block_entries),
        ("max_batch_size", stats.max_batch_size),
    ];
    let times_ns: Vec<(&'static str, u64)> = vec![
        ("walk_ms", stats.walk_time_ns),
        ("commit_ms", stats.commit_time_ns),
        ("cache_ms", stats.cache_time_ns),
        ("chunk_graph_ms", stats.chunk_graph_time_ns),
        ("chunk_group_order_ms", stats.chunk_group_order_time_ns),
        ("global_order_ms", stats.global_order_time_ns),
        ("async_blocks_ms", stats.async_blocks_time_ns),
        ("skipped_items_ms", stats.skipped_items_time_ns),
    ];
    assert(counters@ =~= labelled_counters(*stats));
    assert(times_ns@ =~= labelled_times(*stats));
    Some(StatsReport { counters, times_ns })
}

} // verus!
