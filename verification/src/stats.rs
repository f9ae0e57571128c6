use vstd::prelude::*;

verus! {

/// What the parallel code splitter has counted and timed.
#[derive(Clone, Copy, Debug, PartialEq, Eq, Structural)]
pub struct ParallelCodeSplitterStats {
    pub delayed_rounds: u32,
    pub delayed_actions: u32,
    pub parallel_batches: u32,
    pub parallel_jobs: u32,
    pub serial_actions: u32,
    pub stale_jobs: u32,
    pub processed_queue_items: u32,
    pub processed_blocks: u32,
    pub committed_modules: u32,
    pub global_pre_order_candidates: u32,
    pub global_post_order_candidates: u32,
    pub global_pre_order_checks: u32,
    pub global_post_order_checks: u32,
    pub local_cache_entries: u32,
    pub cached_block_entries: u32,
    pub max_batch_size: u32,
    pub walk_time_ns: u64,
    pub commit_time_ns: u64,
    pub cache_time_ns: u64,
    pub chunk_graph_time_ns: u64,
    pub chunk_group_order_time_ns: u64,
    pub global_order_time_ns: u64,
    pub async_blocks_time_ns: u64,
    pub skipped_items_time_ns: u64,
}

impl ParallelCodeSplitterStats {
    /// Nothing counted and nothing timed.
    pub open spec fn zero() -> ParallelCodeSplitterStats {
        ParallelCodeSplitterStats {
            delayed_rounds: 0,
            delayed_actions: 0,
            parallel_batches: 0,
            parallel_jobs: 0,
            serial_actions: 0,
            stale_jobs: 0,
            processed_queue_items: 0,
            processed_blocks: 0,
            committed_modules: 0,
            global_pre_order_candidates: 0,
            global_post_order_candidates: 0,
            global_pre_order_checks: 0,
            global_post_order_checks: 0,
            local_cache_entries: 0,
            cached_block_entries: 0,
            max_batch_size: 0,
            walk_time_ns: 0,
            commit_time_ns: 0,
            cache_time_ns: 0,
            chunk_graph_time_ns: 0,
            chunk_group_order_time_ns: 0,
            global_order_time_ns: 0,
            async_blocks_time_ns: 0,
            skipped_items_time_ns: 0,
        }
    }
}

impl Default for ParallelCodeSplitterStats {
    fn default() -> (stats: ParallelCodeSplitterStats)
        ensures
            stats == ParallelCodeSplitterStats::zero(),
    {
        ParallelCodeSplitterStats {
            delayed_rounds: 0,
            delayed_actions: 0,
            parallel_batches: 0,
            parallel_jobs: 0,
            serial_actions: 0,
            stale_jobs: 0,
            processed_queue_items: 0,
            processed_blocks: 0,
            committed_modules: 0,
            global_pre_order_candidates: 0,
            global_post_order_candidates: 0,
            global_pre_order_checks: 0,
            global_post_order_checks: 0,
            local_cache_entries: 0,
            cached_block_entries: 0,
            max_batch_size: 0,
            walk_time_ns: 0,
            commit_time_ns: 0,
            cache_time_ns: 0,
            chunk_graph_time_ns: 0,
            chunk_group_order_time_ns: 0,
            global_order_time_ns: 0,
            async_blocks_time_ns: 0,
            skipped_items_time_ns: 0,
        }
    }
}

/// A total of nanoseconds after the time from one reading of a clock to another was added: totals
/// have 64 bits and start over from zero.
pub open spec fn time_sum(total: u64, start: u64, end: u64) -> u64 {
    ((total + end - start) % 0x1_0000_0000_0000_0000) as u64
}

/// Whether `after` is `total` with the time since `start` added, as read from the clock, where there
/// is a start.
pub open spec fn timed<C: Fn() -> u64>(
    clock: &C,
    start: Option<u64>,
    total: u64,
    after: u64,
) -> bool {
    match start {
        Some(start) => exists|end: u64| #[trigger]
            call_ensures(clock, (), end) && after == time_sum(total, start, end),
        None => after == total,
    }
}

/// Whether `start` is a reading of the clock, taken only to measure.
pub open spec fn timer_started<C: Fn() -> u64>(
    clock: &C,
    measure: bool,
    start: Option<u64>,
) -> bool {
    match start {
        Some(start) => measure && call_ensures(clock, (), start),
        None => !measure,
    }
}

/// Reads the clock, where there is something to measure.
pub fn start_timer<C: Fn() -> u64>(measure: bool, clock: &C) -> (start: Option<u64>)
    requires
        call_requires(clock, ()),
    ensures
        timer_started(clock, measure, start),
{
    if measure {
        Some(clock())
    } else {
        None
    }
}

/// A total of nanoseconds with the time since `start`, where there is a start.
pub fn stop_timer<C: Fn() -> u64>(total: u64, start: Option<u64>, clock: &C) -> (after: u64)
    requires
        call_requires(clock, ()),
    ensures
        timed(clock, start, total, after),
{
    match start {
        Some(start) => {
            let end: u64 = clock();
            let after: u64 = total.wrapping_add(end.wrapping_sub(start));
            assert(after == time_sum(total, start, end));
            after
        },
        None => total,
    }
}

} // verus!
