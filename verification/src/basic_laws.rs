use vstd::prelude::*;

use std::sync::Arc;

use crate::batch::inputs_of;
use crate::chunk_graph::{BuildTask, CodeSplitterStatsPhase, first_task, recorded, task_after};
use crate::commit::phase_timed;
use crate::commit_effects::{same_but_stats, same_counts, same_times};
use crate::counter::counter_sum;
use crate::graph::{BlockModules, CgiUkey, DependenciesBlockIdentifier, RuntimeKey};
use crate::queue::{ProcessBlock, QueueAction};
use crate::report::{labelled_counters, labelled_times};
use crate::schedule::{
    DelayedQueue, action_queued, batch_counted, known_action, taken, with_stats,
};
use crate::splitter::{ChunkGroupInfo, CodeSplitter, switched_on};
use crate::stats::{ParallelCodeSplitterStats, time_sum, timed, timer_started};
use crate::walk_model::{cache_after, insert_all, modules_of, needs_extraction};

verus! {

/// A counter goes up by what is added, and starts over from zero past its largest value: adding twice is
/// adding the sum, and adding nothing changes nothing.
pub proof fn law_counters_add(counter: u32, a: int, b: int)
    requires
        0 <= a,
        0 <= b,
    ensures
        counter + a <= u32::MAX ==> counter_sum(counter, a) == counter + a,
        counter_sum(counter_sum(counter, a), b) == counter_sum(counter, a + b),
        counter_sum(counter, 0) == counter,
        counter_sum(u32::MAX, 1) == 0,
{
}

/// A total of nanoseconds grows by what lies between two readings of a clock, and starts over from zero past
/// its largest value: adding from one reading to the next, and then on to a third, is adding from the
/// first to the third.
pub proof fn law_times_add(total: u64, start: u64, end: u64, later: u64)
    requires
        start <= end,
    ensures
        total + (end - start) <= u64::MAX ==> time_sum(total, start, end) == total + (end - start),
        total + (end - start) > u64::MAX ==> time_sum(total, start, end) == total + (end - start)
            - u64::MAX - 1,
        time_sum(time_sum(total, start, end), end, later) == time_sum(total, start, later),
        time_sum(total, start, start) == total,
{
}

/// Where nothing is measured no time is added. Where something is, the time is added that lies between two
/// readings of the clock.
pub proof fn law_only_what_is_measured_takes_time<C: Fn() -> u64>(
    clock: &C,
    measure: bool,
    start: Option<u64>,
    total: u64,
    after: u64,
)
    ensures
        timer_started(clock, measure, start) ==> (start is Some <==> measure),
        timer_started(clock, measure, start) && measure ==> call_ensures(clock, (), start->0),
        timed(clock, None, total, after) ==> after == total,
        phase_timed(clock, false, total, after) ==> after == total,
        start is Some && timed(clock, start, total, after) ==> exists|end: u64| #[trigger]
            call_ensures(clock, (), end) && after == time_sum(total, start->0, end),
        phase_timed(clock, true, total, after) ==> exists|begin: u64, end: u64|
            #![trigger call_ensures(clock, (), begin), call_ensures(clock, (), end)]
            call_ensures(clock, (), begin) && call_ensures(clock, (), end) && after == time_sum(
                total,
                begin,
                end,
            ),
{
    if phase_timed(clock, true, total, after) {
        let start = choose|start: Option<u64>| #[trigger]
            timer_started(clock, true, start) && timed(clock, start, total, after);
        let begin = start->0;
        assert(call_ensures(clock, (), begin));
        let end = choose|end: u64| #[trigger]
            call_ensures(clock, (), end) && after == time_sum(total, begin, end);
        assert(call_ensures(clock, (), end));
    }
}

/// Only two values switch something off: the empty one and `0`.
pub proof fn law_two_values_switch_off(value: Seq<u8>)
    ensures
        value.len() == 0 ==> !switched_on(value),
        value.len() == 1 ==> (switched_on(value) <==> value[0] != 0x30),
        value.len() >= 2 ==> switched_on(value),
{
    if value.len() == 1 && value[0] == 0x30 {
        assert(value =~= seq![0x30u8]);
    }
}

/// Nothing is counted and nothing is timed at the beginning.
pub proof fn law_statistics_begin_at_nothing()
    ensures
        ({
            let stats = ParallelCodeSplitterStats::zero();
            &&& stats.delayed_rounds == 0 && stats.delayed_actions == 0
            &&& stats.parallel_batches == 0 && stats.parallel_jobs == 0
            &&& stats.serial_actions == 0 && stats.stale_jobs == 0
            &&& stats.processed_queue_items == 0 && stats.processed_blocks == 0
            &&& stats.committed_modules == 0
            &&& stats.global_pre_order_candidates == 0
            &&& stats.global_post_order_candidates == 0
            &&& stats.global_pre_order_checks == 0
            &&& stats.global_post_order_checks == 0
            &&& stats.local_cache_entries == 0 && stats.cached_block_entries == 0
            &&& stats.max_batch_size == 0
            &&& stats.walk_time_ns == 0 && stats.commit_time_ns == 0
            &&& stats.cache_time_ns == 0 && stats.chunk_graph_time_ns == 0
            &&& stats.chunk_group_order_time_ns == 0 && stats.global_order_time_ns == 0
            &&& stats.async_blocks_time_ns == 0 && stats.skipped_items_time_ns == 0
        }),
{
}

/// Each counter is logged under its own label, and so is each time.
pub proof fn law_everything_is_logged_under_its_label(stats: ParallelCodeSplitterStats)
    ensures
        labelled_counters(stats).len() == 16,
        labelled_counters(stats)[0] == ("delayed_rounds", stats.delayed_rounds),
        labelled_counters(stats)[1] == ("delayed_actions", stats.delayed_actions),
        labelled_counters(stats)[2] == ("parallel_batches", stats.parallel_batches),
        labelled_counters(stats)[3] == ("parallel_jobs", stats.parallel_jobs),
        labelled_counters(stats)[4] == ("serial_actions", stats.serial_actions),
        labelled_counters(stats)[5] == ("stale_jobs", stats.stale_jobs),
        labelled_counters(stats)[6] == ("processed_queue_items", stats.processed_queue_items),
        labelled_counters(stats)[7] == ("processed_blocks", stats.processed_blocks),
        labelled_counters(stats)[8] == ("committed_modules", stats.committed_modules),
        labelled_counters(stats)[9] == ("global_pre_candidates", stats.global_pre_order_candidates),
        labelled_counters(stats)[10] == (
            "global_post_candidates",
            stats.global_post_order_candidates,
        ),
        labelled_counters(stats)[11] == ("global_pre_checks", stats.global_pre_order_checks),
        labelled_counters(stats)[12] == ("global_post_checks", stats.global_post_order_checks),
        labelled_counters(stats)[13] == ("local_cache_entries", stats.local_cache_entries),
        labelled_counters(stats)[14] == ("cached_block_entries", stats.cached_block_entries),
        labelled_counters(stats)[15] == ("max_batch_size", stats.max_batch_size),
        labelled_times(stats).len() == 8,
        labelled_times(stats)[0] == ("walk_ms", stats.walk_time_ns),
        labelled_times(stats)[1] == ("commit_ms", stats.commit_time_ns),
        labelled_times(stats)[2] == ("cache_ms", stats.cache_time_ns),
        labelled_times(stats)[3] == ("chunk_graph_ms", stats.chunk_graph_time_ns),
        labelled_times(stats)[4] == ("chunk_group_order_ms", stats.chunk_group_order_time_ns),
        labelled_times(stats)[5] == ("global_order_ms", stats.global_order_time_ns),
        labelled_times(stats)[6] == ("async_blocks_ms", stats.async_blocks_time_ns),
        labelled_times(stats)[7] == ("skipped_items_ms", stats.skipped_items_time_ns),
{
}

/// Which task of a build follows on which. The entrypoints are prepared unless an incremental build goes on
/// from a splitter that has chunk groups, and that is the one thing that depends on anything.
pub proof fn law_tasks_follow_on_each_other(enable_incremental: bool, no_chunk_groups: bool)
    ensures
        ({
            let next = |done: BuildTask| task_after(enable_incremental, no_chunk_groups, done);
            &&& next(first_task(enable_incremental)) == Some(BuildTask::ConfigureStats)
            &&& next(BuildTask::ConfigureStats) == Some(BuildTask::CollectModules)
            &&& next(BuildTask::CollectModules) == Some(BuildTask::Prepare)
            &&& next(BuildTask::Prepare) == Some(BuildTask::UpdateWithCompilation)
            &&& next(BuildTask::UpdateWithCompilation) == Some(
                if enable_incremental && !no_chunk_groups {
                    BuildTask::Split
                } else {
                    BuildTask::PrepareInput
                },
            )
            &&& next(BuildTask::PrepareInput) == Some(BuildTask::PrepareEntries)
            &&& next(BuildTask::PrepareEntries) == Some(BuildTask::Split)
            &&& next(BuildTask::Split) == Some(BuildTask::RemoveOrphan)
            &&& next(BuildTask::RemoveOrphan) == Some(BuildTask::EnsureModules)
            &&& next(BuildTask::EnsureModules) == Some(BuildTask::RecordTotal)
            &&& next(BuildTask::RecordTotal) == Some(BuildTask::LogStats)
            &&& next(BuildTask::LogStats) == Some(BuildTask::StoreSplitter)
            &&& next(BuildTask::StoreSplitter) is None
        }),
        enable_incremental ==> first_task(enable_incremental) == BuildTask::TakeStoredSplitter,
        !enable_incremental ==> first_task(enable_incremental) == BuildTask::NewSplitter,
{
}

/// Which tasks have their time recorded, and under which phase. No two have the same.
pub proof fn law_phases_are_those_of_their_tasks(task: BuildTask, other: BuildTask)
    ensures
        recorded(BuildTask::CollectModules) == Some(CodeSplitterStatsPhase::CollectModules),
        recorded(BuildTask::UpdateWithCompilation) == Some(
            CodeSplitterStatsPhase::UpdateWithCompilation,
        ),
        recorded(BuildTask::PrepareInput) == Some(CodeSplitterStatsPhase::PrepareInput),
        recorded(BuildTask::PrepareEntries) == Some(CodeSplitterStatsPhase::PrepareEntries),
        recorded(BuildTask::RemoveOrphan) == Some(CodeSplitterStatsPhase::RemoveOrphan),
        recorded(BuildTask::EnsureModules) == Some(CodeSplitterStatsPhase::EnsureModules),
        recorded(BuildTask::RecordTotal) == Some(CodeSplitterStatsPhase::Total),
        recorded(task) is Some && task != other ==> recorded(task) != recorded(other),
{
}

/// Where the targets of a block are looked up. What the walk itself has extracted comes first, then what
/// was extracted before; then nothing is extracted and nothing is cached. Otherwise all that the
/// extraction brings is cached, and a block of which it brings nothing has no targets.
pub proof fn law_targets_are_looked_up_in_order(
    shared: Map<DependenciesBlockIdentifier, Arc<BlockModules>>,
    cache: Map<DependenciesBlockIdentifier, Arc<BlockModules>>,
    block: DependenciesBlockIdentifier,
    found: Seq<(DependenciesBlockIdentifier, Arc<BlockModules>)>,
    other: DependenciesBlockIdentifier,
)
    ensures
        needs_extraction(shared, cache, block) <==> !cache.contains_key(block)
            && !shared.contains_key(block),
        cache.contains_key(block) ==> modules_of(shared, cache, block, found) == cache[block]@,
        !cache.contains_key(block) && shared.contains_key(block) ==> modules_of(
            shared,
            cache,
            block,
            found,
        ) == shared[block]@,
        cache.contains_key(block) || shared.contains_key(block) ==> cache_after(
            shared,
            cache,
            block,
            found,
        ) == cache,
        !cache.contains_key(block) && !shared.contains_key(block) ==> {
            let after = cache_after(shared, cache, block, found);
            &&& after.contains_key(other) <==> cache.contains_key(other) || exists|i: int|
                0 <= i < found.len() && (#[trigger] found[i]).0 == other
            &&& forall|i: int|
                0 <= i < found.len() && (#[trigger] found[i]).0 == other && (forall|j: int|
                    i < j < found.len() ==> (#[trigger] found[j]).0 != other) ==> after[other]
                    == found[i].1
            &&& (forall|i: int| 0 <= i < found.len() ==> (#[trigger] found[i]).0 != other)
                && cache.contains_key(other) ==> after[other] == cache[other]
            &&& after.contains_key(block) ==> modules_of(shared, cache, block, found)
                == after[block]@
            &&& !after.contains_key(block) ==> modules_of(shared, cache, block, found).len() == 0
        },
{
    let all = insert_all(cache, found);
    assert forall|i: int|
        0 <= i < found.len() && (#[trigger] found[i]).0 == other && (forall|j: int|
            i < j < found.len() ==> (#[trigger] found[j]).0 != other) implies all[other]
        == found[i].1 by {
        lemma_inserted(cache, found, i);
    }
    if exists|i: int| 0 <= i < found.len() && (#[trigger] found[i]).0 == other {
        let i = choose|i: int| 0 <= i < found.len() && (#[trigger] found[i]).0 == other;
        let last = lemma_last_entry(found, other, i);
        lemma_inserted(cache, found, last);
    } else {
        lemma_not_inserted(cache, found, other);
    }
}

/// Of the entries for a block the last one is the one that counts.
proof fn lemma_inserted(
    cache: Map<DependenciesBlockIdentifier, Arc<BlockModules>>,
    found: Seq<(DependenciesBlockIdentifier, Arc<BlockModules>)>,
    i: int,
)
    requires
        0 <= i < found.len(),
        forall|j: int| i < j < found.len() ==> (#[trigger] found[j]).0 != found[i].0,
    ensures
        insert_all(cache, found).contains_key(found[i].0),
        insert_all(cache, found)[found[i].0] == found[i].1,
    decreases found.len(),
{
    let before = found.drop_last();
    if i < before.len() {
        assert(found[found.len() - 1].0 != found[i].0);
        assert forall|j: int| i < j < before.len() implies (#[trigger] before[j]).0
            != before[i].0 by {
            assert(found[j].0 != found[i].0);
        }
        lemma_inserted(cache, before, i);
    }
}

/// A block without an entry has what it had.
proof fn lemma_not_inserted(
    cache: Map<DependenciesBlockIdentifier, Arc<BlockModules>>,
    found: Seq<(DependenciesBlockIdentifier, Arc<BlockModules>)>,
    other: DependenciesBlockIdentifier,
)
    requires
        forall|i: int| 0 <= i < found.len() ==> (#[trigger] found[i]).0 != other,
    ensures
        insert_all(cache, found).contains_key(other) == cache.contains_key(other),
        cache.contains_key(other) ==> insert_all(cache, found)[other] == cache[other],
    decreases found.len(),
{
    if found.len() > 0 {
        let before = found.drop_last();
        assert(found[found.len() - 1].0 != other);
        assert forall|i: int| 0 <= i < before.len() implies (#[trigger] before[i]).0 != other by {
            assert(found[i].0 != other);
        }
        lemma_not_inserted(cache, before, other);
    }
}

/// A block that has an entry has a last one.
proof fn lemma_last_entry(
    found: Seq<(DependenciesBlockIdentifier, Arc<BlockModules>)>,
    other: DependenciesBlockIdentifier,
    i: int,
) -> (last: int)
    requires
        0 <= i < found.len(),
        found[i].0 == other,
    ensures
        0 <= last < found.len(),
        found[last].0 == other,
        forall|j: int| last < j < found.len() ==> (#[trigger] found[j]).0 != other,
    decreases found.len() - i,
{
    if exists|j: int| i < j < found.len() && (#[trigger] found[j]).0 == other {
        let j = choose|j: int| i < j < found.len() && (#[trigger] found[j]).0 == other;
        lemma_last_entry(found, other, j)
    } else {
        i
    }
}

/// What a batch adds to the statistics: nothing where it is empty, one to the actions that are processed by
/// themselves where it has one root, and otherwise one batch, with as many jobs as it has roots. The
/// largest batch is the larger one of the largest so far and this one. Nothing else is counted.
pub proof fn law_what_a_batch_counts(stats: ParallelCodeSplitterStats, batch: Seq<ProcessBlock>)
    ensures
        ({
            let after = batch_counted(stats, batch);
            let n = batch.len();
            &&& n == 0 ==> after == stats
            &&& n == 1 ==> after.serial_actions as int == (stats.serial_actions + 1)
                % 0x1_0000_0000
            &&& n != 1 ==> after.serial_actions == stats.serial_actions
            &&& n >= 2 ==> after.parallel_batches as int == (stats.parallel_batches + 1)
                % 0x1_0000_0000
            &&& n >= 2 ==> after.parallel_jobs as int == (stats.parallel_jobs + n) % 0x1_0000_0000
            &&& 2 <= n <= u32::MAX ==> after.max_batch_size >= n
            &&& after.max_batch_size >= stats.max_batch_size
            &&& after.max_batch_size == stats.max_batch_size || (n >= 2 && after.max_batch_size as int
                == n % 0x1_0000_0000)
            &&& n < 2 ==> {
                &&& after.parallel_batches == stats.parallel_batches
                &&& after.parallel_jobs == stats.parallel_jobs
                &&& after.max_batch_size == stats.max_batch_size
            }
            &&& same_counts(
                stats,
                ParallelCodeSplitterStats {
                    serial_actions: stats.serial_actions,
                    parallel_batches: stats.parallel_batches,
                    parallel_jobs: stats.parallel_jobs,
                    max_batch_size: stats.max_batch_size,
                    ..after
                },
            )
            &&& same_times(stats, after)
        }),
{
}

/// Taking the delayed queue takes all of it, in its order, and counts one round and its actions. Nothing
/// else changes.
pub proof fn law_taking_takes_the_whole_queue(
    before: CodeSplitter,
    after: CodeSplitter,
    queue: DelayedQueue,
)
    requires
        taken(before, after, queue),
    ensures
        queue.rest() == before.queue_delayed@,
        queue.batch().len() == 0,
        queue.waiting() is None,
        after.queue_delayed@.len() == 0,
        same_but_stats(before, CodeSplitter { queue_delayed: before.queue_delayed, ..after }),
        after.parallel_state.stats.delayed_rounds as int == (
        before.parallel_state.stats.delayed_rounds + 1) % 0x1_0000_0000,
        after.parallel_state.stats.delayed_actions as int == (
        before.parallel_state.stats.delayed_actions + before.queue_delayed@.len()) % 0x1_0000_0000,
        same_counts(
            before.parallel_state.stats,
            ParallelCodeSplitterStats {
                delayed_rounds: before.parallel_state.stats.delayed_rounds,
                delayed_actions: before.parallel_state.stats.delayed_actions,
                ..after.parallel_state.stats
            },
        ),
        same_times(before.parallel_state.stats, after.parallel_state.stats),
{
}

/// Other statistics leave the rest of a splitter as it is.
pub proof fn law_statistics_are_apart(splitter: CodeSplitter, stats: ParallelCodeSplitterStats)
    ensures
        with_stats(splitter, stats).parallel_state.stats == stats,
        same_but_stats(splitter, with_stats(splitter, stats)),
{
}

/// An action that is queued comes behind all that is in the queue. Nothing else changes.
pub proof fn law_queueing_adds_at_the_end(
    splitter: CodeSplitter,
    action: QueueAction,
    after: CodeSplitter,
)
    requires
        action_queued(splitter, action, after),
    ensures
        after.queue@ == splitter.queue@ + seq![action],
        same_but_stats(splitter, CodeSplitter { queue: splitter.queue, ..after }),
        after.parallel_state.stats == splitter.parallel_state.stats,
{
    assert(after.queue@ =~= splitter.queue@ + seq![action]);
}

/// A walk reads the ordinals and the `import()` blocks of the splitter, and the targets that were extracted
/// before in its own runtime, where there are any.
pub proof fn law_a_walk_reads_its_own_runtime(splitter: CodeSplitter, runtime: RuntimeKey)
    ensures
        ({
            let inputs = inputs_of(&splitter, runtime);
            &&& *inputs.ordinal_by_module == splitter.ordinal_by_module
            &&& *inputs.prepared_blocks_map == splitter.prepared_blocks_map
            &&& inputs.shared_block_modules is Some
                <==> splitter.block_modules_runtime_map@.contains_key(runtime)
            &&& inputs.shared_block_modules matches Some(shared) ==> *shared
                == splitter.block_modules_runtime_map@[runtime]
        }),
{
}

/// Of an action that is a block the record of its chunk group has to be known, of any other nothing.
pub proof fn law_what_has_to_be_known_of_an_action(
    infos: Map<CgiUkey, ChunkGroupInfo>,
    root: ProcessBlock,
    number: u64,
)
    ensures
        known_action(infos, QueueAction::ProcessBlock(root)) <==> infos.contains_key(
            root.chunk_group_info,
        ),
        known_action(infos, QueueAction::Other(number)),
{
}

} // verus!
