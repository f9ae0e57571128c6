use vstd::prelude::*;

use std::sync::Arc;

use crate::batch::job_for;
use crate::batch_model::{
    BatchRun, BundlerCall, Settlement, Stage, is_batch, is_settlement, leaves_stats, settles,
};
use crate::block_map::lemma_block_map_finite;
use crate::commit::{
    added_count, all_added_count, all_cached, all_extracted_count, cached, extracted_count,
    runtime_cache, runtime_caches, same_runtime, stale,
};
use crate::commit_laws::{law_only_groups_and_masks_outdate, law_untouched_is_not_stale};
use crate::graph::{BlockModules, CgiUkey, DependenciesBlockIdentifier, RuntimeKey};
use crate::queue::ProcessBlock;
use crate::schedule::{DelayedQueue, batch_counted, taken, with_stats};
use crate::splitter::{ChunkGroupInfo, CodeSplitter};
use crate::stats::ParallelCodeSplitterStats;
use crate::walk::ParallelWalkResult;

verus! {

/// Whether the statistics agree with each other: every batch has at least two jobs and none has more than
/// the largest, the largest has at least two where there is one, no batch has only stale jobs, and no
/// more blocks became known than were extracted.
pub open spec fn stats_sound(stats: ParallelCodeSplitterStats) -> bool {
    &&& stats.parallel_jobs >= 2 * stats.parallel_batches
    &&& stats.parallel_jobs <= stats.parallel_batches * stats.max_batch_size
    &&& stats.max_batch_size == 0 || stats.max_batch_size >= 2
    &&& stats.stale_jobs + stats.parallel_batches <= stats.parallel_jobs
    &&& stats.cached_block_entries <= stats.local_cache_entries
}

/// The statistics are sound where nothing was counted.
pub proof fn law_zero_is_sound()
    ensures
        stats_sound(ParallelCodeSplitterStats::zero()),
{
}

/// Taking the delayed queue keeps the statistics sound.
pub proof fn law_taking_keeps_stats_sound(
    before: CodeSplitter,
    after: CodeSplitter,
    queue: DelayedQueue,
)
    requires
        taken(before, after, queue),
        stats_sound(before.parallel_state.stats),
    ensures
        stats_sound(after.parallel_state.stats),
{
}

/// Counting a batch keeps the statistics sound, as long as the counters do not start over. It leaves room
/// for all of its jobs but one to turn out stale.
pub proof fn law_counting_keeps_stats_sound(
    stats: ParallelCodeSplitterStats,
    batch: Seq<ProcessBlock>,
)
    requires
        stats_sound(stats),
        stats.parallel_jobs + batch.len() <= u32::MAX,
    ensures
        stats_sound(batch_counted(stats, batch)),
        batch.len() >= 2 ==> {
            let after = batch_counted(stats, batch);
            after.stale_jobs + batch.len() - 1 + after.parallel_batches <= after.parallel_jobs
        },
{
    let n = batch.len() as int;
    if n >= 2 {
        let after = batch_counted(stats, batch);
        let batches = stats.parallel_batches as int;
        let max = stats.max_batch_size as int;
        let max_after = after.max_batch_size as int;
        assert(after.parallel_jobs == stats.parallel_jobs + n);
        assert(after.parallel_batches == batches + 1);
        assert(max <= max_after && n <= max_after);
        assert(batches * max <= batches * max_after) by (nonlinear_arith)
            requires
                0 <= batches,
                max <= max_after,
        ;
        assert((batches + 1) * max_after == batches * max_after + max_after) by (nonlinear_arith);
    }
}

/// Settling a result counts it as stale where it is, and nothing else of what has to agree.
proof fn lemma_settlement_counts<B>(
    does: spec_fn(BundlerCall, Stage<B>, Stage<B>) -> bool,
    s: Settlement<B>,
)
    requires
        leaves_stats(does),
        is_settlement(does, s),
    ensures
        ({
            let stats = s.before.splitter.parallel_state.stats;
            let after = s.after.splitter.parallel_state.stats;
            &&& same_but_stale(stats, after)
            &&& stale(s.before.splitter, s.result) && stats.stale_jobs < u32::MAX
                ==> after.stale_jobs == stats.stale_jobs + 1
            &&& !stale(s.before.splitter, s.result) ==> after.stale_jobs == stats.stale_jobs
        }),
{
}

/// Whether statistics agree in what has to agree, the stale jobs aside.
pub open spec fn same_but_stale(a: ParallelCodeSplitterStats, b: ParallelCodeSplitterStats) -> bool {
    &&& a.parallel_batches == b.parallel_batches
    &&& a.parallel_jobs == b.parallel_jobs
    &&& a.max_batch_size == b.max_batch_size
    &&& a.local_cache_entries == b.local_cache_entries
    &&& a.cached_block_entries == b.cached_block_entries
}

/// The first result of a batch is never stale: nothing was done since its job was made.
pub proof fn law_first_is_not_stale<B>(
    does: spec_fn(BundlerCall, Stage<B>, Stage<B>) -> bool,
    roots: Seq<ProcessBlock>,
    run: BatchRun<B>,
)
    requires
        is_batch(does, roots, run),
        roots.len() > 0,
    ensures
        !stale(run.stage(0).splitter, run.results[0]),
{
    assert(job_for(run.start.splitter, roots[0], run.jobs[0]));
    assert(run.results[0].job == run.jobs[0]);
    law_untouched_is_not_stale(run.start.splitter, roots[0], run.results[0]);
    law_only_groups_and_masks_outdate(run.start.splitter, run.cached, run.results[0]);
}

/// By the time that `i` results of a batch are settled, at most all of them but the first were stale, and
/// nothing else was counted that has to agree with that.
pub proof fn law_all_but_the_first_may_be_stale<B>(
    does: spec_fn(BundlerCall, Stage<B>, Stage<B>) -> bool,
    roots: Seq<ProcessBlock>,
    run: BatchRun<B>,
    i: int,
)
    requires
        leaves_stats(does),
        is_batch(does, roots, run),
        1 <= i <= roots.len(),
        run.cached.parallel_state.stats.stale_jobs + roots.len() - 1 <= u32::MAX,
    ensures
        ({
            let stats = run.cached.parallel_state.stats;
            let after = run.stage(i).splitter.parallel_state.stats;
            &&& same_but_stale(stats, after)
            &&& stats.stale_jobs <= after.stale_jobs <= stats.stale_jobs + i - 1
        }),
    decreases i,
{
    assert(settles(does, run, i - 1));
    lemma_settlement_counts(does, run.settlements[i - 1]);
    if i == 1 {
        law_first_is_not_stale(does, roots, run);
    } else {
        law_all_but_the_first_may_be_stale(does, roots, run, i - 1);
    }
}

/// A cache does not grow by more than was extracted.
proof fn lemma_added_is_extracted(
    infos: Map<CgiUkey, ChunkGroupInfo>,
    caches: Map<RuntimeKey, Map<DependenciesBlockIdentifier, Arc<BlockModules>>>,
    result: ParallelWalkResult,
)
    requires
        all_finite(caches),
    ensures
        0 <= added_count(infos, caches, result) <= extracted_count(infos, result),
        all_finite(cached(infos, caches, result)),
{
    if same_runtime(infos, result) {
        let known = runtime_cache(caches, result.job.runtime);
        let found = result.block_modules_cache@;
        let both = found.union_prefer_right(known);
        lemma_block_map_finite(result.block_modules_cache);
        assert(known.dom().finite());
        assert(both.dom() =~= found.dom().union(known.dom()));
        vstd::set_lib::lemma_len_union(found.dom(), known.dom());
        assert(known.dom().subset_of(both.dom()));
        vstd::set_lib::lemma_len_subset(known.dom(), both.dom());
    }
}

/// Whether every cache is finite.
spec fn all_finite(
    caches: Map<RuntimeKey, Map<DependenciesBlockIdentifier, Arc<BlockModules>>>,
) -> bool {
    forall|runtime: RuntimeKey| #[trigger]
        caches.contains_key(runtime) ==> caches[runtime].dom().finite()
}

/// The caches of several walks together do not grow by more than they have extracted.
proof fn lemma_all_added_are_extracted(
    infos: Map<CgiUkey, ChunkGroupInfo>,
    caches: Map<RuntimeKey, Map<DependenciesBlockIdentifier, Arc<BlockModules>>>,
    results: Seq<ParallelWalkResult>,
)
    requires
        all_finite(caches),
    ensures
        0 <= all_added_count(infos, caches, results) <= all_extracted_count(infos, results),
        all_finite(all_cached(infos, caches, results)),
    decreases results.len(),
{
    if results.len() > 0 {
        lemma_all_added_are_extracted(infos, caches, results.drop_last());
        lemma_added_is_extracted(
            infos,
            all_cached(infos, caches, results.drop_last()),
            results.last(),
        );
    }
}

/// Handing out a batch and processing it keeps the statistics sound, as long as the counters do not start
/// over and the bundler keeps its hands off them.
pub proof fn law_batch_keeps_stats_sound<B>(
    does: spec_fn(BundlerCall, Stage<B>, Stage<B>) -> bool,
    before: CodeSplitter,
    roots: Seq<ProcessBlock>,
    run: BatchRun<B>,
)
    requires
        leaves_stats(does),
        roots.len() >= 2,
        is_batch(does, roots, run),
        run.start.splitter == with_stats(
            before,
            batch_counted(before.parallel_state.stats, roots),
        ),
        stats_sound(before.parallel_state.stats),
        before.parallel_state.stats.parallel_jobs + roots.len() <= u32::MAX,
        before.parallel_state.stats.local_cache_entries + all_extracted_count(
            before.chunk_group_infos@,
            run.results,
        ) <= u32::MAX,
    ensures
        stats_sound(run.end.splitter.parallel_state.stats),
{
    let infos = before.chunk_group_infos@;
    let caches = runtime_caches(before.block_modules_runtime_map@);
    law_counting_keeps_stats_sound(before.parallel_state.stats, roots);
    assert forall|runtime: RuntimeKey| #[trigger] caches.contains_key(runtime) implies caches[
    runtime].dom().finite() by {
        lemma_block_map_finite(before.block_modules_runtime_map@[runtime]);
    }
    lemma_all_added_are_extracted(infos, caches, run.results);
    law_all_but_the_first_may_be_stale(does, roots, run, roots.len() as int);
}

} // verus!
