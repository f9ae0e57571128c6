use vstd::prelude::*;

use std::sync::Arc;

use crate::batch::{job_for, walks_recorded};
use crate::batch_model::{BundlerCall, Settlement, Stage, committed_in_full, processed_again};
use crate::commit::{
    PendingCommit, batch_finished, can_commit, commit_finished, compilation_committed, connection_of,
    entered_fresh, known_result, pending_of, results_cached, runtime_caches,
    splitter_committed, stale, stale_counted,
};
use crate::commit_laws::law_caching_only_adds;
use crate::graph::{
    BlockModules, ChunkUkey, DependenciesBlockIdentifier, ModuleIdentifier, RuntimeKey,
};
use crate::order::{
    ModuleGraphModule, TraversalOrder, lemma_placed_keeps_other_order,
    lemma_unplaced_after_other_order, placed,
};
use crate::order_laws::{
    global_places_follow, is_new_candidate, law_global_places_follow_the_walk,
    law_places_follow_the_walk, lemma_first_seen_counts, lemma_unplaced_counts, lemma_unplaced_known,
    places_follow,
};
use crate::queue::{ProcessBlock, QueueAction};
use crate::splitter::{CodeSplitter, Compilation};
use crate::stats::ParallelCodeSplitterStats;
use crate::walk::{ParallelWalkJob, ParallelWalkResult};

verus! {

/// A result is not stale exactly where it was walked with what is known now: its chunk group has the same
/// runtime and the same modules available, and its chunk holds the same modules.
pub proof fn law_not_stale_means_unchanged(splitter: CodeSplitter, result: ParallelWalkResult)
    ensures
        ({
            let info = splitter.chunk_group_infos@[result.job.root.chunk_group_info];
            let mask = splitter.mask_by_chunk@[result.job.root.chunk];
            &&& !stale(splitter, result) ==> info.runtime == result.job.runtime
            &&& !stale(splitter, result) ==> forall|ordinal: u64| #[trigger]
                info.min_available_modules@.contains(ordinal)
                    == result.job.min_available_modules@.contains(ordinal)
            &&& !stale(splitter, result) ==> forall|ordinal: u64| #[trigger]
                mask@.contains(ordinal) == result.job.chunk_mask@.contains(ordinal)
            &&& stale(splitter, result) ==> info.runtime != result.job.runtime || (exists|
                ordinal: u64,
            | #[trigger]
                info.min_available_modules@.contains(ordinal)
                    != result.job.min_available_modules@.contains(ordinal)) || (exists|
                ordinal: u64,
            | #[trigger]
                mask@.contains(ordinal) != result.job.chunk_mask@.contains(ordinal))
        }),
{
    let info = splitter.chunk_group_infos@[result.job.root.chunk_group_info];
    let mask = splitter.mask_by_chunk@[result.job.root.chunk];
    if forall|ordinal: u64| #[trigger]
        info.min_available_modules@.contains(ordinal) == result.job.min_available_modules@.contains(
            ordinal,
        ) {
        assert(info.min_available_modules@ =~= result.job.min_available_modules@);
    }
    if forall|ordinal: u64| #[trigger]
        mask@.contains(ordinal) == result.job.chunk_mask@.contains(ordinal) {
        assert(mask@ =~= result.job.chunk_mask@);
    }
}

/// What has to be known of a result: the record of its chunk group, and the mask of its chunk unless the
/// group alone shows that it is stale.
pub proof fn law_what_has_to_be_known(splitter: CodeSplitter, result: ParallelWalkResult)
    ensures
        known_result(splitter, result) ==> splitter.chunk_group_infos@.contains_key(
            result.job.root.chunk_group_info,
        ),
        known_result(splitter, result) && !stale(splitter, result)
            ==> splitter.mask_by_chunk@.contains_key(result.job.root.chunk),
        splitter.chunk_group_infos@.contains_key(result.job.root.chunk_group_info)
            && splitter.mask_by_chunk@.contains_key(result.job.root.chunk) ==> known_result(
            splitter,
            result,
        ),
{
}

/// A job is made for its root with the runtime, the available modules and the mask of that moment.
pub proof fn law_a_job_has_what_is_known(
    splitter: CodeSplitter,
    root: ProcessBlock,
    job: ParallelWalkJob,
)
    requires
        job_for(splitter, root, job),
    ensures
        job.root == root,
        job.runtime == splitter.chunk_group_infos@[root.chunk_group_info].runtime,
        job.min_available_modules@
            == splitter.chunk_group_infos@[root.chunk_group_info].min_available_modules@,
        job.chunk_mask@ == splitter.mask_by_chunk@[root.chunk]@,
{
}

/// What is left of a commit has all that the walk has reported, in its order: every `import()` block, every
/// module that was left out and every connection that was not active. It is for the chunk and the chunk
/// group of the root.
pub proof fn law_pending_has_all_that_was_reported(
    result: ParallelWalkResult,
    pending: PendingCommit,
)
    requires
        pending_of(result, pending),
    ensures
        pending.chunk_group_info == result.job.root.chunk_group_info,
        pending.chunk == result.job.root.chunk,
        pending.async_blocks@ == result.async_blocks@,
        pending.skipped_items@ == result.skipped_items@,
        pending.skipped_connections@ == result.skipped_connections@,
{
}

/// Committing a result that is not stale asks the bundler for two things. It connects the chunk of the root
/// with every module that the walk has added, in the walk's order. And it makes a chunk group for every
/// `import()` block that the walk has reported, once each and in the walk's order.
pub proof fn law_a_commit_asks_for_every_import<B>(
    does: spec_fn(BundlerCall, Stage<B>, Stage<B>) -> bool,
    s: Settlement<B>,
)
    requires
        committed_in_full(does, s),
    ensures
        does(
            BundlerCall::ConnectChunk(s.result.job.root.chunk, s.result.modules@),
            s.before,
            s.connected,
        ),
        does(
            BundlerCall::MakeChunkGroups(
                s.result.job.root.chunk_group_info,
                s.result.job.root.chunk,
                s.result.async_blocks@,
            ),
            s.committed,
            s.grouped,
        ),
{
}

/// The root of a stale result is put behind what is in the queue, and the queue is worked off.
pub proof fn law_a_stale_root_is_processed_again<B>(
    does: spec_fn(BundlerCall, Stage<B>, Stage<B>) -> bool,
    s: Settlement<B>,
)
    requires
        processed_again(does, s),
    ensures
        s.queued.splitter.queue@ == s.before.splitter.queue@ + seq![
            QueueAction::ProcessBlock(s.result.job.root),
        ],
        does(BundlerCall::ProcessQueue, s.queued, s.after),
{
    assert(s.queued.splitter.queue@ =~= s.before.splitter.queue@ + seq![
        QueueAction::ProcessBlock(s.result.job.root),
    ]);
}

/// Ending a commit loses nothing that was noted of a chunk group, and adds all that the walk has skipped
/// behind it: what was there stays where it was, and every entry of the walk is there. Nothing else of the
/// record changes, and no other record does.
pub proof fn law_ending_a_commit_loses_nothing(
    splitter: CodeSplitter,
    pending: PendingCommit,
    after: CodeSplitter,
)
    requires
        commit_finished(splitter, pending, after),
    ensures
        ({
            let group = pending.chunk_group_info;
            let before = splitter.chunk_group_infos@[group];
            let now = after.chunk_group_infos@[group];
            let items = before.skipped_items@.len();
            let connections = before.skipped_module_connections@.len();
            &&& forall|i: int|
                0 <= i < items ==> #[trigger] now.skipped_items@[i] == before.skipped_items@[i]
            &&& forall|i: int|
                0 <= i < pending.skipped_items@.len() ==> now.skipped_items@[items + i]
                    == #[trigger] pending.skipped_items@[i]
            &&& now.skipped_items@.len() == items + pending.skipped_items@.len()
            &&& forall|i: int|
                0 <= i < connections ==> #[trigger] now.skipped_module_connections@[i]
                    == before.skipped_module_connections@[i]
            &&& forall|i: int|
                0 <= i < pending.skipped_connections@.len()
                    ==> now.skipped_module_connections@[connections + i]
                    == #[trigger] pending.skipped_connections@[i]
            &&& now.skipped_module_connections@.len() == connections
                + pending.skipped_connections@.len()
            &&& now.chunk_group == before.chunk_group
            &&& now.chunk_loading == before.chunk_loading
            &&& now.async_chunks == before.async_chunks
            &&& now.runtime == before.runtime
            &&& now.min_available_modules == before.min_available_modules
            &&& forall|other: u64|
                other != group ==> {
                    &&& #[trigger] after.chunk_group_infos@.contains_key(other)
                        == splitter.chunk_group_infos@.contains_key(other)
                    &&& after.chunk_group_infos@[other] == splitter.chunk_group_infos@[other]
                }
            &&& same_but_stats(
                splitter,
                CodeSplitter { chunk_group_infos: splitter.chunk_group_infos, ..after },
            )
            &&& same_counts(splitter.parallel_state.stats, after.parallel_state.stats)
            &&& same_times(
                splitter.parallel_state.stats,
                ParallelCodeSplitterStats {
                    async_blocks_time_ns: splitter.parallel_state.stats.async_blocks_time_ns,
                    skipped_items_time_ns: splitter.parallel_state.stats.skipped_items_time_ns,
                    ..after.parallel_state.stats
                },
            )
        }),
{
}

/// Whether every counter is the same in two statistics, whatever the times are.
pub open spec fn same_counts(
    a: ParallelCodeSplitterStats,
    b: ParallelCodeSplitterStats,
) -> bool {
    &&& a.delayed_rounds == b.delayed_rounds
    &&& a.delayed_actions == b.delayed_actions
    &&& a.parallel_batches == b.parallel_batches
    &&& a.parallel_jobs == b.parallel_jobs
    &&& a.serial_actions == b.serial_actions
    &&& a.stale_jobs == b.stale_jobs
    &&& a.processed_queue_items == b.processed_queue_items
    &&& a.processed_blocks == b.processed_blocks
    &&& a.committed_modules == b.committed_modules
    &&& a.global_pre_order_candidates == b.global_pre_order_candidates
    &&& a.global_post_order_candidates == b.global_post_order_candidates
    &&& a.global_pre_order_checks == b.global_pre_order_checks
    &&& a.global_post_order_checks == b.global_post_order_checks
    &&& a.local_cache_entries == b.local_cache_entries
    &&& a.cached_block_entries == b.cached_block_entries
    &&& a.max_batch_size == b.max_batch_size
}

/// Whether every time is the same in two statistics, whatever was counted.
pub open spec fn same_times(a: ParallelCodeSplitterStats, b: ParallelCodeSplitterStats) -> bool {
    &&& a.walk_time_ns == b.walk_time_ns
    &&& a.commit_time_ns == b.commit_time_ns
    &&& a.cache_time_ns == b.cache_time_ns
    &&& a.chunk_graph_time_ns == b.chunk_graph_time_ns
    &&& a.chunk_group_order_time_ns == b.chunk_group_order_time_ns
    &&& a.global_order_time_ns == b.global_order_time_ns
    &&& a.async_blocks_time_ns == b.async_blocks_time_ns
    &&& a.skipped_items_time_ns == b.skipped_items_time_ns
}

/// Whether nothing of a splitter has changed but its statistics.
pub open spec fn same_but_stats(a: CodeSplitter, b: CodeSplitter) -> bool {
    &&& a.parallel_state.enabled == b.parallel_state.enabled
    &&& a.parallel_state.stats_enabled == b.parallel_state.stats_enabled
    &&& a.parallel_state.checked_pre_order_modules == b.parallel_state.checked_pre_order_modules
    &&& a.parallel_state.checked_post_order_modules == b.parallel_state.checked_post_order_modules
    &&& a.queue == b.queue
    &&& a.queue_delayed == b.queue_delayed
    &&& a.chunk_group_infos == b.chunk_group_infos
    &&& a.mask_by_chunk == b.mask_by_chunk
    &&& a.block_modules_runtime_map == b.block_modules_runtime_map
    &&& same_indices(a, b)
}

/// Whether two splitters agree in what was prepared, in what was processed and in the next places.
pub open spec fn same_indices(a: CodeSplitter, b: CodeSplitter) -> bool {
    &&& a.prepared_blocks_map == b.prepared_blocks_map
    &&& a.ordinal_by_module == b.ordinal_by_module
    &&& a.stat_processed_queue_items == b.stat_processed_queue_items
    &&& a.stat_processed_blocks == b.stat_processed_blocks
    &&& a.next_free_module_pre_order_index == b.next_free_module_pre_order_index
    &&& a.next_free_module_post_order_index == b.next_free_module_post_order_index
}

/// What a commit does to the splitter: the chunk gets the walk's mask, the candidates are checked from now
/// on, what the walk has processed is added, and so is the number of candidates. Nothing else changes, the
/// next places aside.
pub proof fn law_what_a_commit_does_to_a_splitter(
    splitter: CodeSplitter,
    compilation: Compilation,
    result: ParallelWalkResult,
    after: CodeSplitter,
    chunk: ChunkUkey,
    module: ModuleIdentifier,
)
    requires
        splitter_committed(splitter, compilation, result, after),
    ensures
        after.mask_by_chunk@.contains_key(result.job.root.chunk),
        after.mask_by_chunk@[result.job.root.chunk]@ == result.resulting_chunk_mask@,
        chunk != result.job.root.chunk ==> {
            &&& after.mask_by_chunk@.contains_key(chunk) == splitter.mask_by_chunk@.contains_key(
                chunk,
            )
            &&& after.mask_by_chunk@[chunk] == splitter.mask_by_chunk@[chunk]
        },
        after.parallel_state.checked_pre_order_modules@.contains(module) <==> {
            ||| splitter.parallel_state.checked_pre_order_modules@.contains(module)
            ||| result.global_pre_order_candidates@.contains(module)
        },
        after.parallel_state.checked_post_order_modules@.contains(module) <==> {
            ||| splitter.parallel_state.checked_post_order_modules@.contains(module)
            ||| result.global_post_order_candidates@.contains(module)
        },
        after.stat_processed_queue_items as int == (splitter.stat_processed_queue_items
            + result.processed_queue_items) % 0x1_0000_0000,
        after.stat_processed_blocks as int == (splitter.stat_processed_blocks
            + result.processed_blocks) % 0x1_0000_0000,
        ({
            let stats = splitter.parallel_state.stats;
            let stats_after = after.parallel_state.stats;
            &&& stats_after.global_pre_order_candidates as int == (
            stats.global_pre_order_candidates + result.global_pre_order_candidates@.len())
                % 0x1_0000_0000
            &&& stats_after.global_post_order_candidates as int == (
            stats.global_post_order_candidates + result.global_post_order_candidates@.len())
                % 0x1_0000_0000
            &&& same_counts(
                stats,
                ParallelCodeSplitterStats {
                    global_pre_order_candidates: stats.global_pre_order_candidates,
                    global_post_order_candidates: stats.global_post_order_candidates,
                    global_pre_order_checks: stats.global_pre_order_checks,
                    global_post_order_checks: stats.global_post_order_checks,
                    ..stats_after
                },
            )
            &&& same_times(
                stats,
                ParallelCodeSplitterStats {
                    chunk_graph_time_ns: stats.chunk_graph_time_ns,
                    chunk_group_order_time_ns: stats.chunk_group_order_time_ns,
                    global_order_time_ns: stats.global_order_time_ns,
                    ..stats_after
                },
            )
        }),
        after.parallel_state.enabled == splitter.parallel_state.enabled,
        after.parallel_state.stats_enabled == splitter.parallel_state.stats_enabled,
        after.queue == splitter.queue,
        after.queue_delayed == splitter.queue_delayed,
        after.chunk_group_infos == splitter.chunk_group_infos,
        after.prepared_blocks_map == splitter.prepared_blocks_map,
        after.ordinal_by_module == splitter.ordinal_by_module,
        after.block_modules_runtime_map == splitter.block_modules_runtime_map,
{
}

/// How many candidates a commit looks at: the different ones that were not checked before.
pub proof fn law_a_commit_checks_each_candidate_once(
    splitter: CodeSplitter,
    compilation: Compilation,
    result: ParallelWalkResult,
    after: CodeSplitter,
)
    requires
        splitter_committed(splitter, compilation, result, after),
    ensures
        ({
            let state = splitter.parallel_state;
            let checks = after.parallel_state.stats;
            &&& checks.global_pre_order_checks as int == (state.stats.global_pre_order_checks
                + result.global_pre_order_candidates@.to_set().difference(
                state.checked_pre_order_modules@,
            ).len()) % 0x1_0000_0000
            &&& checks.global_post_order_checks as int == (state.stats.global_post_order_checks
                + result.global_post_order_candidates@.to_set().difference(
                state.checked_post_order_modules@,
            ).len()) % 0x1_0000_0000
        }),
{
    lemma_first_seen_counts(
        splitter.parallel_state.checked_pre_order_modules@,
        result.global_pre_order_candidates@,
    );
    lemma_first_seen_counts(
        splitter.parallel_state.checked_post_order_modules@,
        result.global_post_order_candidates@,
    );
}

/// A result can be committed exactly where the record of its chunk group, the mask of its chunk and the
/// chunk group itself are known, the graph has every candidate that was not checked before, and no place
/// runs over: a chunk group has room for the different modules of the walk that it has no place for, and
/// so have the global orders for the different candidates that are new.
pub proof fn law_what_a_commit_needs(
    splitter: CodeSplitter,
    compilation: Compilation,
    result: ParallelWalkResult,
)
    ensures
        can_commit(splitter, compilation, result) <==> {
            let own = splitter.chunk_group_infos@[result.job.root.chunk_group_info].chunk_group;
            let group = compilation.chunk_group_by_ukey@[own];
            let graph = compilation.module_graph@;
            let checked_pre = splitter.parallel_state.checked_pre_order_modules@;
            let checked_post = splitter.parallel_state.checked_post_order_modules@;
            let pre = result.global_pre_order_candidates@;
            let post = result.global_post_order_candidates@;
            &&& splitter.chunk_group_infos@.contains_key(result.job.root.chunk_group_info)
            &&& splitter.mask_by_chunk@.contains_key(result.job.root.chunk)
            &&& compilation.chunk_group_by_ukey@.contains_key(own)
            &&& group.next_pre_order_index + result.modules@.to_set().difference(
                group.module_pre_order_indices@.dom(),
            ).len() <= usize::MAX
            &&& group.next_post_order_index + result.post_order_modules@.to_set().difference(
                group.module_post_order_indices@.dom(),
            ).len() <= usize::MAX
            &&& forall|i: int|
                0 <= i < pre.len() && !checked_pre.contains(#[trigger] pre[i])
                    ==> graph.contains_key(pre[i])
            &&& forall|i: int|
                0 <= i < post.len() && !checked_post.contains(#[trigger] post[i])
                    ==> graph.contains_key(post[i])
            &&& splitter.next_free_module_pre_order_index + pre.to_set().filter(
                |module: ModuleIdentifier|
                    is_new_candidate(graph, TraversalOrder::Pre, checked_pre, module),
            ).len() <= u32::MAX
            &&& splitter.next_free_module_post_order_index + post.to_set().filter(
                |module: ModuleIdentifier|
                    is_new_candidate(graph, TraversalOrder::Post, checked_post, module),
            ).len() <= u32::MAX
        },
{
    let own = splitter.chunk_group_infos@[result.job.root.chunk_group_info].chunk_group;
    let group = compilation.chunk_group_by_ukey@[own];
    let graph = compilation.module_graph@;
    let checked_pre = splitter.parallel_state.checked_pre_order_modules@;
    let checked_post = splitter.parallel_state.checked_post_order_modules@;
    let pre = result.global_pre_order_candidates@;
    let post = result.global_post_order_candidates@;
    lemma_first_seen_counts(group.module_pre_order_indices@.dom(), result.modules@);
    lemma_first_seen_counts(group.module_post_order_indices@.dom(), result.post_order_modules@);
    lemma_unplaced_counts(graph, TraversalOrder::Pre, checked_pre, pre);
    lemma_unplaced_counts(graph, TraversalOrder::Post, checked_post, post);
    lemma_candidates_known(graph, checked_pre, pre);
    lemma_candidates_known(graph, checked_post, post);
}

/// That the graph has the candidates can be asked of each module and of each place in their sequence.
proof fn lemma_candidates_known(
    graph: Map<ModuleIdentifier, ModuleGraphModule>,
    checked: Set<ModuleIdentifier>,
    candidates: Seq<ModuleIdentifier>,
)
    ensures
        (forall|module: ModuleIdentifier|
            candidates.contains(module) && !checked.contains(module)
                ==> #[trigger] graph.contains_key(module)) <==> (forall|i: int|
            0 <= i < candidates.len() && !checked.contains(#[trigger] candidates[i])
                ==> graph.contains_key(candidates[i])),
{
}

/// A commit gives the modules of the walk places in the two orders of their chunk group: in the one of
/// entering as they were entered, and in the one of leaving as they were left. No other chunk group
/// changes.
pub proof fn law_a_commit_orders_its_chunk_group(
    splitter: CodeSplitter,
    compilation: Compilation,
    result: ParallelWalkResult,
    after: Compilation,
    other: u64,
)
    requires
        can_commit(splitter, compilation, result),
        compilation_committed(splitter, compilation, result, after),
    ensures
        ({
            let own = splitter.chunk_group_infos@[result.job.root.chunk_group_info].chunk_group;
            let group = compilation.chunk_group_by_ukey@[own];
            let now = after.chunk_group_by_ukey@[own];
            &&& places_follow(
                group.module_pre_order_indices@,
                group.next_pre_order_index,
                result.modules@,
                now.module_pre_order_indices@,
                now.next_pre_order_index,
            )
            &&& places_follow(
                group.module_post_order_indices@,
                group.next_post_order_index,
                result.post_order_modules@,
                now.module_post_order_indices@,
                now.next_post_order_index,
            )
            &&& other != own ==> {
                &&& after.chunk_group_by_ukey@.contains_key(other)
                    == compilation.chunk_group_by_ukey@.contains_key(other)
                &&& after.chunk_group_by_ukey@[other] == compilation.chunk_group_by_ukey@[other]
            }
        }),
{
    let own = splitter.chunk_group_infos@[result.job.root.chunk_group_info].chunk_group;
    let group = compilation.chunk_group_by_ukey@[own];
    law_places_follow_the_walk(
        group.module_pre_order_indices@,
        group.next_pre_order_index,
        result.modules@,
    );
    law_places_follow_the_walk(
        group.module_post_order_indices@,
        group.next_post_order_index,
        result.post_order_modules@,
    );
}

/// A commit gives the candidates of the walk places in the global orders: those for the order of entering
/// as they were entered, and then those for the order of leaving as they were left. The next places move
/// on by as many.
pub proof fn law_a_commit_orders_globally(
    splitter: CodeSplitter,
    compilation: Compilation,
    result: ParallelWalkResult,
    after: CodeSplitter,
    compilation_after: Compilation,
)
    requires
        can_commit(splitter, compilation, result),
        splitter_committed(splitter, compilation, result, after),
        compilation_committed(splitter, compilation, result, compilation_after),
    ensures
        exists|between: Map<ModuleIdentifier, ModuleGraphModule>|
            {
                &&& #[trigger] global_places_follow(
                    compilation.module_graph@,
                    TraversalOrder::Pre,
                    splitter.parallel_state.checked_pre_order_modules@,
                    splitter.next_free_module_pre_order_index,
                    result.global_pre_order_candidates@,
                    between,
                    after.next_free_module_pre_order_index,
                )
                &&& global_places_follow(
                    between,
                    TraversalOrder::Post,
                    splitter.parallel_state.checked_post_order_modules@,
                    splitter.next_free_module_post_order_index,
                    result.global_post_order_candidates@,
                    compilation_after.module_graph@,
                    after.next_free_module_post_order_index,
                )
            },
{
    let graph = compilation.module_graph@;
    let pre = result.global_pre_order_candidates@;
    let post = result.global_post_order_candidates@;
    let checked_pre = splitter.parallel_state.checked_pre_order_modules@;
    let checked_post = splitter.parallel_state.checked_post_order_modules@;
    let next_pre = splitter.next_free_module_pre_order_index;
    let next_post = splitter.next_free_module_post_order_index;
    let entered = entered_fresh(splitter, compilation, pre);
    let between = placed(graph, TraversalOrder::Pre, next_pre, entered);
    lemma_unplaced_known(graph, TraversalOrder::Pre, checked_pre, pre);
    law_global_places_follow_the_walk(graph, TraversalOrder::Pre, checked_pre, next_pre, pre);
    lemma_unplaced_after_other_order(
        graph,
        TraversalOrder::Pre,
        next_pre,
        entered,
        TraversalOrder::Post,
        checked_post,
        post,
    );
    assert forall|module: ModuleIdentifier|
        post.contains(module) && !checked_post.contains(
            module,
        ) implies #[trigger] between.contains_key(module) by {
        assert(graph.contains_key(module));
        lemma_placed_keeps_other_order(
            graph,
            TraversalOrder::Pre,
            next_pre,
            entered,
            TraversalOrder::Post,
            module,
        );
    }
    law_global_places_follow_the_walk(
        between,
        TraversalOrder::Post,
        checked_post,
        next_post,
        post,
    );
    assert(global_places_follow(
        graph,
        TraversalOrder::Pre,
        checked_pre,
        next_pre,
        pre,
        between,
        after.next_free_module_pre_order_index,
    ));
}

/// Recording the walks of a batch adds them up: nothing for no walk, and for one walk more its queue items,
/// its blocks and the number of its modules. Nothing else is counted and nothing else changes.
pub proof fn law_recording_adds_walk_by_walk(
    splitter: CodeSplitter,
    results: Seq<ParallelWalkResult>,
    result: ParallelWalkResult,
    fewer: CodeSplitter,
    after: CodeSplitter,
)
    requires
        walks_recorded(splitter, results, fewer),
        walks_recorded(splitter, results.push(result), after),
    ensures
        same_but_stats(splitter, after),
        ({
            let stats = fewer.parallel_state.stats;
            let now = after.parallel_state.stats;
            &&& now.processed_queue_items as int == (stats.processed_queue_items
                + result.processed_queue_items) % 0x1_0000_0000
            &&& now.processed_blocks as int == (stats.processed_blocks + result.processed_blocks)
                % 0x1_0000_0000
            &&& now.committed_modules as int == (stats.committed_modules + result.modules@.len())
                % 0x1_0000_0000
            &&& same_counts(
                splitter.parallel_state.stats,
                ParallelCodeSplitterStats {
                    processed_queue_items: splitter.parallel_state.stats.processed_queue_items,
                    processed_blocks: splitter.parallel_state.stats.processed_blocks,
                    committed_modules: splitter.parallel_state.stats.committed_modules,
                    ..now
                },
            )
            &&& same_times(
                splitter.parallel_state.stats,
                ParallelCodeSplitterStats {
                    walk_time_ns: splitter.parallel_state.stats.walk_time_ns,
                    ..now
                },
            )
        }),
        results.len() == 0 ==> same_counts(
            splitter.parallel_state.stats,
            fewer.parallel_state.stats,
        ),
{
    assert(results.push(result).drop_last() =~= results);
}

/// Whether the targets of a block are known in a runtime.
pub open spec fn known_in(
    splitter: CodeSplitter,
    runtime: RuntimeKey,
    block: DependenciesBlockIdentifier,
) -> bool {
    splitter.block_modules_runtime_map@.contains_key(runtime)
        && splitter.block_modules_runtime_map@[runtime]@.contains_key(block)
}

/// The targets that are known of a block in a runtime.
pub open spec fn targets_in(
    splitter: CodeSplitter,
    runtime: RuntimeKey,
    block: DependenciesBlockIdentifier,
) -> Arc<BlockModules> {
    splitter.block_modules_runtime_map@[runtime]@[block]
}

/// How many blocks are known in a runtime.
pub open spec fn how_many_in(splitter: CodeSplitter, runtime: RuntimeKey) -> int {
    if splitter.block_modules_runtime_map@.contains_key(runtime) {
        splitter.block_modules_runtime_map@[runtime]@.len() as int
    } else {
        0
    }
}

/// Caching what the walks of a batch have extracted goes walk by walk. For one walk more, the blocks that it
/// has extracted become known in its runtime, where its chunk group still has that runtime. What was known
/// stays as it was, the first to extract a block is the one that counts, and nothing becomes known in any
/// other runtime. Counted are the blocks that were extracted and those that became known.
pub proof fn law_caching_adds_walk_by_walk(
    splitter: CodeSplitter,
    results: Seq<ParallelWalkResult>,
    result: ParallelWalkResult,
    fewer: CodeSplitter,
    after: CodeSplitter,
    runtime: RuntimeKey,
    block: DependenciesBlockIdentifier,
)
    requires
        results_cached(splitter, results, fewer),
        results_cached(splitter, results.push(result), after),
    ensures
        ({
            let info = splitter.chunk_group_infos@[result.job.root.chunk_group_info];
            let of_use = info.runtime == result.job.runtime;
            let found = result.block_modules_cache@;
            let stats = fewer.parallel_state.stats;
            let now = after.parallel_state.stats;
            &&& known_in(after, runtime, block) <==> known_in(fewer, runtime, block) || (of_use
                && runtime == result.job.runtime && found.contains_key(block))
            &&& known_in(fewer, runtime, block) ==> targets_in(after, runtime, block) == targets_in(
                fewer,
                runtime,
                block,
            )
            &&& known_in(after, runtime, block) && !known_in(fewer, runtime, block) ==> targets_in(
                after,
                runtime,
                block,
            ) == found[block]
            &&& now.local_cache_entries as int == (stats.local_cache_entries + if of_use {
                found.len() as int
            } else {
                0
            }) % 0x1_0000_0000
            &&& now.cached_block_entries as int == (stats.cached_block_entries + how_many_in(
                after,
                result.job.runtime,
            ) - how_many_in(fewer, result.job.runtime)) % 0x1_0000_0000
            &&& same_counts(
                splitter.parallel_state.stats,
                ParallelCodeSplitterStats {
                    local_cache_entries: splitter.parallel_state.stats.local_cache_entries,
                    cached_block_entries: splitter.parallel_state.stats.cached_block_entries,
                    ..now
                },
            )
            &&& same_times(
                splitter.parallel_state.stats,
                ParallelCodeSplitterStats {
                    cache_time_ns: splitter.parallel_state.stats.cache_time_ns,
                    ..now
                },
            )
        }),
        same_but_stats(
            splitter,
            CodeSplitter {
                block_modules_runtime_map: splitter.block_modules_runtime_map,
                ..after
            },
        ),
        results.len() == 0 ==> {
            &&& same_counts(splitter.parallel_state.stats, fewer.parallel_state.stats)
            &&& known_in(fewer, runtime, block) == known_in(splitter, runtime, block)
            &&& known_in(fewer, runtime, block) ==> targets_in(fewer, runtime, block) == targets_in(
                splitter,
                runtime,
                block,
            )
        },
{
    let infos = splitter.chunk_group_infos@;
    let a = runtime_caches(fewer.block_modules_runtime_map@);
    let b = runtime_caches(after.block_modules_runtime_map@);
    let c = runtime_caches(splitter.block_modules_runtime_map@);
    assert(results.push(result).drop_last() =~= results);
    law_caching_only_adds(infos, a, result, runtime, block);
    lemma_runtime_cache(fewer, runtime);
    lemma_runtime_cache(after, runtime);
    lemma_runtime_cache(splitter, runtime);
    lemma_runtime_cache(fewer, result.job.runtime);
    lemma_runtime_cache(after, result.job.runtime);
    assert(Map::<DependenciesBlockIdentifier, Arc<BlockModules>>::empty().len() == 0);
    if infos[result.job.root.chunk_group_info].runtime != result.job.runtime {
        assert(b == a);
    }
}

proof fn lemma_runtime_cache(splitter: CodeSplitter, runtime: RuntimeKey)
    ensures
        ({
            let map = splitter.block_modules_runtime_map@;
            let caches = runtime_caches(map);
            &&& caches.contains_key(runtime) == map.contains_key(runtime)
            &&& map.contains_key(runtime) ==> caches[runtime] == map[runtime]@
        }),
{
}

/// Counting a stale job, and noting the time that a batch took, change nothing else.
pub proof fn law_counting_changes_nothing_else(
    splitter: CodeSplitter,
    finished: CodeSplitter,
)
    requires
        batch_finished(splitter, finished),
    ensures
        same_but_stats(splitter, finished),
        same_counts(splitter.parallel_state.stats, finished.parallel_state.stats),
        same_times(
            splitter.parallel_state.stats,
            ParallelCodeSplitterStats {
                commit_time_ns: splitter.parallel_state.stats.commit_time_ns,
                ..finished.parallel_state.stats
            },
        ),
        same_but_stats(splitter, stale_counted(splitter)),
        same_times(splitter.parallel_state.stats, stale_counted(splitter).parallel_state.stats),
        stale_counted(splitter).parallel_state.stats.stale_jobs as int == (
        splitter.parallel_state.stats.stale_jobs + 1) % 0x1_0000_0000,
        same_counts(
            splitter.parallel_state.stats,
            ParallelCodeSplitterStats {
                stale_jobs: splitter.parallel_state.stats.stale_jobs,
                ..stale_counted(splitter).parallel_state.stats
            },
        ),
{
}

/// What is connected in the chunk graph for a result is the chunk of its root and the modules of its walk.
pub proof fn law_connection_is_the_walks(result: ParallelWalkResult)
    ensures
        connection_of(result).0 == result.job.root.chunk,
        connection_of(result).1 == result.modules@,
{
}

} // verus!
