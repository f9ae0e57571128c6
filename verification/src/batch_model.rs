use vstd::prelude::*;

use std::sync::Arc;

use crate::batch::{job_for, walks_recorded};
use crate::commit::{
    PendingCommit, batch_finished, can_commit, commit_finished, compilation_committed,
    connection_of, known_result, pending_of, results_cached, runtime_caches, splitter_committed,
    stale, stale_counted,
};
use crate::graph::{
    AsyncDependenciesBlockIdentifier, BlockModules, CgiUkey, ChunkGroupUkey, ChunkUkey,
    ConnectionIdList, DependenciesBlockIdentifier, ModuleIdentifier, RuntimeKey,
};
use crate::mask::OrdinalMask;
use crate::order::ModuleGraphModule;
use crate::queue::{ProcessBlock, QueueAction};
use crate::schedule::action_queued;
use crate::splitter::{ChunkGroup, ChunkGroupInfo, CodeSplitter, Compilation};
use crate::stats::ParallelCodeSplitterStats;
use crate::walk::{ParallelWalkJob, ParallelWalkResult};

verus! {

/// What was counted, without the times.
pub open spec fn counts_of(stats: ParallelCodeSplitterStats) -> ParallelCodeSplitterStats {
    ParallelCodeSplitterStats {
        walk_time_ns: 0,
        commit_time_ns: 0,
        cache_time_ns: 0,
        chunk_graph_time_ns: 0,
        chunk_group_order_time_ns: 0,
        global_order_time_ns: 0,
        async_blocks_time_ns: 0,
        skipped_items_time_ns: 0,
        ..stats
    }
}

/// What the record of a chunk group holds.
#[verifier::ext_equal]
pub struct InfoContents {
    pub chunk_group: ChunkGroupUkey,
    pub chunk_loading: bool,
    pub async_chunks: bool,
    pub runtime: RuntimeKey,
    pub min_available_modules: Set<u64>,
    pub skipped_items: Seq<ModuleIdentifier>,
    pub skipped_module_connections: Seq<(ModuleIdentifier, ConnectionIdList)>,
}

/// What a record holds, without the types that hold it.
pub open spec fn info_contents(info: ChunkGroupInfo) -> InfoContents {
    InfoContents {
        chunk_group: info.chunk_group,
        chunk_loading: info.chunk_loading,
        async_chunks: info.async_chunks,
        runtime: info.runtime,
        min_available_modules: info.min_available_modules@,
        skipped_items: info.skipped_items@,
        skipped_module_connections: info.skipped_module_connections@,
    }
}

/// What a splitter holds, but for the times.
#[verifier::ext_equal]
pub struct SplitterContents {
    pub enabled: bool,
    pub stats_enabled: bool,
    pub counts: ParallelCodeSplitterStats,
    pub checked_pre_order_modules: Set<ModuleIdentifier>,
    pub checked_post_order_modules: Set<ModuleIdentifier>,
    pub queue: Seq<QueueAction>,
    pub queue_delayed: Seq<QueueAction>,
    pub chunk_group_infos: Map<CgiUkey, InfoContents>,
    pub mask_by_chunk: Map<ChunkUkey, Set<u64>>,
    pub prepared_blocks_map: Map<DependenciesBlockIdentifier, Seq<AsyncDependenciesBlockIdentifier>>,
    pub ordinal_by_module: Map<ModuleIdentifier, u64>,
    pub block_modules_runtime_map: Map<
        RuntimeKey,
        Map<DependenciesBlockIdentifier, Arc<BlockModules>>,
    >,
    pub stat_processed_queue_items: u32,
    pub stat_processed_blocks: u32,
    pub next_free_module_pre_order_index: u32,
    pub next_free_module_post_order_index: u32,
}

/// What a splitter holds, without the times and without the types that hold it.
pub open spec fn splitter_contents(splitter: CodeSplitter) -> SplitterContents {
    SplitterContents {
        enabled: splitter.parallel_state.enabled,
        stats_enabled: splitter.parallel_state.stats_enabled,
        counts: counts_of(splitter.parallel_state.stats),
        checked_pre_order_modules: splitter.parallel_state.checked_pre_order_modules@,
        checked_post_order_modules: splitter.parallel_state.checked_post_order_modules@,
        queue: splitter.queue@,
        queue_delayed: splitter.queue_delayed@,
        chunk_group_infos: splitter.chunk_group_infos@.map_values(
            |info: ChunkGroupInfo| info_contents(info),
        ),
        mask_by_chunk: splitter.mask_by_chunk@.map_values(|mask: OrdinalMask| mask@),
        prepared_blocks_map: splitter.prepared_blocks_map@.map_values(
            |blocks: Vec<AsyncDependenciesBlockIdentifier>| blocks@,
        ),
        ordinal_by_module: splitter.ordinal_by_module@,
        block_modules_runtime_map: runtime_caches(splitter.block_modules_runtime_map@),
        stat_processed_queue_items: splitter.stat_processed_queue_items,
        stat_processed_blocks: splitter.stat_processed_blocks,
        next_free_module_pre_order_index: splitter.next_free_module_pre_order_index,
        next_free_module_post_order_index: splitter.next_free_module_post_order_index,
    }
}

/// What a chunk group holds.
#[verifier::ext_equal]
pub struct GroupContents {
    pub module_pre_order_indices: Map<ModuleIdentifier, usize>,
    pub module_post_order_indices: Map<ModuleIdentifier, usize>,
    pub next_pre_order_index: usize,
    pub next_post_order_index: usize,
}

/// What a chunk group holds, without the types that hold it.
pub open spec fn group_contents(group: ChunkGroup) -> GroupContents {
    GroupContents {
        module_pre_order_indices: group.module_pre_order_indices@,
        module_post_order_indices: group.module_post_order_indices@,
        next_pre_order_index: group.next_pre_order_index,
        next_post_order_index: group.next_post_order_index,
    }
}

/// What a compilation holds.
#[verifier::ext_equal]
pub struct CompilationContents {
    pub module_graph: Map<ModuleIdentifier, ModuleGraphModule>,
    pub chunk_group_by_ukey: Map<ChunkGroupUkey, GroupContents>,
}

/// What a compilation holds, without the types that hold it.
pub open spec fn compilation_contents(compilation: Compilation) -> CompilationContents {
    CompilationContents {
        module_graph: compilation.module_graph@,
        chunk_group_by_ukey: compilation.chunk_group_by_ukey@.map_values(
            |group: ChunkGroup| group_contents(group),
        ),
    }
}

/// A splitter, a compilation, and what else the bundler keeps, such as its chunk graph.
pub struct Stage<B> {
    pub splitter: CodeSplitter,
    pub compilation: Compilation,
    pub bundler: B,
}

/// Whether two stages hold the same, but for the times.
pub open spec fn same_stage<B>(a: Stage<B>, b: Stage<B>) -> bool {
    &&& splitter_contents(a.splitter) == splitter_contents(b.splitter)
    &&& compilation_contents(a.compilation) == compilation_contents(b.compilation)
    &&& a.bundler == b.bundler
}

/// What the bundler does for a batch.
pub enum BundlerCall {
    /// Work off the queue of what is processed at once.
    ProcessQueue,
    /// Connect a chunk with modules in the chunk graph.
    ConnectChunk(ChunkUkey, Seq<ModuleIdentifier>),
    /// Make chunk groups for `import()` blocks, one after the other.
    MakeChunkGroups(CgiUkey, ChunkUkey, Seq<(AsyncDependenciesBlockIdentifier, ModuleIdentifier)>),
}

/// Whether the bundler does the same where it is asked for the same: it does not go by the times.
pub open spec fn does_the_same<B>(
    does: spec_fn(BundlerCall, Stage<B>, Stage<B>) -> bool,
) -> bool {
    forall|call: BundlerCall, a: Stage<B>, a_after: Stage<B>, b: Stage<B>, b_after: Stage<B>|
        #![trigger does(call, a, a_after), does(call, b, b_after)]
        does(call, a, a_after) && does(call, b, b_after) && same_stage(a, b) ==> same_stage(
            a_after,
            b_after,
        )
}

/// Whether the bundler keeps its hands off the statistics of splitting in parallel.
pub open spec fn leaves_stats<B>(
    does: spec_fn(BundlerCall, Stage<B>, Stage<B>) -> bool,
) -> bool {
    forall|call: BundlerCall, a: Stage<B>, b: Stage<B>| #[trigger]
        does(call, a, b) ==> b.splitter.parallel_state.stats == a.splitter.parallel_state.stats
}

/// How a result is settled. A stale one has its root queued and processed again. Any other is committed:
/// the chunk is connected with its modules, the result goes into splitter and compilation, chunk groups
/// are made, and what was skipped is noted.
pub struct Settlement<B> {
    pub before: Stage<B>,
    pub result: ParallelWalkResult,
    pub queued: Stage<B>,
    pub connected: Stage<B>,
    pub committed: Stage<B>,
    pub pending: PendingCommit,
    pub grouped: Stage<B>,
    pub after: Stage<B>,
}

/// Whether a result that is known is settled as it has to be, stale or not.
pub open spec fn is_settlement<B>(
    does: spec_fn(BundlerCall, Stage<B>, Stage<B>) -> bool,
    s: Settlement<B>,
) -> bool {
    &&& known_result(s.before.splitter, s.result)
    &&& if stale(s.before.splitter, s.result) {
        processed_again(does, s)
    } else {
        committed_in_full(does, s)
    }
}

/// Whether the root of a stale result is processed again.
pub open spec fn processed_again<B>(
    does: spec_fn(BundlerCall, Stage<B>, Stage<B>) -> bool,
    s: Settlement<B>,
) -> bool {
    &&& action_queued(
        stale_counted(s.before.splitter),
        QueueAction::ProcessBlock(s.result.job.root),
        s.queued.splitter,
    )
    &&& s.queued.compilation == s.before.compilation
    &&& s.queued.bundler == s.before.bundler
    &&& does(BundlerCall::ProcessQueue, s.queued, s.after)
}

/// Whether a result is committed, from beginning to end.
pub open spec fn committed_in_full<B>(
    does: spec_fn(BundlerCall, Stage<B>, Stage<B>) -> bool,
    s: Settlement<B>,
) -> bool {
    let (chunk, modules) = connection_of(s.result);
    &&& does(BundlerCall::ConnectChunk(chunk, modules), s.before, s.connected)
    &&& can_commit(s.connected.splitter, s.connected.compilation, s.result)
    &&& splitter_committed(
        s.connected.splitter,
        s.connected.compilation,
        s.result,
        s.committed.splitter,
    )
    &&& compilation_committed(
        s.connected.splitter,
        s.connected.compilation,
        s.result,
        s.committed.compilation,
    )
    &&& s.committed.bundler == s.connected.bundler
    &&& pending_of(s.result, s.pending)
    &&& does(
        BundlerCall::MakeChunkGroups(
            s.pending.chunk_group_info,
            s.pending.chunk,
            s.pending.async_blocks@,
        ),
        s.committed,
        s.grouped,
    )
    &&& s.grouped.splitter.chunk_group_infos@.contains_key(s.pending.chunk_group_info)
    &&& commit_finished(s.grouped.splitter, s.pending, s.after.splitter)
    &&& s.after.compilation == s.grouped.compilation
    &&& s.after.bundler == s.grouped.bundler
}

/// How a batch is processed: what its jobs have brought is counted and cached, and then settled result by
/// result.
pub struct BatchRun<B> {
    pub start: Stage<B>,
    pub jobs: Seq<ParallelWalkJob>,
    pub results: Seq<ParallelWalkResult>,
    pub recorded: CodeSplitter,
    pub cached: CodeSplitter,
    pub settlements: Seq<Settlement<B>>,
    pub end: Stage<B>,
}

impl<B> BatchRun<B> {
    /// Where the run stands before the result at `i` is settled.
    pub open spec fn stage(self, i: int) -> Stage<B> {
        if i == 0 {
            Stage { splitter: self.cached, ..self.start }
        } else {
            self.settlements[i - 1].after
        }
    }
}

/// Whether a run processes a batch: each root has its job, made at the start, each job its result, and the
/// results are settled in the order of the roots.
pub open spec fn is_batch<B>(
    does: spec_fn(BundlerCall, Stage<B>, Stage<B>) -> bool,
    roots: Seq<ProcessBlock>,
    run: BatchRun<B>,
) -> bool {
    &&& run.jobs.len() == roots.len()
    &&& run.results.len() == roots.len()
    &&& run.settlements.len() == roots.len()
    &&& forall|i: int|
        0 <= i < roots.len() ==> job_for(run.start.splitter, roots[i], #[trigger] run.jobs[i])
    &&& forall|i: int| 0 <= i < roots.len() ==> (#[trigger] run.results[i]).job == run.jobs[i]
    &&& walks_recorded(run.start.splitter, run.results, run.recorded)
    &&& results_cached(run.recorded, run.results, run.cached)
    &&& forall|i: int| 0 <= i < roots.len() ==> #[trigger] settles(does, run, i)
    &&& batch_finished(run.stage(roots.len() as int).splitter, run.end.splitter)
    &&& run.end.compilation == run.stage(roots.len() as int).compilation
    &&& run.end.bundler == run.stage(roots.len() as int).bundler
}

/// Whether a run settles the result at `i` where it stands.
pub open spec fn settles<B>(
    does: spec_fn(BundlerCall, Stage<B>, Stage<B>) -> bool,
    run: BatchRun<B>,
    i: int,
) -> bool {
    &&& run.settlements[i].before == run.stage(i)
    &&& run.settlements[i].result == run.results[i]
    &&& is_settlement(does, run.settlements[i])
}

} // verus!
