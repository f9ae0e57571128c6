use vstd::prelude::*;

use std::sync::Arc;

use crate::batch::known_root;
use crate::block_map::BlockMap;
use crate::counter::{counter_add, counter_sum};
use crate::graph::{
    AsyncDependenciesBlockIdentifier, BlockModules, CgiUkey, ChunkUkey, ConnectionIdList,
    DependenciesBlockIdentifier, ModuleIdentifier, RuntimeKey,
};
use crate::order::{
    TraversalOrder, assign_global_places, assign_places, count_unplaced, count_without_place,
    first_seen, lemma_first_seen_contains, lemma_placed_keeps_other_order,
    lemma_unplaced_after_other_order, numbered, placed, unplaced,
};
use crate::order_laws::lemma_unplaced_known;
use crate::queue::QueueAction;
use crate::schedule::with_stats;
use crate::splitter::{
    ChunkGroup, ChunkGroupInfo, CodeSplitter, Compilation, ParallelCodeSplitterState,
};
use crate::stats::{ParallelCodeSplitterStats, start_timer, stop_timer, timed, timer_started};
use crate::walk::{BlockConnectionMap, ParallelWalkResult};

verus! {

broadcast use vstd::std_specs::hash::group_hash_axioms;

/// Whether what a root was walked with is no longer what the splitter knows of its chunk group.
pub open spec fn group_changed(splitter: CodeSplitter, result: ParallelWalkResult) -> bool {
    let info = splitter.chunk_group_infos@[result.job.root.chunk_group_info];
    ||| info.min_available_modules@ != result.job.min_available_modules@
    ||| info.runtime != result.job.runtime
}

/// Whether what a root was walked with is no longer what the splitter knows of its chunk group or its
/// chunk.
pub open spec fn stale(splitter: CodeSplitter, result: ParallelWalkResult) -> bool {
    ||| group_changed(splitter, result)
    ||| splitter.mask_by_chunk@[result.job.root.chunk]@ != result.job.chunk_mask@
}

/// Whether there is a record of the chunk group of a result, and a mask of its chunk where that has to
/// be looked at.
pub open spec fn known_result(splitter: CodeSplitter, result: ParallelWalkResult) -> bool {
    &&& splitter.chunk_group_infos@.contains_key(result.job.root.chunk_group_info)
    &&& !group_changed(splitter, result) ==> splitter.mask_by_chunk@.contains_key(
        result.job.root.chunk,
    )
}

/// Whether what a root was walked with has changed since.
pub fn result_is_stale(splitter: &CodeSplitter, result: &ParallelWalkResult) -> (r: bool)
    requires
        known_result(*splitter, *result),
    ensures
        r == stale(*splitter, *result),
{
    let chunk_group_info = splitter.chunk_group_infos.get(
        &result.job.root.chunk_group_info,
    ).unwrap();
    if !chunk_group_info.min_available_modules.same_as(&result.job.min_available_modules)
        || chunk_group_info.runtime != result.job.runtime {
        return true;
    }
    !splitter.mask_by_chunk.get(&result.job.root.chunk).unwrap().same_as(&result.job.chunk_mask)
}

/// The targets that are known in each runtime.
pub open spec fn runtime_caches(map: Map<RuntimeKey, BlockConnectionMap>) -> Map<
    RuntimeKey,
    Map<DependenciesBlockIdentifier, Arc<BlockModules>>,
> {
    map.map_values(|cache: BlockConnectionMap| cache@)
}

/// The targets that are known in one runtime.
pub open spec fn runtime_cache(
    caches: Map<RuntimeKey, Map<DependenciesBlockIdentifier, Arc<BlockModules>>>,
    runtime: RuntimeKey,
) -> Map<DependenciesBlockIdentifier, Arc<BlockModules>> {
    if caches.contains_key(runtime) {
        caches[runtime]
    } else {
        Map::empty()
    }
}

/// Whether the chunk group of a result still runs where it did when its root was walked.
pub open spec fn same_runtime(
    infos: Map<CgiUkey, ChunkGroupInfo>,
    result: ParallelWalkResult,
) -> bool {
    infos[result.job.root.chunk_group_info].runtime == result.job.runtime
}

/// The targets that are known in each runtime after those that a walk has extracted were added. What
/// was known stays as it was.
pub open spec fn cached(
    infos: Map<CgiUkey, ChunkGroupInfo>,
    caches: Map<RuntimeKey, Map<DependenciesBlockIdentifier, Arc<BlockModules>>>,
    result: ParallelWalkResult,
) -> Map<RuntimeKey, Map<DependenciesBlockIdentifier, Arc<BlockModules>>> {
    if same_runtime(infos, result) {
        caches.insert(
            result.job.runtime,
            result.block_modules_cache@.union_prefer_right(
                runtime_cache(caches, result.job.runtime),
            ),
        )
    } else {
        caches
    }
}

/// Adds what a walk has extracted to what is known in its runtime, unless the runtime of its chunk
/// group has changed. The result is how many blocks were extracted and how many of them were new.
pub fn cache_block_modules(splitter: &mut CodeSplitter, result: &ParallelWalkResult) -> (counts: (
    u32,
    u32,
))
    requires
        old(splitter).chunk_group_infos@.contains_key(result.job.root.chunk_group_info),
    ensures
        ({
            let infos = old(splitter).chunk_group_infos@;
            let caches = runtime_caches(old(splitter).block_modules_runtime_map@);
            let after = runtime_caches(final(splitter).block_modules_runtime_map@);
            &&& after == cached(infos, caches, *result)
            &&& *final(splitter) == (CodeSplitter {
                block_modules_runtime_map: final(splitter).block_modules_runtime_map,
                ..*old(splitter)
            })
            &&& counts.0 == counter_sum(0, extracted_count(infos, *result))
            &&& counts.1 == counter_sum(0, added_count(infos, caches, *result))
        }),
{
    let ghost infos = splitter.chunk_group_infos@;
    let ghost caches = runtime_caches(splitter.block_modules_runtime_map@);
    let runtime: u64 = result.job.runtime;
    let chunk_group_info = splitter.chunk_group_infos.get(
        &result.job.root.chunk_group_info,
    ).unwrap();
    if chunk_group_info.runtime != runtime {
        return (0, 0);
    }
    let mut cache = match splitter.block_modules_runtime_map.remove(&runtime) {
        Some(cache) => cache,
        None => BlockMap::new(),
    };
    assert(cache@ == runtime_cache(caches, runtime));
    let inserted: u32 = cache.merge_missing(&result.block_modules_cache);
    splitter.block_modules_runtime_map.insert(runtime, cache);
    proof {
        let after = runtime_caches(splitter.block_modules_runtime_map@);
        assert(after =~= cached(infos, caches, *result));
    }
    (result.block_modules_cache.count(), inserted)
}

/// How many blocks a walk has extracted, where they are of use.
pub open spec fn extracted_count(
    infos: Map<CgiUkey, ChunkGroupInfo>,
    result: ParallelWalkResult,
) -> int {
    if same_runtime(infos, result) {
        result.block_modules_cache@.len() as int
    } else {
        0
    }
}

/// How many blocks were not known in their runtime before a walk has extracted them.
pub open spec fn added_count(
    infos: Map<CgiUkey, ChunkGroupInfo>,
    caches: Map<RuntimeKey, Map<DependenciesBlockIdentifier, Arc<BlockModules>>>,
    result: ParallelWalkResult,
) -> int {
    if same_runtime(infos, result) {
        cached(infos, caches, result)[result.job.runtime].len() - runtime_cache(
            caches,
            result.job.runtime,
        ).len()
    } else {
        0
    }
}

/// The targets that are known in each runtime after those that several walks have extracted were
/// added, one walk after the other.
pub open spec fn all_cached(
    infos: Map<CgiUkey, ChunkGroupInfo>,
    caches: Map<RuntimeKey, Map<DependenciesBlockIdentifier, Arc<BlockModules>>>,
    results: Seq<ParallelWalkResult>,
) -> Map<RuntimeKey, Map<DependenciesBlockIdentifier, Arc<BlockModules>>>
    decreases results.len(),
{
    if results.len() == 0 {
        caches
    } else {
        cached(infos, all_cached(infos, caches, results.drop_last()), results.last())
    }
}

/// How many blocks several walks have extracted, where they are of use.
pub open spec fn all_extracted_count(
    infos: Map<CgiUkey, ChunkGroupInfo>,
    results: Seq<ParallelWalkResult>,
) -> int
    decreases results.len(),
{
    if results.len() == 0 {
        0
    } else {
        all_extracted_count(infos, results.drop_last()) + extracted_count(infos, results.last())
    }
}

/// How many blocks were not known in their runtime before one of several walks has extracted them.
pub open spec fn all_added_count(
    infos: Map<CgiUkey, ChunkGroupInfo>,
    caches: Map<RuntimeKey, Map<DependenciesBlockIdentifier, Arc<BlockModules>>>,
    results: Seq<ParallelWalkResult>,
) -> int
    decreases results.len(),
{
    if results.len() == 0 {
        0
    } else {
        all_added_count(infos, caches, results.drop_last()) + added_count(
            infos,
            all_cached(infos, caches, results.drop_last()),
            results.last(),
        )
    }
}

/// The results of a batch that are being committed, one after the other.
pub struct BatchCommit {
    results: Vec<ParallelWalkResult>,
}

impl View for BatchCommit {
    type V = Seq<ParallelWalkResult>;

    closed spec fn view(&self) -> Seq<ParallelWalkResult> {
        self.results@
    }
}

/// Whether `after` is a splitter to which was added what the walks of a batch have extracted, one walk
/// after the other. The time is that of `after`.
pub open spec fn results_cached(
    splitter: CodeSplitter,
    results: Seq<ParallelWalkResult>,
    after: CodeSplitter,
) -> bool {
    let infos = splitter.chunk_group_infos@;
    let caches = runtime_caches(splitter.block_modules_runtime_map@);
    let stats = splitter.parallel_state.stats;
    &&& runtime_caches(after.block_modules_runtime_map@) == all_cached(infos, caches, results)
    &&& after == with_stats(
        CodeSplitter { block_modules_runtime_map: after.block_modules_runtime_map, ..splitter },
        ParallelCodeSplitterStats {
            local_cache_entries: counter_sum(
                stats.local_cache_entries,
                all_extracted_count(infos, results),
            ),
            cached_block_entries: counter_sum(
                stats.cached_block_entries,
                all_added_count(infos, caches, results),
            ),
            cache_time_ns: after.parallel_state.stats.cache_time_ns,
            ..stats
        },
    )
}

/// Begins to commit the results of a batch, in the order of its roots: what the walks have extracted
/// becomes known in their runtimes at once.
pub fn commit_results<C: Fn() -> u64>(
    splitter: &mut CodeSplitter,
    results: Vec<ParallelWalkResult>,
    clock: &C,
) -> (commit: BatchCommit)
    requires
        call_requires(clock, ()),
        forall|i: int|
            0 <= i < results@.len() ==> old(splitter).chunk_group_infos@.contains_key(
                (#[trigger] results@[i]).job.root.chunk_group_info,
            ),
    ensures
        commit@ == results@,
        results_cached(*old(splitter), results@, *final(splitter)),
        phase_timed(
            clock,
            old(splitter).parallel_state.stats_enabled,
            old(splitter).parallel_state.stats.cache_time_ns,
            final(splitter).parallel_state.stats.cache_time_ns,
        ),
{
    let ghost infos = splitter.chunk_group_infos@;
    let ghost caches = runtime_caches(splitter.block_modules_runtime_map@);
    let ghost stats = splitter.parallel_state.stats;
    let cache_start = start_timer(splitter.parallel_state.stats_enabled, clock);
    let mut i: usize = 0;
    assert(results@.take(0) =~= Seq::empty());
    while i < results.len()
        invariant
            i <= results@.len(),
            infos == old(splitter).chunk_group_infos@,
            stats == old(splitter).parallel_state.stats,
            forall|i: int|
                0 <= i < results@.len() ==> infos.contains_key(
                    (#[trigger] results@[i]).job.root.chunk_group_info,
                ),
            runtime_caches(splitter.block_modules_runtime_map@) == all_cached(
                infos,
                caches,
                results@.take(i as int),
            ),
            *splitter == with_stats(
                CodeSplitter {
                    block_modules_runtime_map: splitter.block_modules_runtime_map,
                    ..*old(splitter)
                },
                ParallelCodeSplitterStats {
                    local_cache_entries: counter_sum(
                        stats.local_cache_entries,
                        all_extracted_count(infos, results@.take(i as int)),
                    ),
                    cached_block_entries: counter_sum(
                        stats.cached_block_entries,
                        all_added_count(infos, caches, results@.take(i as int)),
                    ),
                    ..stats
                },
            ),
        decreases results.len() - i,
    {
        let (entries, inserted) = cache_block_modules(splitter, &results[i]);
        i = i + 1;
        assert(results@.take(i as int).drop_last() =~= results@.take(i - 1));
        let stats = &mut splitter.parallel_state.stats;
        stats.local_cache_entries = stats.local_cache_entries.wrapping_add(entries);
        stats.cached_block_entries = stats.cached_block_entries.wrapping_add(inserted);
    }
    assert(results@.take(i as int) =~= results@);
    let stats = &mut splitter.parallel_state.stats;
    stats.cache_time_ns = stop_timer(stats.cache_time_ns, cache_start, clock);
    BatchCommit { results }
}

/// A splitter with one more stale result counted.
pub open spec fn stale_counted(splitter: CodeSplitter) -> CodeSplitter {
    let stats = splitter.parallel_state.stats;
    with_stats(
        splitter,
        ParallelCodeSplitterStats { stale_jobs: counter_sum(stats.stale_jobs, 1), ..stats },
    )
}

/// What is to be done about a result.
#[derive(Debug)]
pub enum CommitStep {
    /// The root is processed again, by itself: what it was walked with has changed.
    Serial(QueueAction),
    /// The result is committed.
    Commit(ParallelWalkResult),
}

impl BatchCommit {
    /// Whether what has to be known of the next result is, where there is one.
    pub fn knows_next(&self, splitter: &CodeSplitter) -> (r: bool)
        ensures
            r == (self@.len() > 0 ==> known_result(*splitter, self@.first())),
    {
        if self.results.len() == 0 {
            return true;
        }
        let job = &self.results[0].job;
        match splitter.chunk_group_infos.get(&job.root.chunk_group_info) {
            Some(info) => !info.min_available_modules.same_as(&job.min_available_modules)
                || info.runtime != job.runtime || splitter.mask_by_chunk.contains_key(
                &job.root.chunk,
            ),
            None => false,
        }
    }

    /// Takes the next result: it is committed unless it is stale, in which case its root is processed
    /// again.
    pub fn next_step(&mut self, splitter: &mut CodeSplitter) -> (step: Option<CommitStep>)
        requires
            old(self)@.len() > 0 ==> known_result(*old(splitter), old(self)@.first()),
        ensures
            match step {
                Some(step) => {
                    &&& old(self)@.len() > 0
                    &&& final(self)@ == old(self)@.drop_first()
                    &&& match step {
                        CommitStep::Serial(action) => {
                            &&& stale(*old(splitter), old(self)@.first())
                            &&& action == QueueAction::ProcessBlock(old(self)@.first().job.root)
                            &&& *final(splitter) == stale_counted(*old(splitter))
                        },
                        CommitStep::Commit(result) => {
                            &&& !stale(*old(splitter), old(self)@.first())
                            &&& result == old(self)@.first()
                            &&& *final(splitter) == *old(splitter)
                        },
                    }
                },
                None => {
                    &&& old(self)@.len() == 0
                    &&& final(self)@ == old(self)@
                    &&& *final(splitter) == *old(splitter)
                },
            },
    {
        if self.results.len() == 0 {
            return None;
        }
        let result = self.results.remove(0);
        assert(self.results@ =~= old(self)@.drop_first());
        if result_is_stale(splitter, &result) {
            let stats = &mut splitter.parallel_state.stats;
            stats.stale_jobs = counter_add(stats.stale_jobs, 1);
            return Some(CommitStep::Serial(QueueAction::ProcessBlock(result.job.root)));
        }
        Some(CommitStep::Commit(result))
    }
}

/// Whether `after` is a splitter with another time for committing batches.
pub open spec fn batch_finished(splitter: CodeSplitter, after: CodeSplitter) -> bool {
    after == with_stats(
        splitter,
        ParallelCodeSplitterStats {
            commit_time_ns: after.parallel_state.stats.commit_time_ns,
            ..splitter.parallel_state.stats
        },
    )
}

/// Adds the time that committing a batch took.
pub fn finish_batch<C: Fn() -> u64>(
    splitter: &mut CodeSplitter,
    commit_start: Option<u64>,
    clock: &C,
)
    requires
        call_requires(clock, ()),
    ensures
        batch_finished(*old(splitter), *final(splitter)),
        timed(
            clock,
            commit_start,
            old(splitter).parallel_state.stats.commit_time_ns,
            final(splitter).parallel_state.stats.commit_time_ns,
        ),
{
    let stats = &mut splitter.parallel_state.stats;
    stats.commit_time_ns = stop_timer(stats.commit_time_ns, commit_start, clock);
}

/// What is left of a commit once the orders were extended: chunk groups are made for the `import()`
/// blocks, and what was skipped is noted.
#[derive(Debug)]
pub struct PendingCommit {
    pub chunk_group_info: CgiUkey,
    pub chunk: ChunkUkey,
    pub async_blocks: Vec<(AsyncDependenciesBlockIdentifier, ModuleIdentifier)>,
    pub skipped_items: Vec<ModuleIdentifier>,
    pub skipped_connections: Vec<(ModuleIdentifier, ConnectionIdList)>,
    pub async_blocks_start: Option<u64>,
}

/// Whether the next places of a chunk group can be numbered.
pub open spec fn group_has_room(
    group: ChunkGroup,
    modules: Seq<ModuleIdentifier>,
    post_order_modules: Seq<ModuleIdentifier>,
) -> bool {
    &&& group.next_pre_order_index + first_seen(
        group.module_pre_order_indices@.dom(),
        modules,
    ).len() <= usize::MAX
    &&& group.next_post_order_index + first_seen(
        group.module_post_order_indices@.dom(),
        post_order_modules,
    ).len() <= usize::MAX
}

/// Whether `after` is a chunk group in which each module that was walked and had no place has the next
/// one, in the order of entering and in that of leaving.
pub open spec fn group_ordered(
    group: ChunkGroup,
    after: ChunkGroup,
    modules: Seq<ModuleIdentifier>,
    post_order_modules: Seq<ModuleIdentifier>,
) -> bool {
    let entered = first_seen(group.module_pre_order_indices@.dom(), modules);
    let left = first_seen(group.module_post_order_indices@.dom(), post_order_modules);
    &&& after.module_pre_order_indices@ == numbered(
        group.module_pre_order_indices@,
        group.next_pre_order_index,
        entered,
    )
    &&& after.next_pre_order_index == group.next_pre_order_index + entered.len()
    &&& after.module_post_order_indices@ == numbered(
        group.module_post_order_indices@,
        group.next_post_order_index,
        left,
    )
    &&& after.next_post_order_index == group.next_post_order_index + left.len()
}

/// Gives the modules that were walked places in their chunk group.
fn order_chunk_group(
    group: &mut ChunkGroup,
    modules: &Vec<ModuleIdentifier>,
    post_order_modules: &Vec<ModuleIdentifier>,
)
    requires
        group_has_room(*old(group), modules@, post_order_modules@),
    ensures
        group_ordered(*old(group), *final(group), modules@, post_order_modules@),
{
    group.next_pre_order_index = assign_places(
        &mut group.module_pre_order_indices,
        group.next_pre_order_index,
        modules,
    );
    group.next_post_order_index = assign_places(
        &mut group.module_post_order_indices,
        group.next_post_order_index,
        post_order_modules,
    );
}

/// The candidates that get a place in the global order of entering.
pub open spec fn entered_fresh(
    splitter: CodeSplitter,
    compilation: Compilation,
    candidates: Seq<ModuleIdentifier>,
) -> Seq<ModuleIdentifier> {
    unplaced(
        compilation.module_graph@,
        TraversalOrder::Pre,
        splitter.parallel_state.checked_pre_order_modules@,
        candidates,
    )
}

/// The candidates that get a place in the global order of leaving.
pub open spec fn left_fresh(
    splitter: CodeSplitter,
    compilation: Compilation,
    candidates: Seq<ModuleIdentifier>,
) -> Seq<ModuleIdentifier> {
    unplaced(
        compilation.module_graph@,
        TraversalOrder::Post,
        splitter.parallel_state.checked_post_order_modules@,
        candidates,
    )
}

/// Whether the candidates that are looked at are in the graph, and their next places can be numbered.
pub open spec fn graph_has_room(
    splitter: CodeSplitter,
    compilation: Compilation,
    pre: Seq<ModuleIdentifier>,
    post: Seq<ModuleIdentifier>,
) -> bool {
    let state = splitter.parallel_state;
    &&& forall|module: ModuleIdentifier|
        pre.contains(module) && !state.checked_pre_order_modules@.contains(module)
            ==> #[trigger] compilation.module_graph@.contains_key(module)
    &&& forall|module: ModuleIdentifier|
        post.contains(module) && !state.checked_post_order_modules@.contains(module)
            ==> #[trigger] compilation.module_graph@.contains_key(module)
    &&& splitter.next_free_module_pre_order_index + entered_fresh(splitter, compilation, pre).len()
        <= u32::MAX
    &&& splitter.next_free_module_post_order_index + left_fresh(splitter, compilation, post).len()
        <= u32::MAX
}

/// Whether a result can be committed: its chunk, its chunk group and the modules that are looked at
/// are known, and the next places can be numbered.
pub open spec fn can_commit(
    splitter: CodeSplitter,
    compilation: Compilation,
    result: ParallelWalkResult,
) -> bool {
    let group = splitter.chunk_group_infos@[result.job.root.chunk_group_info].chunk_group;
    &&& known_root(splitter, result.job.root)
    &&& compilation.chunk_group_by_ukey@.contains_key(group)
    &&& group_has_room(
        compilation.chunk_group_by_ukey@[group],
        result.modules@,
        result.post_order_modules@,
    )
    &&& graph_has_room(
        splitter,
        compilation,
        result.global_pre_order_candidates@,
        result.global_post_order_candidates@,
    )
}

/// Whether a result can be committed.
pub fn is_committable(
    splitter: &CodeSplitter,
    compilation: &Compilation,
    result: &ParallelWalkResult,
) -> (r: bool)
    ensures
        r == can_commit(*splitter, *compilation, *result),
{
    let root = &result.job.root;
    let state = &splitter.parallel_state;
    let graph = &compilation.module_graph;
    let info = match splitter.chunk_group_infos.get(&root.chunk_group_info) {
        Some(info) => info,
        None => {
            return false;
        },
    };
    if !splitter.mask_by_chunk.contains_key(&root.chunk) {
        return false;
    }
    let group = match compilation.chunk_group_by_ukey.get(&info.chunk_group) {
        Some(group) => group,
        None => {
            return false;
        },
    };
    let entered: usize = count_without_place(&group.module_pre_order_indices, &result.modules);
    let left: usize = count_without_place(
        &group.module_post_order_indices,
        &result.post_order_modules,
    );
    if entered > usize::MAX - group.next_pre_order_index || left > usize::MAX
        - group.next_post_order_index {
        return false;
    }
    let entered = count_unplaced(
        graph,
        TraversalOrder::Pre,
        &state.checked_pre_order_modules,
        &result.global_pre_order_candidates,
    );
    let left = count_unplaced(
        graph,
        TraversalOrder::Post,
        &state.checked_post_order_modules,
        &result.global_post_order_candidates,
    );
    match (entered, left) {
        (Some(entered), Some(left)) => entered as u64 <= (u32::MAX
            - splitter.next_free_module_pre_order_index) as u64 && left as u64 <= (u32::MAX
            - splitter.next_free_module_post_order_index) as u64,
        _ => false,
    }
}

/// Whether a time is what it was with a phase added that was measured from beginning to end, where
/// anything is measured.
pub open spec fn phase_timed<C: Fn() -> u64>(
    clock: &C,
    measure: bool,
    total: u64,
    after: u64,
) -> bool {
    exists|start: Option<u64>| #[trigger]
        timer_started(clock, measure, start) && timed(clock, start, total, after)
}

/// The statistics after a result was committed, but for the times, which are those of `after`.
pub open spec fn commit_counted(
    splitter: CodeSplitter,
    result: ParallelWalkResult,
    after: ParallelCodeSplitterStats,
) -> ParallelCodeSplitterStats {
    let stats = splitter.parallel_state.stats;
    ParallelCodeSplitterStats {
        global_pre_order_candidates: counter_sum(
            stats.global_pre_order_candidates,
            result.global_pre_order_candidates@.len() as int,
        ),
        global_post_order_candidates: counter_sum(
            stats.global_post_order_candidates,
            result.global_post_order_candidates@.len() as int,
        ),
        global_pre_order_checks: counter_sum(
            stats.global_pre_order_checks,
            first_seen(
                splitter.parallel_state.checked_pre_order_modules@,
                result.global_pre_order_candidates@,
            ).len() as int,
        ),
        global_post_order_checks: counter_sum(
            stats.global_post_order_checks,
            first_seen(
                splitter.parallel_state.checked_post_order_modules@,
                result.global_post_order_candidates@,
            ).len() as int,
        ),
        chunk_graph_time_ns: after.chunk_graph_time_ns,
        chunk_group_order_time_ns: after.chunk_group_order_time_ns,
        global_order_time_ns: after.global_order_time_ns,
        ..stats
    }
}

/// Whether `after` is a splitter into which a result was committed. The maps and sets that a commit
/// changes are compared by what they hold.
pub open spec fn splitter_committed(
    splitter: CodeSplitter,
    compilation: Compilation,
    result: ParallelWalkResult,
    after: CodeSplitter,
) -> bool {
    let state = splitter.parallel_state;
    &&& after.mask_by_chunk@ == splitter.mask_by_chunk@.insert(
        result.job.root.chunk,
        result.resulting_chunk_mask,
    )
    &&& after.parallel_state.checked_pre_order_modules@ == state.checked_pre_order_modules@.union(
        result.global_pre_order_candidates@.to_set(),
    )
    &&& after.parallel_state.checked_post_order_modules@
        == state.checked_post_order_modules@.union(
        result.global_post_order_candidates@.to_set(),
    )
    &&& after == CodeSplitter {
        parallel_state: ParallelCodeSplitterState {
            stats: commit_counted(splitter, result, after.parallel_state.stats),
            checked_pre_order_modules: after.parallel_state.checked_pre_order_modules,
            checked_post_order_modules: after.parallel_state.checked_post_order_modules,
            ..state
        },
        mask_by_chunk: after.mask_by_chunk,
        stat_processed_queue_items: counter_sum(
            splitter.stat_processed_queue_items,
            result.processed_queue_items as int,
        ),
        stat_processed_blocks: counter_sum(
            splitter.stat_processed_blocks,
            result.processed_blocks as int,
        ),
        next_free_module_pre_order_index: (splitter.next_free_module_pre_order_index
            + entered_fresh(
            splitter,
            compilation,
            result.global_pre_order_candidates@,
        ).len()) as u32,
        next_free_module_post_order_index: (splitter.next_free_module_post_order_index + left_fresh(
            splitter,
            compilation,
            result.global_post_order_candidates@,
        ).len()) as u32,
        ..splitter
    }
}

/// Whether `after` is a compilation into which a result was committed: the chunk group has places for
/// the modules that were walked, and so has the graph for those that had none.
pub open spec fn compilation_committed(
    splitter: CodeSplitter,
    compilation: Compilation,
    result: ParallelWalkResult,
    after: Compilation,
) -> bool {
    let group = splitter.chunk_group_infos@[result.job.root.chunk_group_info].chunk_group;
    &&& after.chunk_group_by_ukey@.contains_key(group)
    &&& after.chunk_group_by_ukey@ == compilation.chunk_group_by_ukey@.insert(
        group,
        after.chunk_group_by_ukey@[group],
    )
    &&& group_ordered(
        compilation.chunk_group_by_ukey@[group],
        after.chunk_group_by_ukey@[group],
        result.modules@,
        result.post_order_modules@,
    )
    &&& after.module_graph@ == placed(
        placed(
            compilation.module_graph@,
            TraversalOrder::Pre,
            splitter.next_free_module_pre_order_index,
            entered_fresh(splitter, compilation, result.global_pre_order_candidates@),
        ),
        TraversalOrder::Post,
        splitter.next_free_module_post_order_index,
        left_fresh(splitter, compilation, result.global_post_order_candidates@),
    )
}

/// Gives the candidates of a result that have none places in the two global orders.
fn order_globally(
    splitter: &mut CodeSplitter,
    compilation: &mut Compilation,
    pre: &Vec<ModuleIdentifier>,
    post: &Vec<ModuleIdentifier>,
)
    requires
        graph_has_room(*old(splitter), *old(compilation), pre@, post@),
    ensures
        final(compilation).chunk_group_by_ukey == old(compilation).chunk_group_by_ukey,
        final(compilation).module_graph@ == placed(
            placed(
                old(compilation).module_graph@,
                TraversalOrder::Pre,
                old(splitter).next_free_module_pre_order_index,
                entered_fresh(*old(splitter), *old(compilation), pre@),
            ),
            TraversalOrder::Post,
            old(splitter).next_free_module_post_order_index,
            left_fresh(*old(splitter), *old(compilation), post@),
        ),
        ({
            let before = *old(splitter);
            let after = *final(splitter);
            let state = before.parallel_state;
            let stats = state.stats;
            &&& after.parallel_state.checked_pre_order_modules@
                == state.checked_pre_order_modules@.union(pre@.to_set())
            &&& after.parallel_state.checked_post_order_modules@
                == state.checked_post_order_modules@.union(post@.to_set())
            &&& after == CodeSplitter {
                parallel_state: ParallelCodeSplitterState {
                    stats: ParallelCodeSplitterStats {
                        global_pre_order_checks: counter_sum(
                            stats.global_pre_order_checks,
                            first_seen(state.checked_pre_order_modules@, pre@).len() as int,
                        ),
                        global_post_order_checks: counter_sum(
                            stats.global_post_order_checks,
                            first_seen(state.checked_post_order_modules@, post@).len() as int,
                        ),
                        ..stats
                    },
                    checked_pre_order_modules: after.parallel_state.checked_pre_order_modules,
                    checked_post_order_modules: after.parallel_state.checked_post_order_modules,
                    ..state
                },
                next_free_module_pre_order_index: (before.next_free_module_pre_order_index
                    + entered_fresh(before, *old(compilation), pre@).len()) as u32,
                next_free_module_post_order_index: (before.next_free_module_post_order_index
                    + left_fresh(before, *old(compilation), post@).len()) as u32,
                ..before
            }
        }),
{
    let ghost graph = compilation.module_graph@;
    let ghost entered = entered_fresh(*splitter, *compilation, pre@);
    let ghost first = splitter.next_free_module_pre_order_index;
    proof {
        let checked = splitter.parallel_state.checked_pre_order_modules@;
        let candidates = pre@;
        assert forall|i: int| 0 <= i < first_seen(checked, candidates).len() implies graph.contains_key(
            #[trigger] first_seen(checked, candidates)[i],
        ) by {
            lemma_first_seen_contains(checked, candidates, first_seen(checked, candidates)[i]);
        }
        lemma_unplaced_known(graph, TraversalOrder::Pre, checked, candidates);
    }
    let (next, checks) = assign_global_places(
        &mut compilation.module_graph,
        TraversalOrder::Pre,
        &mut splitter.parallel_state.checked_pre_order_modules,
        splitter.next_free_module_pre_order_index,
        splitter.parallel_state.stats.global_pre_order_checks,
        pre,
    );
    splitter.next_free_module_pre_order_index = next;
    splitter.parallel_state.stats.global_pre_order_checks = checks;
    proof {
        let checked = splitter.parallel_state.checked_post_order_modules@;
        let candidates = post@;
        lemma_unplaced_after_other_order(
            graph,
            TraversalOrder::Pre,
            first,
            entered,
            TraversalOrder::Post,
            checked,
            candidates,
        );
        assert forall|i: int|
            0 <= i < first_seen(checked, candidates).len() implies compilation.module_graph@.contains_key(
            #[trigger] first_seen(checked, candidates)[i],
        ) by {
            let module = first_seen(checked, candidates)[i];
            lemma_first_seen_contains(checked, candidates, module);
            assert(graph.contains_key(module));
            lemma_placed_keeps_other_order(
                graph,
                TraversalOrder::Pre,
                first,
                entered,
                TraversalOrder::Post,
                module,
            );
        }
    }
    let (next, checks) = assign_global_places(
        &mut compilation.module_graph,
        TraversalOrder::Post,
        &mut splitter.parallel_state.checked_post_order_modules,
        splitter.next_free_module_post_order_index,
        splitter.parallel_state.stats.global_post_order_checks,
        post,
    );
    splitter.next_free_module_post_order_index = next;
    splitter.parallel_state.stats.global_post_order_checks = checks;
}

/// The chunk of a result, and the modules that the walk has added to it.
pub open spec fn connection_of(result: ParallelWalkResult) -> (ChunkUkey, Seq<ModuleIdentifier>) {
    (result.job.root.chunk, result.modules@)
}

/// The chunk and the modules that are to be connected in the chunk graph when a result is committed: all
/// those that the walk has added, in the order in which it has.
pub fn chunk_connection(result: &ParallelWalkResult) -> (connection: (
    ChunkUkey,
    &Vec<ModuleIdentifier>,
))
    ensures
        (connection.0, connection.1@) == connection_of(*result),
{
    (result.job.root.chunk, &result.modules)
}

/// Whether `pending` is what is left of committing a result.
pub open spec fn pending_of(result: ParallelWalkResult, pending: PendingCommit) -> bool {
    &&& pending.chunk_group_info == result.job.root.chunk_group_info
    &&& pending.chunk == result.job.root.chunk
    &&& pending.async_blocks == result.async_blocks
    &&& pending.skipped_items == result.skipped_items
    &&& pending.skipped_connections == result.skipped_connections
}

/// Commits a result up to the point where chunk groups are to be made. The chunk has then been
/// connected with the modules that `chunk_connection` gives, which began at `chunk_graph_start`. What
/// comes after is returned.
pub fn commit_result<C: Fn() -> u64>(
    splitter: &mut CodeSplitter,
    compilation: &mut Compilation,
    result: ParallelWalkResult,
    chunk_graph_start: Option<u64>,
    clock: &C,
) -> (pending: PendingCommit)
    requires
        call_requires(clock, ()),
        can_commit(*old(splitter), *old(compilation), result),
    ensures
        splitter_committed(*old(splitter), *old(compilation), result, *final(splitter)),
        compilation_committed(*old(splitter), *old(compilation), result, *final(compilation)),
        ({
            let measure = old(splitter).parallel_state.stats_enabled;
            let stats = old(splitter).parallel_state.stats;
            let after = final(splitter).parallel_state.stats;
            &&& timed(
                clock,
                chunk_graph_start,
                stats.chunk_graph_time_ns,
                after.chunk_graph_time_ns,
            )
            &&& phase_timed(
                clock,
                measure,
                stats.chunk_group_order_time_ns,
                after.chunk_group_order_time_ns,
            )
            &&& phase_timed(
                clock,
                measure,
                stats.global_order_time_ns,
                after.global_order_time_ns,
            )
            &&& timer_started(clock, measure, pending.async_blocks_start)
        }),
        pending_of(result, pending),
{
    let ParallelWalkResult {
        job,
        resulting_chunk_mask,
        modules,
        post_order_modules,
        global_pre_order_candidates,
        global_post_order_candidates,
        async_blocks,
        skipped_items,
        skipped_connections,
        processed_queue_items,
        processed_blocks,
        ..
    } = result;
    let chunk_group_info: u64 = job.root.chunk_group_info;
    let chunk: u64 = job.root.chunk;
    let measure = splitter.parallel_state.stats_enabled;
    splitter.stat_processed_queue_items = splitter.stat_processed_queue_items.wrapping_add(
        processed_queue_items,
    );
    splitter.stat_processed_blocks = splitter.stat_processed_blocks.wrapping_add(processed_blocks);
    let stats = &mut splitter.parallel_state.stats;
    stats.global_pre_order_candidates = counter_add(
        stats.global_pre_order_candidates,
        global_pre_order_candidates.len(),
    );
    stats.global_post_order_candidates = counter_add(
        stats.global_post_order_candidates,
        global_post_order_candidates.len(),
    );

    splitter.mask_by_chunk.insert(chunk, resulting_chunk_mask);
    let stats = &mut splitter.parallel_state.stats;
    stats.chunk_graph_time_ns = stop_timer(stats.chunk_graph_time_ns, chunk_graph_start, clock);

    let start = start_timer(measure, clock);
    let chunk_group_ukey: u64 = splitter.chunk_group_infos.get(
        &chunk_group_info,
    ).unwrap().chunk_group;
    let mut chunk_group = compilation.chunk_group_by_ukey.remove(&chunk_group_ukey).unwrap();
    order_chunk_group(&mut chunk_group, &modules, &post_order_modules);
    compilation.chunk_group_by_ukey.insert(chunk_group_ukey, chunk_group);
    assert(compilation.chunk_group_by_ukey@ =~= old(compilation).chunk_group_by_ukey@.insert(
        chunk_group_ukey,
        compilation.chunk_group_by_ukey@[chunk_group_ukey],
    ));
    let stats = &mut splitter.parallel_state.stats;
    stats.chunk_group_order_time_ns = stop_timer(stats.chunk_group_order_time_ns, start, clock);

    let start = start_timer(measure, clock);
    order_globally(
        splitter,
        compilation,
        &global_pre_order_candidates,
        &global_post_order_candidates,
    );
    let stats = &mut splitter.parallel_state.stats;
    stats.global_order_time_ns = stop_timer(stats.global_order_time_ns, start, clock);

    let async_blocks_start = start_timer(measure, clock);
    PendingCommit {
        chunk_group_info,
        chunk,
        async_blocks,
        skipped_items,
        skipped_connections,
        async_blocks_start,
    }
}

/// Whether `after` is the record of a chunk group with what a walk has skipped added to it.
pub open spec fn skips_noted(
    info: ChunkGroupInfo,
    after: ChunkGroupInfo,
    pending: PendingCommit,
) -> bool {
    &&& after.skipped_items@ == info.skipped_items@ + pending.skipped_items@
    &&& after.skipped_module_connections@ == info.skipped_module_connections@
        + pending.skipped_connections@
    &&& after == ChunkGroupInfo {
        skipped_items: after.skipped_items,
        skipped_module_connections: after.skipped_module_connections,
        ..info
    }
}

/// Whether `after` is a splitter in which the record of the chunk group of a commit has what its walk has
/// skipped. The times are those of `after`.
pub open spec fn commit_finished(
    splitter: CodeSplitter,
    pending: PendingCommit,
    after: CodeSplitter,
) -> bool {
    let group = pending.chunk_group_info;
    let stats_after = after.parallel_state.stats;
    &&& after.chunk_group_infos@.contains_key(group)
    &&& after.chunk_group_infos@ == splitter.chunk_group_infos@.insert(
        group,
        after.chunk_group_infos@[group],
    )
    &&& skips_noted(splitter.chunk_group_infos@[group], after.chunk_group_infos@[group], pending)
    &&& after == with_stats(
        CodeSplitter { chunk_group_infos: after.chunk_group_infos, ..splitter },
        ParallelCodeSplitterStats {
            async_blocks_time_ns: stats_after.async_blocks_time_ns,
            skipped_items_time_ns: stats_after.skipped_items_time_ns,
            ..splitter.parallel_state.stats
        },
    )
}

/// Ends a commit once chunk groups were made for the `import()` blocks: notes what was skipped.
pub fn finish_commit<C: Fn() -> u64>(
    splitter: &mut CodeSplitter,
    pending: PendingCommit,
    clock: &C,
)
    requires
        call_requires(clock, ()),
        old(splitter).chunk_group_infos@.contains_key(pending.chunk_group_info),
    ensures
        commit_finished(*old(splitter), pending, *final(splitter)),
        ({
            let stats = old(splitter).parallel_state.stats;
            let stats_after = final(splitter).parallel_state.stats;
            &&& timed(
                clock,
                pending.async_blocks_start,
                stats.async_blocks_time_ns,
                stats_after.async_blocks_time_ns,
            )
            &&& phase_timed(
                clock,
                old(splitter).parallel_state.stats_enabled,
                stats.skipped_items_time_ns,
                stats_after.skipped_items_time_ns,
            )
        }),
{
    let stats = &mut splitter.parallel_state.stats;
    stats.async_blocks_time_ns = stop_timer(
        stats.async_blocks_time_ns,
        pending.async_blocks_start,
        clock,
    );
    let start = start_timer(splitter.parallel_state.stats_enabled, clock);
    let group: u64 = pending.chunk_group_info;
    let mut skipped_items = pending.skipped_items;
    let mut skipped_connections = pending.skipped_connections;
    let mut info = splitter.chunk_group_infos.remove(&group).unwrap();
    info.skipped_items.append(&mut skipped_items);
    info.skipped_module_connections.append(&mut skipped_connections);
    splitter.chunk_group_infos.insert(group, info);
    assert(splitter.chunk_group_infos@ =~= old(splitter).chunk_group_infos@.insert(
        group,
        splitter.chunk_group_infos@[group],
    ));
    let stats = &mut splitter.parallel_state.stats;
    stats.skipped_items_time_ns = stop_timer(stats.skipped_items_time_ns, start, clock);
}

} // verus!
