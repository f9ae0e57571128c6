use vstd::prelude::*;

use crate::counter::{counter_add, counter_sum};
use crate::graph::{DependenciesBlockIdentifier, ModuleIdentifier};
use crate::queue::ProcessBlock;
use crate::schedule::with_stats;
use crate::splitter::{CodeSplitter, Compilation};
use crate::stats::{ParallelCodeSplitterStats, stop_timer, timed};
use crate::walk::{
    ParallelWalkJob, ParallelWalkResult, WalkInputs, walk_outcome, walk_root,
};
use crate::walk_model::ExtractedBlocks;

verus! {

broadcast use vstd::std_specs::hash::group_hash_axioms;

/// Whether there is a record of a root's chunk group, and a mask of its chunk.
pub open spec fn known_root(splitter: CodeSplitter, root: ProcessBlock) -> bool {
    &&& splitter.chunk_group_infos@.contains_key(root.chunk_group_info)
    &&& splitter.mask_by_chunk@.contains_key(root.chunk)
}

/// Whether a job is to walk a root with what the splitter knows of its chunk and chunk group.
pub open spec fn job_for(splitter: CodeSplitter, root: ProcessBlock, job: ParallelWalkJob) -> bool {
    let info = splitter.chunk_group_infos@[root.chunk_group_info];
    &&& job.root == root
    &&& job.runtime == info.runtime
    &&& job.min_available_modules == info.min_available_modules
    &&& job.chunk_mask@ == splitter.mask_by_chunk@[root.chunk]@
}

/// The jobs to walk the roots of a batch, in their order.
pub fn parallel_walk_jobs(splitter: &CodeSplitter, roots: Vec<ProcessBlock>) -> (jobs: Vec<
    ParallelWalkJob,
>)
    requires
        forall|i: int| 0 <= i < roots@.len() ==> known_root(*splitter, #[trigger] roots@[i]),
    ensures
        jobs@.len() == roots@.len(),
        forall|i: int|
            0 <= i < roots@.len() ==> job_for(*splitter, roots@[i], #[trigger] jobs@[i]),
{
    let mut jobs: Vec<ParallelWalkJob> = Vec::new();
    let mut i: usize = 0;
    while i < roots.len()
        invariant
            i <= roots@.len(),
            forall|i: int| 0 <= i < roots@.len() ==> known_root(*splitter, #[trigger] roots@[i]),
            jobs@.len() == i,
            forall|j: int| 0 <= j < i ==> job_for(*splitter, roots@[j], #[trigger] jobs@[j]),
        decreases roots.len() - i,
    {
        let root = roots[i];
        assert(known_root(*splitter, roots@[i as int]));
        let chunk_group_info = splitter.chunk_group_infos.get(&root.chunk_group_info).unwrap();
        let chunk_mask = splitter.mask_by_chunk.get(&root.chunk).unwrap().duplicate();
        jobs.push(
            ParallelWalkJob {
                root,
                runtime: chunk_group_info.runtime,
                min_available_modules: chunk_group_info.min_available_modules.clone(),
                chunk_mask,
            },
        );
        i = i + 1;
    }
    jobs
}

/// What a walk in this runtime reads of a splitter.
pub open spec fn inputs_of(splitter: &CodeSplitter, runtime: u64) -> WalkInputs<'_> {
    WalkInputs {
        prepared_blocks_map: &splitter.prepared_blocks_map,
        ordinal_by_module: &splitter.ordinal_by_module,
        shared_block_modules: if splitter.block_modules_runtime_map@.contains_key(runtime) {
            Some(&splitter.block_modules_runtime_map@[runtime])
        } else {
            None
        },
    }
}

/// Walks the root of a job with what the splitter has prepared, and with the targets that were
/// extracted before in the job's runtime. Nothing is changed, so any number of jobs can be walked
/// side by side.
pub fn walk_job<F: Fn(DependenciesBlockIdentifier) -> ExtractedBlocks>(
    splitter: &CodeSplitter,
    compilation: &Compilation,
    job: ParallelWalkJob,
    extract: &F,
) -> (r: Result<ParallelWalkResult, ModuleIdentifier>)
    requires
        forall|block: DependenciesBlockIdentifier| call_requires(extract, (block,)),
        forall|module: ModuleIdentifier| #[trigger]
            splitter.ordinal_by_module@.contains_key(module)
                ==> splitter.ordinal_by_module@[module] <= usize::MAX,
    ensures
        walk_outcome(
            job,
            compilation.module_graph@,
            inputs_of(splitter, job.runtime),
            extract,
            r,
        ),
{
    let shared_block_modules = splitter.block_modules_runtime_map.get(&job.runtime);
    let inputs = WalkInputs {
        prepared_blocks_map: &splitter.prepared_blocks_map,
        ordinal_by_module: &splitter.ordinal_by_module,
        shared_block_modules,
    };
    walk_root(job, &compilation.module_graph, &inputs, extract)
}

/// The sum of what `part` takes from each result.
pub open spec fn sum_over(
    results: Seq<ParallelWalkResult>,
    part: spec_fn(ParallelWalkResult) -> int,
) -> int
    decreases results.len(),
{
    if results.len() == 0 {
        0
    } else {
        sum_over(results.drop_last(), part) + part(results.last())
    }
}

/// Whether `after` is a splitter into which was added what the walks of a batch have counted. The time
/// is that of `after`.
pub open spec fn walks_recorded(
    splitter: CodeSplitter,
    results: Seq<ParallelWalkResult>,
    after: CodeSplitter,
) -> bool {
    let stats = splitter.parallel_state.stats;
    after == with_stats(
        splitter,
        ParallelCodeSplitterStats {
            walk_time_ns: after.parallel_state.stats.walk_time_ns,
            processed_queue_items: counter_sum(
                stats.processed_queue_items,
                sum_over(
                    results,
                    |result: ParallelWalkResult| result.processed_queue_items as int,
                ),
            ),
            processed_blocks: counter_sum(
                stats.processed_blocks,
                sum_over(results, |result: ParallelWalkResult| result.processed_blocks as int),
            ),
            committed_modules: counter_sum(
                stats.committed_modules,
                sum_over(results, |result: ParallelWalkResult| result.modules@.len() as int),
            ),
            ..stats
        },
    )
}

/// Adds up what the walks of a batch have counted, and the time that they took together.
pub fn record_walks<C: Fn() -> u64>(
    splitter: &mut CodeSplitter,
    results: &Vec<ParallelWalkResult>,
    walk_start: Option<u64>,
    clock: &C,
)
    requires
        call_requires(clock, ()),
    ensures
        walks_recorded(*old(splitter), results@, *final(splitter)),
        timed(
            clock,
            walk_start,
            old(splitter).parallel_state.stats.walk_time_ns,
            final(splitter).parallel_state.stats.walk_time_ns,
        ),
{
    let ghost queue_items = |result: ParallelWalkResult| result.processed_queue_items as int;
    let ghost blocks = |result: ParallelWalkResult| result.processed_blocks as int;
    let ghost modules = |result: ParallelWalkResult| result.modules@.len() as int;
    let stats = &mut splitter.parallel_state.stats;
    let ghost before = *stats;
    stats.walk_time_ns = stop_timer(stats.walk_time_ns, walk_start, clock);
    let mut processed_queue_items: u32 = stats.processed_queue_items;
    let mut processed_blocks: u32 = stats.processed_blocks;
    let mut committed_modules: u32 = stats.committed_modules;
    let mut i: usize = 0;
    assert(results@.take(0) =~= Seq::empty());
    while i < results.len()
        invariant
            i <= results@.len(),
            queue_items == (|result: ParallelWalkResult| result.processed_queue_items as int),
            blocks == (|result: ParallelWalkResult| result.processed_blocks as int),
            modules == (|result: ParallelWalkResult| result.modules@.len() as int),
            processed_queue_items == counter_sum(
                before.processed_queue_items,
                sum_over(results@.take(i as int), queue_items),
            ),
            processed_blocks == counter_sum(
                before.processed_blocks,
                sum_over(results@.take(i as int), blocks),
            ),
            committed_modules == counter_sum(
                before.committed_modules,
                sum_over(results@.take(i as int), modules),
            ),
        decreases results.len() - i,
    {
        let result = &results[i];
        processed_queue_items = processed_queue_items.wrapping_add(result.processed_queue_items);
        processed_blocks = processed_blocks.wrapping_add(result.processed_blocks);
        committed_modules = counter_add(committed_modules, result.modules.len());
        i = i + 1;
        assert(results@.take(i as int).drop_last() =~= results@.take(i - 1));
    }
    assert(results@.take(i as int) =~= results@);
    stats.processed_queue_items = processed_queue_items;
    stats.processed_blocks = processed_blocks;
    stats.committed_modules = committed_modules;
}

} // verus!
