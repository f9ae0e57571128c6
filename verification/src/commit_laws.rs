use vstd::prelude::*;

use std::sync::Arc;

use crate::batch::job_for;
use crate::commit::{
    cached, can_commit, compilation_committed, connection_of, entered_fresh, known_result, left_fresh,
    runtime_cache, same_runtime, splitter_committed, stale,
};
use crate::graph::{
    BlockModules, CgiUkey, ChunkGroupUkey, ChunkUkey, DependenciesBlockIdentifier, ModuleIdentifier,
    RuntimeKey,
};
use crate::order::{
    ModuleGraphModule, TraversalOrder, lemma_placed_keeps_other_order,
    lemma_unplaced_after_other_order, placed,
};
use crate::order_laws::{
    checked_are_placed, global_places_distinct, law_checked_stay_placed, law_global_places_in_order,
    law_global_places_stay_distinct, law_numbered_in_order, law_orders_are_independent,
    law_places_stay_distinct, lemma_unplaced_known, places_distinct,
};
use crate::queue::ProcessBlock;
use crate::splitter::{ChunkGroupInfo, CodeSplitter, Compilation};
use crate::walk::{
    ParallelWalkJob, ParallelWalkResult, WalkInputs, asks, walk_env, walk_outcome,
};
use crate::walk_laws::{finished_walk, holds_ordinal, mask_grown};
use crate::walk_model::{ExtractedBlocks, WalkState, is_walk, walk_start};

verus! {

/// The result of a job is not stale as long as nothing has happened since the job was made.
pub proof fn law_untouched_is_not_stale(
    splitter: CodeSplitter,
    root: ProcessBlock,
    result: ParallelWalkResult,
)
    requires
        job_for(splitter, root, result.job),
    ensures
        !stale(splitter, result),
{
}

/// Whether a result is stale is up to what is known of chunk groups and chunks: what was counted, cached
/// or queued makes no difference.
pub proof fn law_only_groups_and_masks_outdate(
    splitter: CodeSplitter,
    after: CodeSplitter,
    result: ParallelWalkResult,
)
    requires
        after.chunk_group_infos@ == splitter.chunk_group_infos@,
        after.mask_by_chunk@ == splitter.mask_by_chunk@,
    ensures
        stale(after, result) == stale(splitter, result),
        known_result(after, result) == known_result(splitter, result),
{
}

/// Committing a result leaves a result for another chunk as it was, stale or not.
pub proof fn law_commit_spares_other_chunks(
    splitter: CodeSplitter,
    compilation: Compilation,
    committed: ParallelWalkResult,
    after: CodeSplitter,
    other: ParallelWalkResult,
)
    requires
        splitter_committed(splitter, compilation, committed, after),
        committed.job.root.chunk != other.job.root.chunk,
    ensures
        stale(after, other) == stale(splitter, other),
        known_result(after, other) == known_result(splitter, other),
{
}

/// Committing a result that has added to its chunk makes any other result stale that was walked for
/// the same chunk with the same modules in it: no two walks that know nothing of each other fill one
/// chunk.
pub proof fn law_commit_outdates_same_chunk(
    splitter: CodeSplitter,
    compilation: Compilation,
    committed: ParallelWalkResult,
    after: CodeSplitter,
    other: ParallelWalkResult,
)
    requires
        splitter_committed(splitter, compilation, committed, after),
        committed.job.root.chunk == other.job.root.chunk,
        committed.job.chunk_mask@ == other.job.chunk_mask@,
        committed.resulting_chunk_mask@ != committed.job.chunk_mask@,
    ensures
        stale(after, other),
{
}

/// What is known in a runtime stays known and does not change when what a walk has extracted is added,
/// and what the walk has extracted is known in its runtime then, unless that has changed.
pub proof fn law_caching_only_adds(
    infos: Map<CgiUkey, ChunkGroupInfo>,
    caches: Map<RuntimeKey, Map<DependenciesBlockIdentifier, Arc<BlockModules>>>,
    result: ParallelWalkResult,
    runtime: RuntimeKey,
    block: DependenciesBlockIdentifier,
)
    ensures
        ({
            let before = runtime_cache(caches, runtime);
            let after = runtime_cache(cached(infos, caches, result), runtime);
            &&& before.contains_key(block) ==> after.contains_key(block) && after[block]
                == before[block]
            &&& after.contains_key(block) <==> before.contains_key(block) || (same_runtime(
                infos,
                result,
            ) && runtime == result.job.runtime && result.block_modules_cache@.contains_key(block))
            &&& !before.contains_key(block) && after.contains_key(block) ==> after[block]
                == result.block_modules_cache@[block]
        }),
{
}

/// Whether a chunk's mask holds exactly the ordinals of the modules that the chunk is connected with.
pub open spec fn mask_agrees(
    ordinals: Map<ModuleIdentifier, u64>,
    mask: Set<u64>,
    modules: Set<ModuleIdentifier>,
) -> bool {
    forall|ordinal: u64| #[trigger]
        mask.contains(ordinal) <==> exists|module: ModuleIdentifier|
            modules.contains(module) && #[trigger] ordinals[module] == ordinal
}

/// Committing a result that is not stale keeps a chunk's mask and the modules in agreement that the chunk
/// is connected with, as the ones of its walk are connected with it. The masks of the other chunks stay as
/// they were.
pub proof fn law_commit_keeps_masks_in_agreement<
    F: Fn(DependenciesBlockIdentifier) -> ExtractedBlocks,
>(
    splitter: CodeSplitter,
    compilation: Compilation,
    job: ParallelWalkJob,
    graph: Map<ModuleIdentifier, ModuleGraphModule>,
    inputs: WalkInputs<'_>,
    extract: &F,
    result: ParallelWalkResult,
    after: CodeSplitter,
    modules: Set<ModuleIdentifier>,
    other: ChunkUkey,
)
    requires
        walk_outcome(job, graph, inputs, extract, Ok(result)),
        !stale(splitter, result),
        splitter_committed(splitter, compilation, result, after),
        mask_agrees(
            inputs.ordinal_by_module@,
            splitter.mask_by_chunk@[connection_of(result).0]@,
            modules,
        ),
    ensures
        mask_agrees(
            inputs.ordinal_by_module@,
            after.mask_by_chunk@[connection_of(result).0]@,
            modules.union(connection_of(result).1.to_set()),
        ),
        other != connection_of(result).0 ==> {
            &&& after.mask_by_chunk@.contains_key(other) == splitter.mask_by_chunk@.contains_key(
                other,
            )
            &&& after.mask_by_chunk@[other] == splitter.mask_by_chunk@[other]
        },
{
    let ordinals = inputs.ordinal_by_module@;
    let env = walk_env(inputs, job.min_available_modules@);
    let start = walk_start(job.root.block, job.root.module, job.chunk_mask@);
    let mask = job.chunk_mask@;
    let added = result.modules@;
    let (trace, founds) = choose|trace: Seq<WalkState>, founds: Seq<ExtractedBlocks>|
        {
            &&& #[trigger] is_walk(env, start, trace, founds)
            &&& asks(extract, env, trace, founds)
            &&& trace.last().actions.len() == 0
            &&& result.reports(trace.last())
            &&& finished_walk(env, job.root.block, job.chunk_mask@, trace.last())
        };
    let s = trace.last();
    assert(mask_grown(env, mask, s));
    let all = modules.union(added.to_set());
    assert forall|ordinal: u64| #[trigger]
        result.resulting_chunk_mask@.contains(ordinal) <==> exists|module: ModuleIdentifier|
            all.contains(module) && #[trigger] ordinals[module] == ordinal by {
        assert(s.mask.contains(ordinal) <==> mask.contains(ordinal) || holds_ordinal(
            env,
            added,
            ordinal,
        ));
        assert(mask.contains(ordinal) <==> exists|module: ModuleIdentifier|
            modules.contains(module) && #[trigger] ordinals[module] == ordinal);
        if mask.contains(ordinal) {
            let module = choose|module: ModuleIdentifier|
                modules.contains(module) && #[trigger] ordinals[module] == ordinal;
            assert(all.contains(module));
        }
        if holds_ordinal(env, added, ordinal) {
            let i = choose|i: int|
                0 <= i < added.len() && env.ordinals[#[trigger] added[i]] == ordinal;
            assert(added.to_set().contains(added[i]));
            assert(all.contains(added[i]) && ordinals[added[i]] == ordinal);
        }
        if exists|module: ModuleIdentifier|
            all.contains(module) && #[trigger] ordinals[module] == ordinal {
            let module = choose|module: ModuleIdentifier|
                all.contains(module) && #[trigger] ordinals[module] == ordinal;
            if !modules.contains(module) {
                let i = choose|i: int| 0 <= i < added.len() && added[i] == module;
                assert(env.ordinals[added[i]] == ordinal);
                assert(holds_ordinal(env, added, ordinal));
            }
        }
    }
}

/// Whether the places in the two global orders and in a chunk group are distinct and lie before the
/// next ones, and every module that was checked for a global order has a place in it.
pub open spec fn orders_sound(
    splitter: CodeSplitter,
    compilation: Compilation,
    group: ChunkGroupUkey,
) -> bool {
    let graph = compilation.module_graph@;
    let state = splitter.parallel_state;
    let chunk_group = compilation.chunk_group_by_ukey@[group];
    &&& global_places_distinct(
        graph,
        TraversalOrder::Pre,
        splitter.next_free_module_pre_order_index,
    )
    &&& global_places_distinct(
        graph,
        TraversalOrder::Post,
        splitter.next_free_module_post_order_index,
    )
    &&& checked_are_placed(graph, TraversalOrder::Pre, state.checked_pre_order_modules@)
    &&& checked_are_placed(graph, TraversalOrder::Post, state.checked_post_order_modules@)
    &&& places_distinct(chunk_group.module_pre_order_indices@, chunk_group.next_pre_order_index)
    &&& places_distinct(chunk_group.module_post_order_indices@, chunk_group.next_post_order_index)
}

/// Committing a result keeps the orders sound, for its own chunk group and for any other.
pub proof fn law_commit_keeps_orders_sound(
    splitter: CodeSplitter,
    compilation: Compilation,
    result: ParallelWalkResult,
    after: CodeSplitter,
    compilation_after: Compilation,
    group: ChunkGroupUkey,
)
    requires
        can_commit(splitter, compilation, result),
        splitter_committed(splitter, compilation, result, after),
        compilation_committed(splitter, compilation, result, compilation_after),
        orders_sound(splitter, compilation, group),
    ensures
        orders_sound(after, compilation_after, group),
{
    let graph = compilation.module_graph@;
    let pre = result.global_pre_order_candidates@;
    let post = result.global_post_order_candidates@;
    let checked_pre = splitter.parallel_state.checked_pre_order_modules@;
    let checked_post = splitter.parallel_state.checked_post_order_modules@;
    let next_pre = splitter.next_free_module_pre_order_index;
    let next_post = splitter.next_free_module_post_order_index;
    let entered = entered_fresh(splitter, compilation, pre);
    let left = left_fresh(splitter, compilation, post);
    let between = placed(graph, TraversalOrder::Pre, next_pre, entered);

    lemma_unplaced_known(graph, TraversalOrder::Pre, checked_pre, pre);
    law_global_places_stay_distinct(graph, TraversalOrder::Pre, checked_pre, next_pre, pre);
    law_checked_stay_placed(graph, TraversalOrder::Pre, checked_pre, next_pre, pre);
    law_orders_are_independent(
        graph,
        TraversalOrder::Pre,
        next_pre,
        entered,
        TraversalOrder::Post,
        next_post,
        checked_post,
    );
    lemma_unplaced_after_other_order(
        graph,
        TraversalOrder::Pre,
        next_pre,
        entered,
        TraversalOrder::Post,
        checked_post,
        post,
    );
    assert forall|module: ModuleIdentifier|
        post.contains(module) && !checked_post.contains(
            module,
        ) implies #[trigger] between.contains_key(module) by {
        assert(graph.contains_key(module));
        lemma_placed_keeps_other_order(
            graph,
            TraversalOrder::Pre,
            next_pre,
            entered,
            TraversalOrder::Post,
            module,
        );
    }
    lemma_unplaced_known(between, TraversalOrder::Post, checked_post, post);
    law_global_places_stay_distinct(between, TraversalOrder::Post, checked_post, next_post, post);
    law_checked_stay_placed(between, TraversalOrder::Post, checked_post, next_post, post);
    law_orders_are_independent(
        between,
        TraversalOrder::Post,
        next_post,
        left,
        TraversalOrder::Pre,
        (next_pre + entered.len()) as u32,
        checked_pre.union(pre.to_set()),
    );

    let own = splitter.chunk_group_infos@[result.job.root.chunk_group_info].chunk_group;
    if group == own {
        let chunk_group = compilation.chunk_group_by_ukey@[group];
        law_places_stay_distinct(
            chunk_group.module_pre_order_indices@,
            chunk_group.next_pre_order_index,
            result.modules@,
        );
        law_places_stay_distinct(
            chunk_group.module_post_order_indices@,
            chunk_group.next_post_order_index,
            result.post_order_modules@,
        );
    }
}

/// A module that has a place in a global order or in a chunk group keeps it when a result is committed, so
/// that what a walk has left out of its candidates is not missed however many results are committed
/// before its own.
pub proof fn law_commit_keeps_places(
    splitter: CodeSplitter,
    compilation: Compilation,
    result: ParallelWalkResult,
    after: CodeSplitter,
    compilation_after: Compilation,
    group: ChunkGroupUkey,
    module: ModuleIdentifier,
)
    requires
        can_commit(splitter, compilation, result),
        splitter_committed(splitter, compilation, result, after),
        compilation_committed(splitter, compilation, result, compilation_after),
        compilation.chunk_group_by_ukey@.contains_key(group),
    ensures
        compilation_after.module_graph@.contains_key(module)
            == compilation.module_graph@.contains_key(module),
        forall|order: TraversalOrder|
            compilation.module_graph@.contains_key(module)
                && compilation.module_graph@[module].place(order) is Some
                ==> #[trigger] compilation_after.module_graph@[module].place(order)
                == compilation.module_graph@[module].place(order),
        compilation_after.chunk_group_by_ukey@.contains_key(group),
        ({
            let chunk_group = compilation.chunk_group_by_ukey@[group];
            let chunk_group_after = compilation_after.chunk_group_by_ukey@[group];
            &&& chunk_group.module_pre_order_indices@.submap_of(
                chunk_group_after.module_pre_order_indices@,
            )
            &&& chunk_group.module_post_order_indices@.submap_of(
                chunk_group_after.module_post_order_indices@,
            )
        }),
{
    let graph = compilation.module_graph@;
    let pre = result.global_pre_order_candidates@;
    let post = result.global_post_order_candidates@;
    let checked_pre = splitter.parallel_state.checked_pre_order_modules@;
    let checked_post = splitter.parallel_state.checked_post_order_modules@;
    let next_pre = splitter.next_free_module_pre_order_index;
    let next_post = splitter.next_free_module_post_order_index;
    let entered = entered_fresh(splitter, compilation, pre);
    let left = left_fresh(splitter, compilation, post);
    let between = placed(graph, TraversalOrder::Pre, next_pre, entered);
    lemma_unplaced_known(graph, TraversalOrder::Pre, checked_pre, pre);
    lemma_unplaced_known(graph, TraversalOrder::Post, checked_post, post);
    law_global_places_in_order(graph, TraversalOrder::Pre, checked_pre, next_pre, pre);
    lemma_placed_keeps_other_order(
        graph,
        TraversalOrder::Pre,
        next_pre,
        entered,
        TraversalOrder::Post,
        module,
    );
    lemma_unplaced_after_other_order(
        graph,
        TraversalOrder::Pre,
        next_pre,
        entered,
        TraversalOrder::Post,
        checked_post,
        post,
    );
    law_global_places_in_order(between, TraversalOrder::Post, checked_post, next_post, post);
    assert forall|i: int| 0 <= i < left.len() implies between.contains_key(#[trigger] left[i]) by {
        assert(graph.contains_key(left[i]));
        lemma_placed_keeps_other_order(
            graph,
            TraversalOrder::Pre,
            next_pre,
            entered,
            TraversalOrder::Post,
            left[i],
        );
    }
    lemma_placed_keeps_other_order(
        between,
        TraversalOrder::Post,
        next_post,
        left,
        TraversalOrder::Pre,
        module,
    );
    assert forall|order: TraversalOrder|
        graph.contains_key(module) && graph[module].place(
            order,
        ) is Some implies #[trigger] compilation_after.module_graph@[module].place(order)
        == graph[module].place(order) by {
        match order {
            TraversalOrder::Pre => {
                assert(between[module] == graph[module]);
            },
            TraversalOrder::Post => {
                assert(between[module].place(order) is Some);
                assert(compilation_after.module_graph@[module] == between[module]);
            },
        }
    }
    let own = splitter.chunk_group_infos@[result.job.root.chunk_group_info].chunk_group;
    if group == own {
        let chunk_group = compilation.chunk_group_by_ukey@[group];
        law_numbered_in_order(
            chunk_group.module_pre_order_indices@,
            chunk_group.next_pre_order_index,
            result.modules@,
        );
        law_numbered_in_order(
            chunk_group.module_post_order_indices@,
            chunk_group.next_post_order_index,
            result.post_order_modules@,
        );
    }
}

/// Once a result is committed, every module that was walked has a place in both orders of its chunk
/// group, every candidate has one in the global order that it was a candidate for, and the chunk has
/// the mask that the walk has brought.
pub proof fn law_committed_modules_have_places(
    splitter: CodeSplitter,
    compilation: Compilation,
    result: ParallelWalkResult,
    after: CodeSplitter,
    compilation_after: Compilation,
    module: ModuleIdentifier,
)
    requires
        can_commit(splitter, compilation, result),
        splitter_committed(splitter, compilation, result, after),
        compilation_committed(splitter, compilation, result, compilation_after),
        orders_sound(
            splitter,
            compilation,
            splitter.chunk_group_infos@[result.job.root.chunk_group_info].chunk_group,
        ),
    ensures
        ({
            let own = splitter.chunk_group_infos@[result.job.root.chunk_group_info].chunk_group;
            let chunk_group = compilation_after.chunk_group_by_ukey@[own];
            let graph = compilation_after.module_graph@;
            &&& result.modules@.contains(module)
                ==> chunk_group.module_pre_order_indices@.contains_key(module)
            &&& result.post_order_modules@.contains(module)
                ==> chunk_group.module_post_order_indices@.contains_key(module)
            &&& result.global_pre_order_candidates@.contains(module) ==> graph.contains_key(module)
                && graph[module].pre_order_index is Some
            &&& result.global_post_order_candidates@.contains(module) ==> graph.contains_key(module)
                && graph[module].post_order_index is Some
            &&& after.mask_by_chunk@[result.job.root.chunk]@ == result.resulting_chunk_mask@
        }),
{
    let own = splitter.chunk_group_infos@[result.job.root.chunk_group_info].chunk_group;
    let chunk_group = compilation.chunk_group_by_ukey@[own];
    let graph = compilation_after.module_graph@;
    law_commit_keeps_orders_sound(splitter, compilation, result, after, compilation_after, own);
    law_numbered_in_order(
        chunk_group.module_pre_order_indices@,
        chunk_group.next_pre_order_index,
        result.modules@,
    );
    law_numbered_in_order(
        chunk_group.module_post_order_indices@,
        chunk_group.next_post_order_index,
        result.post_order_modules@,
    );
    if result.global_pre_order_candidates@.contains(module) {
        assert(after.parallel_state.checked_pre_order_modules@.contains(module));
        assert(graph[module].place(TraversalOrder::Pre) is Some);
    }
    if result.global_post_order_candidates@.contains(module) {
        assert(after.parallel_state.checked_post_order_modules@.contains(module));
        assert(graph[module].place(TraversalOrder::Post) is Some);
    }
}

} // verus!
