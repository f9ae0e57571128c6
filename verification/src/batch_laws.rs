use vstd::prelude::*;

use std::sync::Arc;

use crate::batch::{inputs_of, job_for, sum_over};
use crate::batch_model::{
    BatchRun, BundlerCall, Settlement, SplitterContents, Stage, compilation_contents, counts_of,
    does_the_same, group_contents, info_contents, is_batch, is_settlement, same_stage, settles,
    splitter_contents,
};
use crate::commit::{
    PendingCommit, all_added_count, all_cached, all_extracted_count, can_commit, commit_finished,
    compilation_committed, group_changed, known_result, pending_of, runtime_caches,
    splitter_committed, stale, stale_counted,
};
use crate::graph::{
    BlockModule, BlockModules, CgiUkey, ChunkGroupUkey, ChunkUkey, DependenciesBlockIdentifier,
    ModuleIdentifier, RuntimeKey,
};
use crate::order::ModuleGraphModule;
use crate::queue::{ProcessBlock, QueueAction};
use crate::schedule::action_queued;
use crate::splitter::{ChunkGroupInfo, CodeSplitter, Compilation};
use crate::walk::{
    ParallelWalkJob, ParallelWalkResult, WalkInputs, asks, stuck, walk_env, walk_outcome,
};
use crate::walk_laws::{extracts_by, halted, law_walk_is_determined};
use crate::walk_model::{
    ExtractedBlocks, WalkEnv, WalkState, all_have_ordinals, extracts_next, first_without_ordinal,
    is_walk, modules_of, next_block, walk_start,
};

verus! {

/// Whether what `extract` finds is what `content` says, for every block.
pub open spec fn finds<F: Fn(DependenciesBlockIdentifier) -> ExtractedBlocks>(
    extract: &F,
    content: spec_fn(DependenciesBlockIdentifier) -> Seq<
        (DependenciesBlockIdentifier, Arc<BlockModules>),
    >,
) -> bool {
    forall|block: DependenciesBlockIdentifier, found: ExtractedBlocks| #[trigger]
        call_ensures(extract, (block,), found) ==> found@ == content(block)
}

/// Whether two walks have brought the same: results that hold the same, or the same target without an
/// ordinal.
pub open spec fn same_outcome(
    a: Result<ParallelWalkResult, ModuleIdentifier>,
    b: Result<ParallelWalkResult, ModuleIdentifier>,
) -> bool {
    match (a, b) {
        (Ok(a), Ok(b)) => a@ == b@,
        (Err(a), Err(b)) => a == b,
        _ => false,
    }
}

/// There is only one target without an ordinal that is met first.
proof fn lemma_first_without_ordinal(
    env: WalkEnv,
    targets: Seq<BlockModule>,
    a: ModuleIdentifier,
    b: ModuleIdentifier,
)
    requires
        first_without_ordinal(env, targets, a),
        first_without_ordinal(env, targets, b),
    ensures
        a == b,
{
    let i = choose|i: int|
        #![trigger targets[i]]
        0 <= i < targets.len() && targets[i].0 == a && all_have_ordinals(env, targets.skip(i + 1));
    let j = choose|j: int|
        #![trigger targets[j]]
        0 <= j < targets.len() && targets[j].0 == b && all_have_ordinals(env, targets.skip(j + 1));
    if i < j {
        assert(targets.skip(i + 1)[j - i - 1] == targets[j]);
    } else if j < i {
        assert(targets.skip(j + 1)[i - j - 1] == targets[i]);
    }
}

/// Where a walk is stuck, it cannot go on, and what it is stuck at is fixed by what the extraction says.
proof fn lemma_stuck_is_halted<F: Fn(DependenciesBlockIdentifier) -> ExtractedBlocks>(
    extract: &F,
    env: WalkEnv,
    s: WalkState,
    missing: ModuleIdentifier,
    content: spec_fn(DependenciesBlockIdentifier) -> Seq<
        (DependenciesBlockIdentifier, Arc<BlockModules>),
    >,
)
    requires
        stuck(extract, env, s, missing),
        finds(extract, content),
    ensures
        halted(env, s, content),
        first_without_ordinal(
            env,
            modules_of(env.shared, s.cache, next_block(s), content(next_block(s))),
            missing,
        ),
{
    let found = choose|found: ExtractedBlocks|
        {
            &&& extracts_next(env, s) ==> call_ensures(extract, (next_block(s),), found)
            &&& first_without_ordinal(
                env,
                #[trigger] modules_of(env.shared, s.cache, next_block(s), found@),
                missing,
            )
        };
    let targets = modules_of(env.shared, s.cache, next_block(s), content(next_block(s)));
    assert(modules_of(env.shared, s.cache, next_block(s), found@) == targets);
    let i = choose|i: int|
        #![trigger targets[i]]
        0 <= i < targets.len() && targets[i].0 == missing && all_have_ordinals(
            env,
            targets.skip(i + 1),
        );
    assert(!env.ordinals.contains_key(targets[i].0));
}

/// What walking a job brings is fixed by the job, by what the walk reads and by what the extraction says:
/// who walks it, and when, makes no difference.
pub proof fn law_outcome_is_determined<
    F: Fn(DependenciesBlockIdentifier) -> ExtractedBlocks,
    G: Fn(DependenciesBlockIdentifier) -> ExtractedBlocks,
>(
    job1: ParallelWalkJob,
    job2: ParallelWalkJob,
    graph: Map<ModuleIdentifier, ModuleGraphModule>,
    inputs: WalkInputs<'_>,
    extract1: &F,
    extract2: &G,
    r1: Result<ParallelWalkResult, ModuleIdentifier>,
    r2: Result<ParallelWalkResult, ModuleIdentifier>,
    content: spec_fn(DependenciesBlockIdentifier) -> Seq<
        (DependenciesBlockIdentifier, Arc<BlockModules>),
    >,
)
    requires
        job1@ == job2@,
        finds(extract1, content),
        finds(extract2, content),
        walk_outcome(job1, graph, inputs, extract1, r1),
        walk_outcome(job2, graph, inputs, extract2, r2),
    ensures
        same_outcome(r1, r2),
{
    let env = walk_env(inputs, job1.min_available_modules@);
    let start = walk_start(job1.root.block, job1.root.module, job1.chunk_mask@);
    let (trace1, founds1) = lemma_outcome_has_a_walk(job1, graph, inputs, extract1, r1, content);
    let (trace2, founds2) = lemma_outcome_has_a_walk(job2, graph, inputs, extract2, r2, content);
    assert(job1@.root == job2@.root);
    law_walk_is_determined(env, start, trace1, founds1, trace2, founds2, content);
    let s = trace1.last();
    match (r1, r2) {
        (Ok(a), Ok(b)) => {
            assert(a@ =~= b@);
        },
        (Err(a), Err(b)) => {
            lemma_first_without_ordinal(
                env,
                modules_of(env.shared, s.cache, next_block(s), content(next_block(s))),
                a,
                b,
            );
        },
        _ => {},
    }
}

/// The walk behind an outcome.
proof fn lemma_outcome_has_a_walk<F: Fn(DependenciesBlockIdentifier) -> ExtractedBlocks>(
    job: ParallelWalkJob,
    graph: Map<ModuleIdentifier, ModuleGraphModule>,
    inputs: WalkInputs<'_>,
    extract: &F,
    r: Result<ParallelWalkResult, ModuleIdentifier>,
    content: spec_fn(DependenciesBlockIdentifier) -> Seq<
        (DependenciesBlockIdentifier, Arc<BlockModules>),
    >,
) -> (walk: (Seq<WalkState>, Seq<ExtractedBlocks>))
    requires
        finds(extract, content),
        walk_outcome(job, graph, inputs, extract, r),
    ensures
        ({
            let env = walk_env(inputs, job.min_available_modules@);
            let start = walk_start(job.root.block, job.root.module, job.chunk_mask@);
            let s = walk.0.last();
            &&& is_walk(env, start, walk.0, walk.1)
            &&& extracts_by(env, walk.0, walk.1, content)
            &&& halted(env, s, content)
            &&& match r {
                Ok(result) => s.actions.len() == 0 && result.reports(s),
                Err(missing) => s.actions.len() > 0 && first_without_ordinal(
                    env,
                    modules_of(env.shared, s.cache, next_block(s), content(next_block(s))),
                    missing,
                ),
            }
        }),
{
    let env = walk_env(inputs, job.min_available_modules@);
    let start = walk_start(job.root.block, job.root.module, job.chunk_mask@);
    let (trace, founds) = choose|trace: Seq<WalkState>, founds: Seq<ExtractedBlocks>|
        {
            &&& #[trigger] is_walk(env, start, trace, founds)
            &&& asks(extract, env, trace, founds)
            &&& match r {
                Ok(result) => {
                    &&& trace.last().actions.len() == 0
                    &&& result.reports(trace.last())
                },
                Err(missing) => stuck(extract, env, trace.last(), missing),
            }
        };
    if r is Err {
        lemma_stuck_is_halted(extract, env, trace.last(), r->Err_0, content);
    }
    (trace, founds)
}

/// Whether a record that one splitter has another one has too, with the same in it.
proof fn lemma_same_infos(a: CodeSplitter, b: CodeSplitter, group: CgiUkey)
    requires
        splitter_contents(a) == splitter_contents(b),
        a.chunk_group_infos@.contains_key(group),
    ensures
        b.chunk_group_infos@.contains_key(group),
        info_contents(a.chunk_group_infos@[group]) == info_contents(b.chunk_group_infos@[group]),
{
    let x = splitter_contents(a).chunk_group_infos;
    let y = splitter_contents(b).chunk_group_infos;
    assert(x.contains_key(group) && y.contains_key(group));
    assert(x[group] == info_contents(a.chunk_group_infos@[group]));
    assert(y[group] == info_contents(b.chunk_group_infos@[group]));
}

proof fn lemma_same_masks(a: CodeSplitter, b: CodeSplitter, chunk: ChunkUkey)
    requires
        splitter_contents(a) == splitter_contents(b),
        a.mask_by_chunk@.contains_key(chunk),
    ensures
        b.mask_by_chunk@.contains_key(chunk),
        a.mask_by_chunk@[chunk]@ == b.mask_by_chunk@[chunk]@,
{
    let x = splitter_contents(a).mask_by_chunk;
    let y = splitter_contents(b).mask_by_chunk;
    assert(x.contains_key(chunk) && y.contains_key(chunk));
    assert(x[chunk] == a.mask_by_chunk@[chunk]@);
    assert(y[chunk] == b.mask_by_chunk@[chunk]@);
}

proof fn lemma_same_groups(a: Compilation, b: Compilation, group: ChunkGroupUkey)
    requires
        compilation_contents(a) == compilation_contents(b),
        a.chunk_group_by_ukey@.contains_key(group),
    ensures
        b.chunk_group_by_ukey@.contains_key(group),
        group_contents(a.chunk_group_by_ukey@[group]) == group_contents(
            b.chunk_group_by_ukey@[group],
        ),
{
    let x = compilation_contents(a).chunk_group_by_ukey;
    let y = compilation_contents(b).chunk_group_by_ukey;
    assert(x.contains_key(group) && y.contains_key(group));
    assert(x[group] == group_contents(a.chunk_group_by_ukey@[group]));
    assert(y[group] == group_contents(b.chunk_group_by_ukey@[group]));
}

/// Whether a result is stale is fixed by what splitter and result hold.
proof fn lemma_same_staleness(
    a: CodeSplitter,
    b: CodeSplitter,
    x: ParallelWalkResult,
    y: ParallelWalkResult,
)
    requires
        splitter_contents(a) == splitter_contents(b),
        x@ == y@,
        known_result(a, x),
        known_result(b, y),
    ensures
        stale(a, x) == stale(b, y),
{
    assert(x@.job == y@.job);
    let group = x.job.root.chunk_group_info;
    lemma_same_infos(a, b, group);
    assert(group_changed(a, x) == group_changed(b, y));
    if !group_changed(a, x) {
        lemma_same_masks(a, b, x.job.root.chunk);
    }
}

/// What queueing a stale result's root does is fixed by what splitter and result hold.
proof fn lemma_same_queued(
    a: CodeSplitter,
    b: CodeSplitter,
    root: ProcessBlock,
    a_after: CodeSplitter,
    b_after: CodeSplitter,
)
    requires
        splitter_contents(a) == splitter_contents(b),
        action_queued(stale_counted(a), QueueAction::ProcessBlock(root), a_after),
        action_queued(stale_counted(b), QueueAction::ProcessBlock(root), b_after),
    ensures
        splitter_contents(a_after) == splitter_contents(b_after),
{
    assert(splitter_contents(a_after) == (SplitterContents {
        counts: counts_of(stale_counted(a).parallel_state.stats),
        queue: a.queue@.push(QueueAction::ProcessBlock(root)),
        ..splitter_contents(a)
    }));
    assert(splitter_contents(b_after) == (SplitterContents {
        counts: counts_of(stale_counted(b).parallel_state.stats),
        queue: b.queue@.push(QueueAction::ProcessBlock(root)),
        ..splitter_contents(b)
    }));
    lemma_same_counts(a, b);
    assert(splitter_contents(a).queue == splitter_contents(b).queue);
}

/// Splitters that hold the same have counted the same.
proof fn lemma_same_counts(a: CodeSplitter, b: CodeSplitter)
    requires
        splitter_contents(a) == splitter_contents(b),
    ensures
        counts_of(a.parallel_state.stats) == counts_of(b.parallel_state.stats),
{
    assert(splitter_contents(a).counts == splitter_contents(b).counts);
}

/// What a commit does to splitter and compilation is fixed by what they and the result hold.
proof fn lemma_same_commit<B>(
    a: Stage<B>,
    b: Stage<B>,
    x: ParallelWalkResult,
    y: ParallelWalkResult,
    a_after: Stage<B>,
    b_after: Stage<B>,
)
    requires
        same_stage(a, b),
        x@ == y@,
        can_commit(a.splitter, a.compilation, x),
        can_commit(b.splitter, b.compilation, y),
        splitter_committed(a.splitter, a.compilation, x, a_after.splitter),
        splitter_committed(b.splitter, b.compilation, y, b_after.splitter),
        compilation_committed(a.splitter, a.compilation, x, a_after.compilation),
        compilation_committed(b.splitter, b.compilation, y, b_after.compilation),
        a_after.bundler == a.bundler,
        b_after.bundler == b.bundler,
    ensures
        same_stage(a_after, b_after),
{
    let group_info = x.job.root.chunk_group_info;
    let chunk = x.job.root.chunk;
    assert(x@.job == y@.job);
    lemma_same_infos(a.splitter, b.splitter, group_info);
    lemma_same_masks(a.splitter, b.splitter, chunk);
    lemma_same_counts(a.splitter, b.splitter);
    let group = a.splitter.chunk_group_infos@[group_info].chunk_group;
    assert(group == b.splitter.chunk_group_infos@[y.job.root.chunk_group_info].chunk_group);
    lemma_same_groups(a.compilation, b.compilation, group);
    let p = splitter_contents(a.splitter);
    let q = splitter_contents(b.splitter);
    let p_after = splitter_contents(a_after.splitter);
    let q_after = splitter_contents(b_after.splitter);
    assert(compilation_contents(a.compilation).module_graph == compilation_contents(
        b.compilation,
    ).module_graph);
    assert(p.checked_pre_order_modules == q.checked_pre_order_modules);
    assert(p.checked_post_order_modules == q.checked_post_order_modules);
    assert(p_after.mask_by_chunk =~= p.mask_by_chunk.insert(chunk, x.resulting_chunk_mask@));
    assert(q_after.mask_by_chunk =~= q.mask_by_chunk.insert(chunk, y.resulting_chunk_mask@));
    assert(x@.resulting_chunk_mask == y@.resulting_chunk_mask);
    assert(x@.global_pre_order_candidates == y@.global_pre_order_candidates);
    assert(x@.global_post_order_candidates == y@.global_post_order_candidates);
    assert(x@.processed_queue_items == y@.processed_queue_items);
    assert(x@.processed_blocks == y@.processed_blocks);
    assert(x@.modules == y@.modules && x@.post_order_modules == y@.post_order_modules);
    assert(p.next_free_module_pre_order_index == q.next_free_module_pre_order_index);
    assert(p.next_free_module_post_order_index == q.next_free_module_post_order_index);
    assert(p.stat_processed_queue_items == q.stat_processed_queue_items);
    assert(p.stat_processed_blocks == q.stat_processed_blocks);
    assert(p_after.counts == q_after.counts);
    assert(p_after == (SplitterContents {
        counts: p_after.counts,
        checked_pre_order_modules: p_after.checked_pre_order_modules,
        checked_post_order_modules: p_after.checked_post_order_modules,
        mask_by_chunk: p_after.mask_by_chunk,
        stat_processed_queue_items: p_after.stat_processed_queue_items,
        stat_processed_blocks: p_after.stat_processed_blocks,
        next_free_module_pre_order_index: p_after.next_free_module_pre_order_index,
        next_free_module_post_order_index: p_after.next_free_module_post_order_index,
        ..p
    }));
    assert(q_after == (SplitterContents {
        counts: q_after.counts,
        checked_pre_order_modules: q_after.checked_pre_order_modules,
        checked_post_order_modules: q_after.checked_post_order_modules,
        mask_by_chunk: q_after.mask_by_chunk,
        stat_processed_queue_items: q_after.stat_processed_queue_items,
        stat_processed_blocks: q_after.stat_processed_blocks,
        next_free_module_pre_order_index: q_after.next_free_module_pre_order_index,
        next_free_module_post_order_index: q_after.next_free_module_post_order_index,
        ..q
    }));
    assert(p_after == q_after);
    let u = compilation_contents(a.compilation);
    let v = compilation_contents(b.compilation);
    let u_after = compilation_contents(a_after.compilation);
    let v_after = compilation_contents(b_after.compilation);
    let mine = group_contents(a_after.compilation.chunk_group_by_ukey@[group]);
    let yours = group_contents(b_after.compilation.chunk_group_by_ukey@[group]);
    assert(u_after.chunk_group_by_ukey =~= u.chunk_group_by_ukey.insert(group, mine));
    assert(v_after.chunk_group_by_ukey =~= v.chunk_group_by_ukey.insert(group, yours));
    assert(mine =~= yours);
    assert(u_after =~= v_after);
}

/// What ending a commit does is fixed by what the splitter and what is left of the commit hold.
proof fn lemma_same_finish(
    a: CodeSplitter,
    b: CodeSplitter,
    x: ParallelWalkResult,
    y: ParallelWalkResult,
    p: PendingCommit,
    q: PendingCommit,
    a_after: CodeSplitter,
    b_after: CodeSplitter,
)
    requires
        splitter_contents(a) == splitter_contents(b),
        x@ == y@,
        pending_of(x, p),
        pending_of(y, q),
        a.chunk_group_infos@.contains_key(p.chunk_group_info),
        commit_finished(a, p, a_after),
        commit_finished(b, q, b_after),
    ensures
        splitter_contents(a_after) == splitter_contents(b_after),
{
    assert(x@.job == y@.job);
    let group = p.chunk_group_info;
    lemma_same_infos(a, b, group);
    lemma_same_counts(a, b);
    assert(x@.skipped_items == y@.skipped_items);
    assert(x@.skipped_connections == y@.skipped_connections);
    let mine = info_contents(a_after.chunk_group_infos@[group]);
    let yours = info_contents(b_after.chunk_group_infos@[group]);
    let s = splitter_contents(a);
    let t = splitter_contents(b);
    let s_after = splitter_contents(a_after);
    let t_after = splitter_contents(b_after);
    assert(mine =~= yours) by {
        let before = info_contents(a.chunk_group_infos@[group]);
        assert(before == info_contents(b.chunk_group_infos@[group]));
        assert(mine.skipped_items == before.skipped_items + x.skipped_items@);
        assert(yours.skipped_items == before.skipped_items + y.skipped_items@);
    }
    assert(s_after.chunk_group_infos =~= s.chunk_group_infos.insert(group, mine));
    assert(t_after.chunk_group_infos =~= t.chunk_group_infos.insert(group, yours));
    assert(s_after == (SplitterContents { chunk_group_infos: s_after.chunk_group_infos, ..s }));
    assert(t_after == (SplitterContents { chunk_group_infos: t_after.chunk_group_infos, ..t }));
}

/// Two results that hold the same are settled in the same way where the same is known.
proof fn lemma_same_settlement<B>(
    does: spec_fn(BundlerCall, Stage<B>, Stage<B>) -> bool,
    s: Settlement<B>,
    t: Settlement<B>,
)
    requires
        does_the_same(does),
        is_settlement(does, s),
        is_settlement(does, t),
        same_stage(s.before, t.before),
        s.result@ == t.result@,
    ensures
        same_stage(s.after, t.after),
{
    assert(s.result@.job == t.result@.job);
    assert(s.result@.modules == t.result@.modules);
    assert(s.result@.async_blocks == t.result@.async_blocks);
    lemma_same_staleness(s.before.splitter, t.before.splitter, s.result, t.result);
    if stale(s.before.splitter, s.result) {
        lemma_same_queued(
            s.before.splitter,
            t.before.splitter,
            s.result.job.root,
            s.queued.splitter,
            t.queued.splitter,
        );
        assert(same_stage(s.queued, t.queued));
    } else {
        assert(same_stage(s.connected, t.connected));
        lemma_same_commit(
            s.connected,
            t.connected,
            s.result,
            t.result,
            s.committed,
            t.committed,
        );
        assert(same_stage(s.grouped, t.grouped));
        lemma_same_finish(
            s.grouped.splitter,
            t.grouped.splitter,
            s.result,
            t.result,
            s.pending,
            t.pending,
            s.after.splitter,
            t.after.splitter,
        );
    }
}

/// Whether two sequences of results hold the same, one by one.
pub open spec fn same_results(
    a: Seq<ParallelWalkResult>,
    b: Seq<ParallelWalkResult>,
) -> bool {
    &&& a.len() == b.len()
    &&& forall|i: int| 0 <= i < a.len() ==> #[trigger] a[i]@ == b[i]@
}

proof fn lemma_same_results_but_last(a: Seq<ParallelWalkResult>, b: Seq<ParallelWalkResult>)
    requires
        same_results(a, b),
        a.len() > 0,
    ensures
        same_results(a.drop_last(), b.drop_last()),
        a.last()@ == b.last()@,
{
    assert(a[a.len() - 1]@ == b[a.len() - 1]@);
    assert forall|i: int| 0 <= i < a.drop_last().len() implies #[trigger] a.drop_last()[i]@
        == b.drop_last()[i]@ by {
        assert(a[i]@ == b[i]@);
    }
}

/// Results that hold the same add up to the same.
proof fn lemma_same_sum(
    a: Seq<ParallelWalkResult>,
    b: Seq<ParallelWalkResult>,
    part: spec_fn(ParallelWalkResult) -> int,
)
    requires
        same_results(a, b),
        forall|x: ParallelWalkResult, y: ParallelWalkResult|
            x@ == y@ ==> #[trigger] part(x) == #[trigger] part(y),
    ensures
        sum_over(a, part) == sum_over(b, part),
    decreases a.len(),
{
    if a.len() > 0 {
        lemma_same_results_but_last(a, b);
        lemma_same_sum(a.drop_last(), b.drop_last(), part);
        assert(part(a.last()) == part(b.last()));
    }
}

/// Results that hold the same are cached in the same way.
proof fn lemma_same_caching(
    infos: Map<CgiUkey, ChunkGroupInfo>,
    caches: Map<RuntimeKey, Map<DependenciesBlockIdentifier, Arc<BlockModules>>>,
    a: Seq<ParallelWalkResult>,
    b: Seq<ParallelWalkResult>,
)
    requires
        same_results(a, b),
    ensures
        all_cached(infos, caches, a) == all_cached(infos, caches, b),
        all_extracted_count(infos, a) == all_extracted_count(infos, b),
        all_added_count(infos, caches, a) == all_added_count(infos, caches, b),
    decreases a.len(),
{
    if a.len() > 0 {
        lemma_same_results_but_last(a, b);
        lemma_same_caching(infos, caches, a.drop_last(), b.drop_last());
        let x = a.last();
        let y = b.last();
        assert(x@.job == y@.job);
        assert(x@.block_modules_cache == y@.block_modules_cache);
    }
}

/// Before the first result is settled, two runs from the same start stand at the same where their results
/// hold the same.
proof fn lemma_same_beginning<B>(
    does: spec_fn(BundlerCall, Stage<B>, Stage<B>) -> bool,
    roots: Seq<ProcessBlock>,
    run1: BatchRun<B>,
    run2: BatchRun<B>,
)
    requires
        run1.start == run2.start,
        is_batch(does, roots, run1),
        is_batch(does, roots, run2),
        same_results(run1.results, run2.results),
    ensures
        same_stage(run1.stage(0), run2.stage(0)),
{
    let a = run1.results;
    let b = run2.results;
    let queue_items = |result: ParallelWalkResult| result.processed_queue_items as int;
    let blocks = |result: ParallelWalkResult| result.processed_blocks as int;
    let modules = |result: ParallelWalkResult| result.modules@.len() as int;
    assert forall|x: ParallelWalkResult, y: ParallelWalkResult| x@ == y@ implies #[trigger]
        queue_items(x) == #[trigger] queue_items(y) by {
        assert(x@.processed_queue_items == y@.processed_queue_items);
    }
    assert forall|x: ParallelWalkResult, y: ParallelWalkResult| x@ == y@ implies #[trigger]
        blocks(x) == #[trigger] blocks(y) by {
        assert(x@.processed_blocks == y@.processed_blocks);
    }
    assert forall|x: ParallelWalkResult, y: ParallelWalkResult| x@ == y@ implies #[trigger]
        modules(x) == #[trigger] modules(y) by {
        assert(x@.modules == y@.modules);
    }
    lemma_same_sum(a, b, queue_items);
    lemma_same_sum(a, b, blocks);
    lemma_same_sum(a, b, modules);
    lemma_same_caching(
        run1.start.splitter.chunk_group_infos@,
        runtime_caches(run1.start.splitter.block_modules_runtime_map@),
        a,
        b,
    );
    assert(splitter_contents(run1.cached) =~= splitter_contents(run2.cached));
}

/// Where two runs stand that have the same start and results that hold the same.
proof fn lemma_same_progress<B>(
    does: spec_fn(BundlerCall, Stage<B>, Stage<B>) -> bool,
    roots: Seq<ProcessBlock>,
    run1: BatchRun<B>,
    run2: BatchRun<B>,
    i: int,
)
    requires
        does_the_same(does),
        run1.start == run2.start,
        is_batch(does, roots, run1),
        is_batch(does, roots, run2),
        same_results(run1.results, run2.results),
        0 <= i <= roots.len(),
    ensures
        same_stage(run1.stage(i), run2.stage(i)),
    decreases i,
{
    if i == 0 {
        lemma_same_beginning(does, roots, run1, run2);
    } else {
        lemma_same_progress(does, roots, run1, run2, i - 1);
        assert(settles(does, run1, i - 1));
        assert(settles(does, run2, i - 1));
        assert(run1.results[i - 1]@ == run2.results[i - 1]@);
        lemma_same_settlement(does, run1.settlements[i - 1], run2.settlements[i - 1]);
    }
}

/// Whether each result of a run is what its job brings when it is walked with what the splitter and the
/// compilation hold at the start. Each walk may have an extraction of its own.
pub open spec fn walked_from_start<
    B,
    F: Fn(DependenciesBlockIdentifier) -> ExtractedBlocks,
>(run: BatchRun<B>, extracts: Seq<F>) -> bool {
    &&& extracts.len() == run.jobs.len()
    &&& forall|i: int|
        0 <= i < run.jobs.len() ==> walk_outcome(
            #[trigger] run.jobs[i],
            run.start.compilation.module_graph@,
            inputs_of(&run.start.splitter, run.jobs[i].runtime),
            &extracts[i],
            Ok(run.results[i]),
        )
}

/// Whether the extractions of a run find what `content` says of a block in a runtime.
pub open spec fn all_find<
    B,
    F: Fn(DependenciesBlockIdentifier) -> ExtractedBlocks,
>(
    run: BatchRun<B>,
    extracts: Seq<F>,
    content: spec_fn(RuntimeKey, DependenciesBlockIdentifier) -> Seq<
        (DependenciesBlockIdentifier, Arc<BlockModules>),
    >,
) -> bool {
    forall|i: int|
        #![trigger run.jobs[i]]
        0 <= i < run.jobs.len() ==> finds(
            &extracts[i],
            |block: DependenciesBlockIdentifier| content(run.jobs[i].runtime, block),
        )
}

/// What processing a batch comes to is fixed by where it starts, by its roots, by what the extraction says
/// and by what the bundler does: the walks read nothing but the start, and their results are settled in
/// the order of the roots. So it depends neither on how many threads walk nor on which walk ends first,
/// and but for the times two runs end at the same.
pub proof fn law_batch_is_determined<
    B,
    F: Fn(DependenciesBlockIdentifier) -> ExtractedBlocks,
    G: Fn(DependenciesBlockIdentifier) -> ExtractedBlocks,
>(
    does: spec_fn(BundlerCall, Stage<B>, Stage<B>) -> bool,
    roots: Seq<ProcessBlock>,
    run1: BatchRun<B>,
    run2: BatchRun<B>,
    extracts1: Seq<F>,
    extracts2: Seq<G>,
    content: spec_fn(RuntimeKey, DependenciesBlockIdentifier) -> Seq<
        (DependenciesBlockIdentifier, Arc<BlockModules>),
    >,
)
    requires
        does_the_same(does),
        run1.start == run2.start,
        is_batch(does, roots, run1),
        is_batch(does, roots, run2),
        walked_from_start(run1, extracts1),
        walked_from_start(run2, extracts2),
        all_find(run1, extracts1, content),
        all_find(run2, extracts2, content),
    ensures
        same_results(run1.results, run2.results),
        same_stage(run1.end, run2.end),
{
    let start = run1.start;
    assert forall|i: int| 0 <= i < run1.results.len() implies #[trigger] run1.results[i]@
        == run2.results[i]@ by {
        let job1 = run1.jobs[i];
        let job2 = run2.jobs[i];
        assert(job_for(start.splitter, roots[i], job1));
        assert(job_for(start.splitter, roots[i], job2));
        assert(job1@ =~= job2@);
        let runtime = job1.runtime;
        law_outcome_is_determined(
            job1,
            job2,
            start.compilation.module_graph@,
            inputs_of(&start.splitter, runtime),
            &extracts1[i],
            &extracts2[i],
            Ok(run1.results[i]),
            Ok(run2.results[i]),
            |block: DependenciesBlockIdentifier| content(runtime, block),
        );
    }
    let n = roots.len() as int;
    lemma_same_progress(does, roots, run1, run2, n);
    let a = run1.stage(n).splitter;
    let b = run2.stage(n).splitter;
    lemma_same_counts(a, b);
    assert(splitter_contents(run1.end.splitter) == (SplitterContents {
        counts: counts_of(run1.end.splitter.parallel_state.stats),
        ..splitter_contents(a)
    }));
    assert(splitter_contents(run2.end.splitter) == (SplitterContents {
        counts: counts_of(run2.end.splitter.parallel_state.stats),
        ..splitter_contents(b)
    }));
}

} // verus!
