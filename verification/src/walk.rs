use vstd::prelude::*;

use rustc_hash::FxHashSet;
use std::collections::HashMap;
use std::sync::Arc;

use crate::block_map::BlockMap;
use crate::counter::counter_add;
use crate::fx;
use crate::fx::Pair;
use crate::graph::{
    AsyncDependenciesBlockIdentifier, BlockModule, BlockModules, ConnectionIdList,
    DependenciesBlockIdentifier, ModuleIdentifier, RuntimeKey,
};
use crate::mask::OrdinalMask;
use crate::order::{
    ModuleGraph, ModuleGraphModule, TraversalOrder, lacks_place, order_candidates,
};
use crate::queue::ProcessBlock;
use crate::walk_laws::{
    finished_walk, law_finished_walk, lemma_start_invariant, lemma_step_keeps_invariant,
    lemma_step_makes_progress, walk_invariant, walk_remaining,
};
use crate::walk_model::{
    ExtractedBlocks, WalkAction, WalkEnv, WalkState, add_module, all_have_ordinals, async_blocks_of,
    cache_after, can_step, extracts_next, first_without_ordinal, gather, insert_all, is_walk,
    modules_of, needs_extraction, next_block, target_actions, target_inactive, target_skipped,
    visit_block, visits_next, walk_start, walk_step,
};

verus! {

broadcast use vstd::std_specs::hash::group_hash_axioms;

/// The targets of blocks, shared between the walks that read them.
pub type BlockConnectionMap = BlockMap<Arc<BlockModules>>;

/// The `import()` blocks of each block.
pub type PreparedBlocksMap = BlockMap<Vec<AsyncDependenciesBlockIdentifier>>;

/// What a shared cache holds, where there is one.
pub open spec fn shared_view(shared: Option<&BlockConnectionMap>) -> Map<
    DependenciesBlockIdentifier,
    Arc<BlockModules>,
> {
    match shared {
        Some(map) => map@,
        None => Map::empty(),
    }
}

/// Looks a block's targets up: in the walk's own cache, then in the shared one. Where they are in
/// neither, `extract` is asked for all that hangs from the block's root, which goes into the walk's
/// own cache. A block that not even the extraction knows has no targets.
pub fn get_block_modules<F: Fn(DependenciesBlockIdentifier) -> ExtractedBlocks>(
    block: DependenciesBlockIdentifier,
    extract: &F,
    shared_block_modules: Option<&BlockConnectionMap>,
    cache: &mut BlockConnectionMap,
) -> (targets: Arc<BlockModules>)
    requires
        call_requires(extract, (block,)),
    ensures
        exists|found: ExtractedBlocks|
            {
                &&& needs_extraction(shared_view(shared_block_modules), old(cache)@, block)
                    ==> call_ensures(extract, (block,), found)
                &&& final(cache)@ == cache_after(
                    shared_view(shared_block_modules),
                    old(cache)@,
                    block,
                    found@,
                )
                &&& targets@ == #[trigger] modules_of(
                    shared_view(shared_block_modules),
                    old(cache)@,
                    block,
                    found@,
                )
            },
{
    if let Some(targets) = cache.get(block) {
        let ghost found: ExtractedBlocks = arbitrary();
        assert(targets@ == modules_of(
            shared_view(shared_block_modules),
            old(cache)@,
            block,
            found@,
        ));
        return targets.clone();
    }
    if let Some(shared) = shared_block_modules {
        if let Some(targets) = shared.get(block) {
            let ghost found: ExtractedBlocks = arbitrary();
            assert(targets@ == modules_of(
                shared_view(shared_block_modules),
                old(cache)@,
                block,
                found@,
            ));
            return targets.clone();
        }
    }
    let found = extract(block);
    let mut i: usize = 0;
    while i < found.len()
        invariant
            i <= found@.len(),
            cache@ == insert_all(old(cache)@, found@.take(i as int)),
        decreases found.len() - i,
    {
        cache.insert(found[i].0, found[i].1.clone());
        i = i + 1;
        assert(found@.take(i as int).drop_last() =~= found@.take(i - 1));
    }
    assert(found@.take(i as int) =~= found@);
    let targets = match cache.get(block) {
        Some(targets) => targets.clone(),
        None => Arc::new(Vec::new()),
    };
    assert(targets@ =~= modules_of(
        shared_view(shared_block_modules),
        old(cache)@,
        block,
        found@,
    ));
    targets
}

/// A block as an item of a hash set.
spec fn pair_of(block: DependenciesBlockIdentifier) -> Pair {
    match block {
        DependenciesBlockIdentifier::Module(id) => (0, id),
        DependenciesBlockIdentifier::AsyncDependenciesBlock(id) => (1, id),
    }
}

fn block_pair(block: DependenciesBlockIdentifier) -> (pair: Pair)
    ensures
        pair == pair_of(block),
{
    match block {
        DependenciesBlockIdentifier::Module(id) => (0, id),
        DependenciesBlockIdentifier::AsyncDependenciesBlock(id) => (1, id),
    }
}

/// One more target at the front is read last.
pub(crate) proof fn lemma_gather_front<T>(
    target: BlockModule,
    targets: Seq<BlockModule>,
    yields: spec_fn(BlockModule) -> Seq<T>,
)
    ensures
        gather(seq![target] + targets, yields) == gather(targets, yields) + yields(target),
    decreases targets.len(),
{
    let all = seq![target] + targets;
    if targets.len() == 0 {
        assert(all.drop_last() =~= Seq::empty());
        assert(gather(all.drop_last(), yields) =~= Seq::empty());
        assert(gather(all, yields) =~= gather(targets, yields) + yields(target));
    } else {
        lemma_gather_front(target, targets.drop_last(), yields);
        assert(all.drop_last() =~= seq![target] + targets.drop_last());
        assert(gather(all, yields) =~= gather(targets, yields) + yields(target));
    }
}

/// What the walks of one batch read in common.
pub struct WalkInputs<'a> {
    pub prepared_blocks_map: &'a PreparedBlocksMap,
    pub ordinal_by_module: &'a HashMap<ModuleIdentifier, u64>,
    pub shared_block_modules: Option<&'a BlockConnectionMap>,
}

/// What a walk reads.
pub open spec fn walk_env(inputs: WalkInputs<'_>, min_available: Set<u64>) -> WalkEnv {
    WalkEnv {
        min_available,
        ordinals: inputs.ordinal_by_module@,
        prepared: inputs.prepared_blocks_map@,
        shared: shared_view(inputs.shared_block_modules),
    }
}

/// A walk under way.
struct Walk {
    actions: Vec<WalkAction>,
    chunk_mask: OrdinalMask,
    block_modules_cache: BlockConnectionMap,
    visited_blocks: FxHashSet<Pair>,
    visited_targets: Ghost<Map<DependenciesBlockIdentifier, Seq<BlockModule>>>,
    modules: Vec<ModuleIdentifier>,
    post_order_modules: Vec<ModuleIdentifier>,
    async_blocks: Vec<(AsyncDependenciesBlockIdentifier, ModuleIdentifier)>,
    skipped_items: Vec<ModuleIdentifier>,
    skipped_connections: Vec<(ModuleIdentifier, ConnectionIdList)>,
    processed_queue_items: u32,
    processed_blocks: u32,
}

impl Walk {
    spec fn state(&self) -> WalkState {
        WalkState {
            actions: self.actions@,
            mask: self.chunk_mask@,
            cache: self.block_modules_cache@,
            visited: self.visited_targets@,
            modules: self.modules@,
            post_order_modules: self.post_order_modules@,
            async_blocks: self.async_blocks@,
            skipped_items: self.skipped_items@,
            skipped_connections: self.skipped_connections@,
            processed_queue_items: self.processed_queue_items,
            processed_blocks: self.processed_blocks,
        }
    }

    /// The hash set holds the blocks that were visited.
    spec fn wf(&self) -> bool {
        forall|block: DependenciesBlockIdentifier|
            self.visited_targets@.contains_key(block) <==> self.visited_blocks@.contains(
                #[trigger] pair_of(block),
            )
    }

    /// Works through a block's targets, from the last to the first. Stops at one without an ordinal.
    fn read_targets(
        &mut self,
        targets: &BlockModules,
        module: ModuleIdentifier,
        min_available_modules: &OrdinalMask,
        ordinal_by_module: &HashMap<ModuleIdentifier, u64>,
        Ghost(env): Ghost<WalkEnv>,
    ) -> (r: Result<(), ModuleIdentifier>)
        requires
            old(self).wf(),
            env.min_available == min_available_modules@,
            env.ordinals == ordinal_by_module@,
        ensures
            final(self).wf(),
            match r {
                Ok(()) => {
                    let s = old(self).state();
                    &&& all_have_ordinals(env, targets@)
                    &&& final(self).state() == (WalkState {
                        actions: s.actions + gather(
                            targets@,
                            |target: BlockModule| target_actions(env, s.mask, module, target),
                        ),
                        skipped_items: s.skipped_items + gather(
                            targets@,
                            |target: BlockModule| target_skipped(env, s.mask, target),
                        ),
                        skipped_connections: s.skipped_connections + gather(
                            targets@,
                            |target: BlockModule| target_inactive(env, s.mask, target),
                        ),
                        ..s
                    })
                },
                Err(missing) => first_without_ordinal(env, targets@, missing),
            },
    {
        let ghost s = self.state();
        let ghost actions = |target: BlockModule| target_actions(env, s.mask, module, target);
        let ghost skipped = |target: BlockModule| target_skipped(env, s.mask, target);
        let ghost inactive = |target: BlockModule| target_inactive(env, s.mask, target);
        let mut i: usize = targets.len();
        assert(targets@.skip(i as int) =~= Seq::empty());
        assert(s.actions + gather(targets@.skip(i as int), actions) =~= s.actions);
        assert(s.skipped_items + gather(targets@.skip(i as int), skipped) =~= s.skipped_items);
        assert(s.skipped_connections + gather(targets@.skip(i as int), inactive)
            =~= s.skipped_connections);
        while i > 0
            invariant
                i <= targets@.len(),
                self.wf(),
                env.min_available == min_available_modules@,
                env.ordinals == ordinal_by_module@,
                actions == (|target: BlockModule| target_actions(env, s.mask, module, target)),
                skipped == (|target: BlockModule| target_skipped(env, s.mask, target)),
                inactive == (|target: BlockModule| target_inactive(env, s.mask, target)),
                all_have_ordinals(env, targets@.skip(i as int)),
                self.state() == (WalkState {
                    actions: s.actions + gather(targets@.skip(i as int), actions),
                    skipped_items: s.skipped_items + gather(targets@.skip(i as int), skipped),
                    skipped_connections: s.skipped_connections + gather(
                        targets@.skip(i as int),
                        inactive,
                    ),
                    ..s
                }),
            decreases i,
        {
            let ghost later = targets@.skip(i as int);
            i = i - 1;
            let (target, active_state, connections) = &targets[i];
            let ghost entry = targets@[i as int];
            proof {
                assert(targets@.skip(i as int) =~= seq![entry] + later);
                lemma_gather_front(entry, later, actions);
                lemma_gather_front(entry, later, skipped);
                lemma_gather_front(entry, later, inactive);
                assert(s.actions + gather(seq![entry] + later, actions) =~= s.actions + gather(
                    later,
                    actions,
                ) + actions(entry));
                assert(s.skipped_items + gather(seq![entry] + later, skipped) =~= s.skipped_items
                    + gather(later, skipped) + skipped(entry));
                assert(s.skipped_connections + gather(seq![entry] + later, inactive)
                    =~= s.skipped_connections + gather(later, inactive) + inactive(entry));
            }
            let ordinal: u64 = match ordinal_by_module.get(target) {
                Some(ordinal) => *ordinal,
                None => {
                    assert(targets@[i as int].0 == *target);
                    return Err(*target);
                },
            };
            if self.chunk_mask.bit(ordinal) {
                assert(self.state().actions =~= self.state().actions + actions(entry));
                continue;
            }
            if !active_state.is_true() {
                self.skipped_connections.push((*target, connections.clone()));
                if active_state.is_false() {
                    continue;
                }
            }
            if active_state.is_true() && min_available_modules.bit(ordinal) {
                self.skipped_items.push(*target);
            } else if active_state.is_true() {
                self.actions.push(WalkAction::AddModule(*target));
            } else {
                self.actions.push(
                    WalkAction::ProcessBlock {
                        block: DependenciesBlockIdentifier::Module(*target),
                        module,
                        queued: true,
                    },
                );
            }
        }
        assert(targets@.skip(0) =~= targets@);
        Ok(())
    }

    /// Takes a block from the stack: visits it unless it was visited before.
    fn process_block<F: Fn(DependenciesBlockIdentifier) -> ExtractedBlocks>(
        &mut self,
        block: DependenciesBlockIdentifier,
        module: ModuleIdentifier,
        inputs: &WalkInputs,
        min_available_modules: &OrdinalMask,
        extract: &F,
    ) -> (r: Result<Ghost<ExtractedBlocks>, ModuleIdentifier>)
        requires
            old(self).wf(),
            call_requires(extract, (block,)),
        ensures
            final(self).wf(),
            ({
                let env = walk_env(*inputs, min_available_modules@);
                let s = old(self).state();
                match r {
                    Ok(found) => {
                        &&& s.visited.contains_key(block) ==> final(self).state() == s
                        &&& !s.visited.contains_key(block) ==> {
                            &&& needs_extraction(env.shared, s.cache, block) ==> call_ensures(
                                extract,
                                (block,),
                                found@,
                            )
                            &&& all_have_ordinals(
                                env,
                                modules_of(env.shared, s.cache, block, found@@),
                            )
                            &&& final(self).state() == visit_block(env, s, block, module, found@@)
                        }
                    },
                    Err(missing) => {
                        &&& !s.visited.contains_key(block)
                        &&& exists|found: ExtractedBlocks|
                            {
                                &&& needs_extraction(env.shared, s.cache, block) ==> call_ensures(
                                    extract,
                                    (block,),
                                    found,
                                )
                                &&& first_without_ordinal(
                                    env,
                                    #[trigger] modules_of(env.shared, s.cache, block, found@),
                                    missing,
                                )
                            }
                    },
                }
            }),
    {
        let ghost env = walk_env(*inputs, min_available_modules@);
        let ghost s = self.state();
        if !fx::insert(&mut self.visited_blocks, block_pair(block)) {
            return Ok(Ghost(arbitrary()));
        }
        let targets = get_block_modules(
            block,
            extract,
            inputs.shared_block_modules,
            &mut self.block_modules_cache,
        );
        let ghost found = choose|found: ExtractedBlocks|
            {
                &&& needs_extraction(env.shared, s.cache, block) ==> call_ensures(
                    extract,
                    (block,),
                    found,
                )
                &&& self.block_modules_cache@ == cache_after(env.shared, s.cache, block, found@)
                &&& targets@ == #[trigger] modules_of(env.shared, s.cache, block, found@)
            };
        proof {
            self.visited_targets@ = self.visited_targets@.insert(block, targets@);
        }
        assert(self.wf());
        let ghost before = self.state();
        match self.read_targets(
            &targets,
            module,
            min_available_modules,
            inputs.ordinal_by_module,
            Ghost(env),
        ) {
            Ok(()) => {},
            Err(missing) => {
                return Err(missing);
            },
        }
        if let Some(blocks) = inputs.prepared_blocks_map.get(block) {
            let ghost added = async_blocks_of(env, block, module);
            let mut i: usize = 0;
            assert(s.async_blocks + added.take(0) =~= s.async_blocks);
            let ghost read = self.state();
            while i < blocks.len()
                invariant
                    i <= blocks@.len(),
                    self.wf(),
                    added == blocks@.map_values(
                        |id: AsyncDependenciesBlockIdentifier| (id, module),
                    ),
                    self.state() == (WalkState {
                        async_blocks: s.async_blocks + added.take(i as int),
                        ..read
                    }),
                decreases blocks.len() - i,
            {
                self.async_blocks.push((blocks[i], module));
                i = i + 1;
                assert(s.async_blocks + added.take(i as int) =~= (s.async_blocks + added.take(
                    i - 1,
                )).push(added[i - 1]));
            }
            assert(added.take(i as int) =~= added);
        } else {
            assert(s.async_blocks + async_blocks_of(env, block, module) =~= s.async_blocks);
        }
        assert(self.state() =~= visit_block(env, s, block, module, found@));
        Ok(Ghost(found))
    }

    /// Takes a module from the stack that is to be added to the chunk.
    fn enter_module(
        &mut self,
        module: ModuleIdentifier,
        inputs: &WalkInputs,
        min_available_modules: &OrdinalMask,
    )
        requires
            old(self).wf(),
            inputs.ordinal_by_module@.contains_key(module),
            inputs.ordinal_by_module@[module] <= usize::MAX,
        ensures
            final(self).wf(),
            final(self).state() == add_module(
                walk_env(*inputs, min_available_modules@),
                old(self).state(),
                module,
            ),
    {
        let ordinal: u64 = *inputs.ordinal_by_module.get(&module).unwrap();
        if self.chunk_mask.bit(ordinal) {
            return ;
        }
        if min_available_modules.bit(ordinal) {
            self.skipped_items.push(module);
            return ;
        }
        self.modules.push(module);
        self.chunk_mask.set_bit(ordinal);
        self.actions.push(WalkAction::LeaveModule(module));
        self.actions.push(
            WalkAction::ProcessBlock {
                block: DependenciesBlockIdentifier::Module(module),
                module,
                queued: false,
            },
        );
    }
}

/// A root that is to be walked, and what it is walked with.
#[derive(Debug)]
pub struct ParallelWalkJob {
    pub root: ProcessBlock,
    pub runtime: RuntimeKey,
    pub min_available_modules: Arc<OrdinalMask>,
    pub chunk_mask: OrdinalMask,
}

/// What a walk has brought, for the commit.
#[derive(Debug)]
pub struct ParallelWalkResult {
    pub job: ParallelWalkJob,
    pub resulting_chunk_mask: OrdinalMask,
    pub block_modules_cache: BlockConnectionMap,
    pub modules: Vec<ModuleIdentifier>,
    pub post_order_modules: Vec<ModuleIdentifier>,
    pub global_pre_order_candidates: Vec<ModuleIdentifier>,
    pub global_post_order_candidates: Vec<ModuleIdentifier>,
    pub async_blocks: Vec<(AsyncDependenciesBlockIdentifier, ModuleIdentifier)>,
    pub skipped_items: Vec<ModuleIdentifier>,
    pub skipped_connections: Vec<(ModuleIdentifier, ConnectionIdList)>,
    pub processed_queue_items: u32,
    pub processed_blocks: u32,
}

/// What a job holds.
#[verifier::ext_equal]
pub struct JobView {
    pub root: ProcessBlock,
    pub runtime: RuntimeKey,
    pub min_available_modules: Set<u64>,
    pub chunk_mask: Set<u64>,
}

impl View for ParallelWalkJob {
    type V = JobView;

    open spec fn view(&self) -> JobView {
        JobView {
            root: self.root,
            runtime: self.runtime,
            min_available_modules: self.min_available_modules@,
            chunk_mask: self.chunk_mask@,
        }
    }
}

/// What the result of a walk holds.
#[verifier::ext_equal]
pub struct ResultView {
    pub job: JobView,
    pub resulting_chunk_mask: Set<u64>,
    pub block_modules_cache: Map<DependenciesBlockIdentifier, Arc<BlockModules>>,
    pub modules: Seq<ModuleIdentifier>,
    pub post_order_modules: Seq<ModuleIdentifier>,
    pub global_pre_order_candidates: Seq<ModuleIdentifier>,
    pub global_post_order_candidates: Seq<ModuleIdentifier>,
    pub async_blocks: Seq<(AsyncDependenciesBlockIdentifier, ModuleIdentifier)>,
    pub skipped_items: Seq<ModuleIdentifier>,
    pub skipped_connections: Seq<(ModuleIdentifier, ConnectionIdList)>,
    pub processed_queue_items: u32,
    pub processed_blocks: u32,
}

impl View for ParallelWalkResult {
    type V = ResultView;

    open spec fn view(&self) -> ResultView {
        ResultView {
            job: self.job@,
            resulting_chunk_mask: self.resulting_chunk_mask@,
            block_modules_cache: self.block_modules_cache@,
            modules: self.modules@,
            post_order_modules: self.post_order_modules@,
            global_pre_order_candidates: self.global_pre_order_candidates@,
            global_post_order_candidates: self.global_post_order_candidates@,
            async_blocks: self.async_blocks@,
            skipped_items: self.skipped_items@,
            skipped_connections: self.skipped_connections@,
            processed_queue_items: self.processed_queue_items,
            processed_blocks: self.processed_blocks,
        }
    }
}

impl ParallelWalkResult {
    /// Whether this is what a walk has brought that ended in `s`.
    pub open spec fn reports(self, s: WalkState) -> bool {
        &&& self.resulting_chunk_mask@ == s.mask
        &&& self.block_modules_cache@ == s.cache
        &&& self.modules@ == s.modules
        &&& self.post_order_modules@ == s.post_order_modules
        &&& self.async_blocks@ == s.async_blocks
        &&& self.skipped_items@ == s.skipped_items
        &&& self.skipped_connections@ == s.skipped_connections
        &&& self.processed_queue_items == s.processed_queue_items
        &&& self.processed_blocks == s.processed_blocks
    }
}

/// Whether each extraction along a walk was a call of `extract` for the block at hand.
pub open spec fn asks<F: Fn(DependenciesBlockIdentifier) -> ExtractedBlocks>(
    extract: &F,
    env: WalkEnv,
    trace: Seq<WalkState>,
    founds: Seq<ExtractedBlocks>,
) -> bool {
    forall|i: int|
        #![trigger founds[i]]
        0 <= i < founds.len() && extracts_next(env, trace[i]) ==> call_ensures(
            extract,
            (next_block(trace[i]),),
            founds[i],
        )
}

/// Whether the next block of a walk has `missing` as a target without an ordinal.
pub open spec fn stuck<F: Fn(DependenciesBlockIdentifier) -> ExtractedBlocks>(
    extract: &F,
    env: WalkEnv,
    s: WalkState,
    missing: ModuleIdentifier,
) -> bool {
    visits_next(s) && exists|found: ExtractedBlocks|
        {
            &&& extracts_next(env, s) ==> call_ensures(extract, (next_block(s),), found)
            &&& first_without_ordinal(
                env,
                #[trigger] modules_of(env.shared, s.cache, next_block(s), found@),
                missing,
            )
        }
}

/// Whether `r` is what walking a job brings: there is a walk, with its extractions made by `extract`,
/// that has worked its stack off, ended in order and is reported; or that has met a target without an
/// ordinal, which is then the error.
pub open spec fn walk_outcome<F: Fn(DependenciesBlockIdentifier) -> ExtractedBlocks>(
    job: ParallelWalkJob,
    graph: Map<ModuleIdentifier, ModuleGraphModule>,
    inputs: WalkInputs<'_>,
    extract: &F,
    r: Result<ParallelWalkResult, ModuleIdentifier>,
) -> bool {
    let env = walk_env(inputs, job.min_available_modules@);
    let start = walk_start(job.root.block, job.root.module, job.chunk_mask@);
    &&& exists|trace: Seq<WalkState>, founds: Seq<ExtractedBlocks>|
        {
            &&& #[trigger] is_walk(env, start, trace, founds)
            &&& asks(extract, env, trace, founds)
            &&& match r {
                Ok(result) => {
                    &&& trace.last().actions.len() == 0
                    &&& result.reports(trace.last())
                    &&& finished_walk(env, job.root.block, job.chunk_mask@, trace.last())
                },
                Err(missing) => stuck(extract, env, trace.last(), missing),
            }
        }
    &&& r matches Ok(result) ==> {
        &&& result.job == job
        &&& result.global_pre_order_candidates@ == result.modules@.filter(
            |module: ModuleIdentifier| lacks_place(graph, TraversalOrder::Pre, module),
        )
        &&& result.global_post_order_candidates@ == result.post_order_modules@.filter(
            |module: ModuleIdentifier| lacks_place(graph, TraversalOrder::Post, module),
        )
    }
}

/// Walks the modules that a root brings into its chunk, depth first, without touching anything that
/// another walk reads. `extract` finds the targets of all the blocks that hang from the root of a
/// block. The error is a target without an ordinal, where the walk meets one.
pub fn walk_root<F: Fn(DependenciesBlockIdentifier) -> ExtractedBlocks>(
    job: ParallelWalkJob,
    module_graph: &ModuleGraph,
    inputs: &WalkInputs,
    extract: &F,
) -> (r: Result<ParallelWalkResult, ModuleIdentifier>)
    requires
        forall|block: DependenciesBlockIdentifier| call_requires(extract, (block,)),
        forall|module: ModuleIdentifier| #[trigger]
            inputs.ordinal_by_module@.contains_key(module)
                ==> inputs.ordinal_by_module@[module] <= usize::MAX,
    ensures
        walk_outcome(job, module_graph@, *inputs, extract, r),
{
    let ghost env = walk_env(*inputs, job.min_available_modules@);
    let ghost root = job.root.block;
    let ghost mask = job.chunk_mask@;
    let ghost start = walk_start(root, job.root.module, mask);
    let mut actions: Vec<WalkAction> = Vec::new();
    actions.push(
        WalkAction::ProcessBlock { block: job.root.block, module: job.root.module, queued: true },
    );
    let mut walk = Walk {
        actions,
        chunk_mask: job.chunk_mask.duplicate(),
        block_modules_cache: BlockMap::new(),
        visited_blocks: FxHashSet::default(),
        visited_targets: Ghost(Map::empty()),
        modules: Vec::new(),
        post_order_modules: Vec::new(),
        async_blocks: Vec::new(),
        skipped_items: Vec::new(),
        skipped_connections: Vec::new(),
        processed_queue_items: 0,
        processed_blocks: 0,
    };
    let ghost mut trace: Seq<WalkState> = seq![start];
    let ghost mut founds: Seq<ExtractedBlocks> = Seq::empty();
    proof {
        assert(walk.state() =~= start);
        lemma_start_invariant(env, root, job.root.module, mask);
    }
    while walk.actions.len() > 0
        invariant
            env == walk_env(*inputs, job.min_available_modules@),
            root == job.root.block,
            mask == job.chunk_mask@,
            start == walk_start(root, job.root.module, mask),
            forall|block: DependenciesBlockIdentifier| call_requires(extract, (block,)),
            forall|module: ModuleIdentifier| #[trigger]
                inputs.ordinal_by_module@.contains_key(module)
                    ==> inputs.ordinal_by_module@[module] <= usize::MAX,
            walk.wf(),
            trace.len() > 0,
            trace.last() == walk.state(),
            is_walk(env, start, trace, founds),
            asks(extract, env, trace, founds),
            walk_invariant(env, root, mask, walk.state()),
        decreases walk_remaining(env, root, walk.state()), walk.actions.len(),
    {
        let ghost before = walk.state();
        let ghost mut found: ExtractedBlocks = arbitrary();
        let action = walk.actions.pop().unwrap();
        assert(action == before.actions.last());
        match action {
            WalkAction::ProcessBlock { block, module, queued } => {
                if queued {
                    walk.processed_queue_items = counter_add(walk.processed_queue_items, 1);
                }
                walk.processed_blocks = counter_add(walk.processed_blocks, 1);
                let ghost popped = walk.state();
                match walk.process_block(
                    block,
                    module,
                    inputs,
                    &job.min_available_modules,
                    extract,
                ) {
                    Ok(brought) => {
                        proof {
                            found = brought@;
                        }
                    },
                    Err(missing) => {
                        proof {
                            let found = choose|found: ExtractedBlocks|
                                {
                                    &&& needs_extraction(env.shared, popped.cache, block)
                                        ==> call_ensures(extract, (block,), found)
                                    &&& first_without_ordinal(
                                        env,
                                        #[trigger] modules_of(
                                            env.shared,
                                            popped.cache,
                                            block,
                                            found@,
                                        ),
                                        missing,
                                    )
                                };
                            assert(first_without_ordinal(
                                env,
                                modules_of(env.shared, before.cache, next_block(before), found@),
                                missing,
                            ));
                        }
                        assert(stuck(extract, env, trace.last(), missing));
                        return Err(missing);
                    },
                }
            },
            WalkAction::AddModule(module) => {
                walk.processed_queue_items = counter_add(walk.processed_queue_items, 1);
                assert(before.actions[before.actions.len() - 1] == action);
                walk.enter_module(module, inputs, &job.min_available_modules);
            },
            WalkAction::LeaveModule(module) => {
                walk.processed_queue_items = counter_add(walk.processed_queue_items, 1);
                walk.post_order_modules.push(module);
            },
        }
        proof {
            assert(can_step(env, before, found@));
            assert(walk.state() =~= walk_step(env, before, found@));
            lemma_step_keeps_invariant(env, root, mask, before, found@);
            lemma_step_makes_progress(env, root, before, found@);
            let longer = trace.push(walk.state());
            let more = founds.push(found);
            assert forall|i: int| #![trigger more[i]] 0 <= i < more.len() implies can_step(
                env,
                longer[i],
                more[i]@,
            ) && longer[i + 1] == walk_step(env, longer[i], more[i]@) && (extracts_next(
                env,
                longer[i],
            ) ==> call_ensures(extract, (next_block(longer[i]),), more[i])) by {
                if i < founds.len() {
                    assert(more[i] == founds[i]);
                    assert(longer[i] == trace[i]);
                    assert(longer[i + 1] == trace[i + 1]);
                }
            }
            trace = longer;
            founds = more;
        }
    }
    proof {
        law_finished_walk(env, root, job.root.module, mask, trace, founds);
    }
    let global_pre_order_candidates = order_candidates(
        module_graph,
        TraversalOrder::Pre,
        &walk.modules,
    );
    let global_post_order_candidates = order_candidates(
        module_graph,
        TraversalOrder::Post,
        &walk.post_order_modules,
    );
    let result = ParallelWalkResult {
        job,
        resulting_chunk_mask: walk.chunk_mask,
        block_modules_cache: walk.block_modules_cache,
        modules: walk.modules,
        post_order_modules: walk.post_order_modules,
        global_pre_order_candidates,
        global_post_order_candidates,
        async_blocks: walk.async_blocks,
        skipped_items: walk.skipped_items,
        skipped_connections: walk.skipped_connections,
        processed_queue_items: walk.processed_queue_items,
        processed_blocks: walk.processed_blocks,
    };
    assert(result.reports(trace.last()));
    Ok(result)
}

} // verus!
