use vstd::prelude::*;

use std::sync::Arc;

use crate::counter::counter_sum;
use crate::graph::{
    AsyncDependenciesBlockIdentifier, BlockModule, BlockModules, ConnectionIdList, ConnectionState,
    DependenciesBlockIdentifier, ModuleIdentifier,
};

verus! {

/// What is left to do on a walk. The stack of these is worked off from its end.
#[derive(Clone, Copy, Debug, PartialEq, Eq, Structural)]
pub enum WalkAction {
    ProcessBlock { block: DependenciesBlockIdentifier, module: ModuleIdentifier, queued: bool },
    AddModule(ModuleIdentifier),
    LeaveModule(ModuleIdentifier),
}

/// What the extraction of a root block puts into a cache: blocks and their targets.
pub type ExtractedBlocks = Vec<(DependenciesBlockIdentifier, Arc<BlockModules>)>;

/// What a walk reads and does not change.
pub struct WalkEnv {
    /// The ordinals that are available whatever is added to the chunk.
    pub min_available: Set<u64>,
    pub ordinals: Map<ModuleIdentifier, u64>,
    /// The `import()` blocks of each block.
    pub prepared: Map<DependenciesBlockIdentifier, Vec<AsyncDependenciesBlockIdentifier>>,
    /// The targets that earlier walks in the same runtime have extracted.
    pub shared: Map<DependenciesBlockIdentifier, Arc<BlockModules>>,
}

/// Where a walk stands.
#[verifier::ext_equal]
pub struct WalkState {
    pub actions: Seq<WalkAction>,
    /// The ordinals of the modules in the chunk.
    pub mask: Set<u64>,
    pub cache: Map<DependenciesBlockIdentifier, Arc<BlockModules>>,
    /// The blocks that were visited, each with the targets that were read for it.
    pub visited: Map<DependenciesBlockIdentifier, Seq<BlockModule>>,
    pub modules: Seq<ModuleIdentifier>,
    pub post_order_modules: Seq<ModuleIdentifier>,
    pub async_blocks: Seq<(AsyncDependenciesBlockIdentifier, ModuleIdentifier)>,
    pub skipped_items: Seq<ModuleIdentifier>,
    pub skipped_connections: Seq<(ModuleIdentifier, ConnectionIdList)>,
    pub processed_queue_items: u32,
    pub processed_blocks: u32,
}

/// A walk that is about to visit its root block.
pub open spec fn walk_start(
    block: DependenciesBlockIdentifier,
    module: ModuleIdentifier,
    mask: Set<u64>,
) -> WalkState {
    WalkState {
        actions: seq![WalkAction::ProcessBlock { block, module, queued: true }],
        mask,
        cache: Map::empty(),
        visited: Map::empty(),
        modules: Seq::empty(),
        post_order_modules: Seq::empty(),
        async_blocks: Seq::empty(),
        skipped_items: Seq::empty(),
        skipped_connections: Seq::empty(),
        processed_queue_items: 0,
        processed_blocks: 0,
    }
}

/// A cache after everything that an extraction found was put in, in order.
pub open spec fn insert_all(
    cache: Map<DependenciesBlockIdentifier, Arc<BlockModules>>,
    found: Seq<(DependenciesBlockIdentifier, Arc<BlockModules>)>,
) -> Map<DependenciesBlockIdentifier, Arc<BlockModules>>
    decreases found.len(),
{
    if found.len() == 0 {
        cache
    } else {
        insert_all(cache, found.drop_last()).insert(found.last().0, found.last().1)
    }
}

/// Whether a block's targets are in neither cache.
pub open spec fn needs_extraction(
    shared: Map<DependenciesBlockIdentifier, Arc<BlockModules>>,
    cache: Map<DependenciesBlockIdentifier, Arc<BlockModules>>,
    block: DependenciesBlockIdentifier,
) -> bool {
    !cache.contains_key(block) && !shared.contains_key(block)
}

/// The walk's own cache after a block's targets were looked up.
pub open spec fn cache_after(
    shared: Map<DependenciesBlockIdentifier, Arc<BlockModules>>,
    cache: Map<DependenciesBlockIdentifier, Arc<BlockModules>>,
    block: DependenciesBlockIdentifier,
    found: Seq<(DependenciesBlockIdentifier, Arc<BlockModules>)>,
) -> Map<DependenciesBlockIdentifier, Arc<BlockModules>> {
    if needs_extraction(shared, cache, block) {
        insert_all(cache, found)
    } else {
        cache
    }
}

/// A block's targets: from the walk's own cache, else from the shared one, else from what the
/// extraction found, else none.
pub open spec fn modules_of(
    shared: Map<DependenciesBlockIdentifier, Arc<BlockModules>>,
    cache: Map<DependenciesBlockIdentifier, Arc<BlockModules>>,
    block: DependenciesBlockIdentifier,
    found: Seq<(DependenciesBlockIdentifier, Arc<BlockModules>)>,
) -> Seq<BlockModule> {
    let after = cache_after(shared, cache, block, found);
    if after.contains_key(block) {
        after[block]@
    } else if shared.contains_key(block) {
        shared[block]@
    } else {
        Seq::empty()
    }
}

/// What `yields` makes of each target, from the last target to the first.
pub open spec fn gather<T>(
    targets: Seq<BlockModule>,
    yields: spec_fn(BlockModule) -> Seq<T>,
) -> Seq<T>
    decreases targets.len(),
{
    if targets.len() == 0 {
        Seq::empty()
    } else {
        yields(targets.last()) + gather(targets.drop_last(), yields)
    }
}

/// The work that a target gives: an active one is added to the chunk unless it is available
/// already, one that is neither active nor inactive is only looked through, and a target that the
/// chunk holds gives none.
pub open spec fn target_actions(
    env: WalkEnv,
    mask: Set<u64>,
    module: ModuleIdentifier,
    target: BlockModule,
) -> Seq<WalkAction> {
    let ordinal = env.ordinals[target.0];
    if mask.contains(ordinal) || target.1 == ConnectionState::Active(false) {
        Seq::empty()
    } else if target.1 != ConnectionState::Active(true) {
        seq![
            WalkAction::ProcessBlock {
                block: DependenciesBlockIdentifier::Module(target.0),
                module,
                queued: true,
            },
        ]
    } else if env.min_available.contains(ordinal) {
        Seq::empty()
    } else {
        seq![WalkAction::AddModule(target.0)]
    }
}

/// The target, where it is active and only left out because it is available already.
pub open spec fn target_skipped(env: WalkEnv, mask: Set<u64>, target: BlockModule) -> Seq<
    ModuleIdentifier,
> {
    let ordinal = env.ordinals[target.0];
    if !mask.contains(ordinal) && target.1 == ConnectionState::Active(true)
        && env.min_available.contains(ordinal) {
        seq![target.0]
    } else {
        Seq::empty()
    }
}

/// The target with its connections, where they are not active.
pub open spec fn target_inactive(env: WalkEnv, mask: Set<u64>, target: BlockModule) -> Seq<
    (ModuleIdentifier, ConnectionIdList),
> {
    if !mask.contains(env.ordinals[target.0]) && target.1 != ConnectionState::Active(true) {
        seq![(target.0, target.2)]
    } else {
        Seq::empty()
    }
}

/// The `import()` blocks of a block, each with the module that the walk is in.
pub open spec fn async_blocks_of(
    env: WalkEnv,
    block: DependenciesBlockIdentifier,
    module: ModuleIdentifier,
) -> Seq<(AsyncDependenciesBlockIdentifier, ModuleIdentifier)> {
    if env.prepared.contains_key(block) {
        env.prepared[block]@.map_values(|id: AsyncDependenciesBlockIdentifier| (id, module))
    } else {
        Seq::empty()
    }
}

/// A walk after it has visited a block for the first time.
pub open spec fn visit_block(
    env: WalkEnv,
    s: WalkState,
    block: DependenciesBlockIdentifier,
    module: ModuleIdentifier,
    found: Seq<(DependenciesBlockIdentifier, Arc<BlockModules>)>,
) -> WalkState {
    let targets = modules_of(env.shared, s.cache, block, found);
    WalkState {
        actions: s.actions + gather(
            targets,
            |target: BlockModule| target_actions(env, s.mask, module, target),
        ),
        cache: cache_after(env.shared, s.cache, block, found),
        visited: s.visited.insert(block, targets),
        async_blocks: s.async_blocks + async_blocks_of(env, block, module),
        skipped_items: s.skipped_items + gather(
            targets,
            |target: BlockModule| target_skipped(env, s.mask, target),
        ),
        skipped_connections: s.skipped_connections + gather(
            targets,
            |target: BlockModule| target_inactive(env, s.mask, target),
        ),
        ..s
    }
}

/// A walk after it has met a module that is to be added to the chunk.
pub open spec fn add_module(env: WalkEnv, s: WalkState, module: ModuleIdentifier) -> WalkState {
    let ordinal = env.ordinals[module];
    if s.mask.contains(ordinal) {
        s
    } else if env.min_available.contains(ordinal) {
        WalkState { skipped_items: s.skipped_items.push(module), ..s }
    } else {
        WalkState {
            modules: s.modules.push(module),
            mask: s.mask.insert(ordinal),
            actions: s.actions.push(WalkAction::LeaveModule(module)).push(
                WalkAction::ProcessBlock {
                    block: DependenciesBlockIdentifier::Module(module),
                    module,
                    queued: false,
                },
            ),
            ..s
        }
    }
}

/// A walk after one more action. `found` is what the extraction brings, where the action needs one.
pub open spec fn walk_step(
    env: WalkEnv,
    s: WalkState,
    found: Seq<(DependenciesBlockIdentifier, Arc<BlockModules>)>,
) -> WalkState {
    let rest = WalkState { actions: s.actions.drop_last(), ..s };
    match s.actions.last() {
        WalkAction::ProcessBlock { block, module, queued } => {
            let counted = WalkState {
                processed_queue_items: counter_sum(
                    s.processed_queue_items,
                    if queued {
                        1
                    } else {
                        0
                    },
                ),
                processed_blocks: counter_sum(s.processed_blocks, 1),
                ..rest
            };
            if s.visited.contains_key(block) {
                counted
            } else {
                visit_block(env, counted, block, module, found)
            }
        },
        WalkAction::AddModule(module) => add_module(
            env,
            WalkState {
                processed_queue_items: counter_sum(s.processed_queue_items, 1),
                ..rest
            },
            module,
        ),
        WalkAction::LeaveModule(module) => WalkState {
            processed_queue_items: counter_sum(s.processed_queue_items, 1),
            post_order_modules: s.post_order_modules.push(module),
            ..rest
        },
    }
}

/// Whether the next action visits a block for the first time.
pub open spec fn visits_next(s: WalkState) -> bool {
    s.actions.len() > 0 && match s.actions.last() {
        WalkAction::ProcessBlock { block, .. } => !s.visited.contains_key(block),
        _ => false,
    }
}

/// The block that the next action visits.
pub open spec fn next_block(s: WalkState) -> DependenciesBlockIdentifier {
    s.actions.last()->ProcessBlock_block
}

/// Whether the next action has to have a block's targets extracted.
pub open spec fn extracts_next(env: WalkEnv, s: WalkState) -> bool {
    visits_next(s) && needs_extraction(env.shared, s.cache, next_block(s))
}

/// Whether every target has an ordinal.
pub open spec fn all_have_ordinals(env: WalkEnv, targets: Seq<BlockModule>) -> bool {
    forall|i: int| 0 <= i < targets.len() ==> env.ordinals.contains_key((#[trigger] targets[i]).0)
}

/// Whether `module` is the target without an ordinal that is met first, from the last target on.
pub open spec fn first_without_ordinal(
    env: WalkEnv,
    targets: Seq<BlockModule>,
    module: ModuleIdentifier,
) -> bool {
    !env.ordinals.contains_key(module) && exists|i: int|
        #![trigger targets[i]]
        0 <= i < targets.len() && targets[i].0 == module && all_have_ordinals(
            env,
            targets.skip(i + 1),
        )
}

/// Whether the next action can be taken: the block that it visits has no target without an ordinal.
pub open spec fn can_step(
    env: WalkEnv,
    s: WalkState,
    found: Seq<(DependenciesBlockIdentifier, Arc<BlockModules>)>,
) -> bool {
    s.actions.len() > 0 && (visits_next(s) ==> all_have_ordinals(
        env,
        modules_of(env.shared, s.cache, next_block(s), found),
    ))
}

/// Whether `trace` is a walk from `start`, one action at a time, where `founds[i]` is what the
/// extraction brought at the action after `trace[i]`.
pub open spec fn is_walk(
    env: WalkEnv,
    start: WalkState,
    trace: Seq<WalkState>,
    founds: Seq<ExtractedBlocks>,
) -> bool {
    &&& trace.len() == founds.len() + 1
    &&& trace[0] == start
    &&& forall|i: int|
        #![trigger founds[i]]
        0 <= i < founds.len() ==> can_step(env, trace[i], founds[i]@) && trace[i + 1] == walk_step(
            env,
            trace[i],
            founds[i]@,
        )
}

} // verus!
