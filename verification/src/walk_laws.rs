use vstd::prelude::*;

use vstd::multiset::Multiset;

use std::sync::Arc;

use crate::graph::{
    AsyncDependenciesBlockIdentifier, BlockModule, BlockModules, ConnectionIdList, ConnectionState,
    DependenciesBlockIdentifier, ModuleIdentifier,
};
use crate::walk_model::{
    ExtractedBlocks, WalkAction, WalkEnv, WalkState, all_have_ordinals, async_blocks_of, can_step,
    extracts_next, gather, is_walk, modules_of, next_block, target_actions,
    target_inactive, target_skipped, visit_block, visits_next, walk_start, walk_step,
};

verus! {

/// Whether a module with this ordinal is among the modules.
pub open spec fn holds_ordinal(env: WalkEnv, modules: Seq<ModuleIdentifier>, ordinal: u64) -> bool {
    exists|i: int| 0 <= i < modules.len() && env.ordinals[#[trigger] modules[i]] == ordinal
}

/// Whether the mask holds the ordinals that it held at first and those of the modules that were
/// added, and whether each of these was new: to the chunk, to what is available, and to the walk.
pub open spec fn mask_grown(env: WalkEnv, mask: Set<u64>, s: WalkState) -> bool {
    &&& forall|ordinal: u64| #[trigger]
        s.mask.contains(ordinal) <==> mask.contains(ordinal) || holds_ordinal(
            env,
            s.modules,
            ordinal,
        )
    &&& forall|i: int|
        0 <= i < s.modules.len() ==> {
            &&& env.ordinals.contains_key(#[trigger] s.modules[i])
            &&& !mask.contains(env.ordinals[s.modules[i]])
            &&& !env.min_available.contains(env.ordinals[s.modules[i]])
        }
    &&& forall|i: int, j: int|
        0 <= i < j < s.modules.len() ==> env.ordinals[#[trigger] s.modules[i]]
            != env.ordinals[#[trigger] s.modules[j]]
}

/// The modules that are still to be left.
pub open spec fn to_leave(actions: Seq<WalkAction>) -> Multiset<ModuleIdentifier>
    decreases actions.len(),
{
    if actions.len() == 0 {
        Multiset::empty()
    } else {
        match actions.last() {
            WalkAction::LeaveModule(module) => to_leave(actions.drop_last()).insert(module),
            _ => to_leave(actions.drop_last()),
        }
    }
}

/// Whether every module that was added was left once, or is still to be left.
pub open spec fn entered_and_left(s: WalkState) -> bool {
    s.modules.to_multiset() == s.post_order_modules.to_multiset().add(to_leave(s.actions))
}

/// Whether a block is still to be processed.
pub open spec fn awaits(actions: Seq<WalkAction>, block: DependenciesBlockIdentifier) -> bool {
    exists|i: int|
        0 <= i < actions.len() && (#[trigger] actions[i]) is ProcessBlock
            && actions[i]->ProcessBlock_block == block
}

/// Whether nothing is left undone about a target of a visited block, or it is on the stack:
/// an active target is in the chunk, or was skipped because it is available already; one that is
/// neither active nor inactive is in the chunk, or its own block was visited; and the connections
/// to a target that is not active were noted unless the target is in the chunk.
pub open spec fn target_settled(env: WalkEnv, s: WalkState, target: BlockModule) -> bool {
    let ordinal = env.ordinals[target.0];
    &&& env.ordinals.contains_key(target.0)
    &&& s.mask.contains(ordinal) || {
        &&& target.1 == ConnectionState::Active(true) ==> {
            ||| env.min_available.contains(ordinal) && s.skipped_items.contains(target.0)
            ||| s.actions.contains(WalkAction::AddModule(target.0))
        }
        &&& target.1 != ConnectionState::Active(true) ==> s.skipped_connections.contains(
            (target.0, target.2),
        )
        &&& target.1 != ConnectionState::Active(true) && target.1 != ConnectionState::Active(false)
            ==> {
            ||| s.visited.contains_key(DependenciesBlockIdentifier::Module(target.0))
            ||| awaits(s.actions, DependenciesBlockIdentifier::Module(target.0))
        }
    }
}

/// Whether every target of every visited block is settled, and the bodies of the modules that were
/// added, like the root, were visited or are on the stack.
pub open spec fn all_settled(
    env: WalkEnv,
    root: DependenciesBlockIdentifier,
    s: WalkState,
) -> bool {
    &&& s.visited.contains_key(root) || awaits(s.actions, root)
    &&& forall|i: int|
        0 <= i < s.modules.len() ==> {
            ||| s.visited.contains_key(
                DependenciesBlockIdentifier::Module(#[trigger] s.modules[i]),
            )
            ||| awaits(s.actions, DependenciesBlockIdentifier::Module(s.modules[i]))
        }
    &&& forall|block: DependenciesBlockIdentifier, j: int|
        s.visited.contains_key(block) && 0 <= j < s.visited[block].len() ==> target_settled(
            env,
            s,
            #[trigger] s.visited[block][j],
        )
}

/// Whether a block in the walk's reach has this target in this state.
pub open spec fn targeted(
    visited: Map<DependenciesBlockIdentifier, Seq<BlockModule>>,
    target: BlockModule,
) -> bool {
    exists|block: DependenciesBlockIdentifier|
        #[trigger] visited.contains_key(block) && visited[block].contains(target)
}

/// Whether a module is an active target of a visited block.
pub open spec fn actively_targeted(
    visited: Map<DependenciesBlockIdentifier, Seq<BlockModule>>,
    module: ModuleIdentifier,
) -> bool {
    exists|connections: ConnectionIdList| #[trigger]
        targeted(visited, (module, ConnectionState::Active(true), connections))
}

/// Whether these are connections of a visited block to a target that is not active.
pub open spec fn inactively_targeted(
    visited: Map<DependenciesBlockIdentifier, Seq<BlockModule>>,
    connection: (ModuleIdentifier, ConnectionIdList),
) -> bool {
    exists|state: ConnectionState|
        state != ConnectionState::Active(true) && #[trigger] targeted(
            visited,
            (connection.0, state, connection.1),
        )
}

/// Whether what was added, skipped or noted was met as a target of a visited block, in the state
/// that calls for it, and was not in the chunk at first.
pub open spec fn all_targeted(env: WalkEnv, mask: Set<u64>, s: WalkState) -> bool {
    &&& forall|i: int|
        0 <= i < s.modules.len() ==> actively_targeted(s.visited, #[trigger] s.modules[i])
    &&& forall|module: ModuleIdentifier|
        s.actions.contains(WalkAction::AddModule(module)) ==> #[trigger] actively_targeted(
            s.visited,
            module,
        )
    &&& forall|i: int|
        0 <= i < s.skipped_items.len() ==> {
            &&& actively_targeted(s.visited, #[trigger] s.skipped_items[i])
            &&& env.ordinals.contains_key(s.skipped_items[i])
            &&& env.min_available.contains(env.ordinals[s.skipped_items[i]])
            &&& !mask.contains(env.ordinals[s.skipped_items[i]])
        }
    &&& forall|i: int|
        0 <= i < s.skipped_connections.len() ==> {
            &&& inactively_targeted(s.visited, #[trigger] s.skipped_connections[i])
            &&& env.ordinals.contains_key(s.skipped_connections[i].0)
            &&& !mask.contains(env.ordinals[s.skipped_connections[i].0])
        }
}

/// Whether an `import()` block was reported.
pub open spec fn reported(
    async_blocks: Seq<(AsyncDependenciesBlockIdentifier, ModuleIdentifier)>,
    id: AsyncDependenciesBlockIdentifier,
) -> bool {
    exists|i: int| 0 <= i < async_blocks.len() && (#[trigger] async_blocks[i]).0 == id
}

/// Whether an `import()` block hangs from a visited block.
pub open spec fn imported(
    env: WalkEnv,
    visited: Map<DependenciesBlockIdentifier, Seq<BlockModule>>,
    id: AsyncDependenciesBlockIdentifier,
) -> bool {
    exists|block: DependenciesBlockIdentifier| #[trigger]
        visited.contains_key(block) && env.prepared.contains_key(block)
            && env.prepared[block]@.contains(id)
}

/// Whether the `import()` blocks that were reported are those of the visited blocks.
pub open spec fn imports_reported(env: WalkEnv, s: WalkState) -> bool {
    forall|id: AsyncDependenciesBlockIdentifier| #[trigger]
        reported(s.async_blocks, id) <==> imported(env, s.visited, id)
}

/// The blocks that a walk can visit.
pub open spec fn visitable(env: WalkEnv, root: DependenciesBlockIdentifier) -> Set<
    DependenciesBlockIdentifier,
> {
    env.ordinals.dom().map(
        |module: ModuleIdentifier| DependenciesBlockIdentifier::Module(module),
    ).insert(root)
}

/// Whether the walk stays among the modules that have ordinals.
pub open spec fn in_bounds(env: WalkEnv, root: DependenciesBlockIdentifier, s: WalkState) -> bool {
    &&& s.visited.dom().subset_of(visitable(env, root))
    &&& forall|i: int|
        0 <= i < s.actions.len() ==> match #[trigger] s.actions[i] {
            WalkAction::ProcessBlock { block, .. } => visitable(env, root).contains(block),
            WalkAction::AddModule(module) => env.ordinals.contains_key(module),
            WalkAction::LeaveModule(_) => true,
        }
}

/// What holds of every state of a walk that starts at `root` with `mask`.
pub open spec fn walk_invariant(
    env: WalkEnv,
    root: DependenciesBlockIdentifier,
    mask: Set<u64>,
    s: WalkState,
) -> bool {
    &&& in_bounds(env, root, s)
    &&& mask_grown(env, mask, s)
    &&& entered_and_left(s)
    &&& all_settled(env, root, s)
    &&& all_targeted(env, mask, s)
    &&& imports_reported(env, s)
}

/// What a target yields is gathered.
proof fn lemma_gathered<T>(
    targets: Seq<BlockModule>,
    yields: spec_fn(BlockModule) -> Seq<T>,
    i: int,
    x: T,
)
    requires
        0 <= i < targets.len(),
        yields(targets[i]).contains(x),
    ensures
        gather(targets, yields).contains(x),
    decreases targets.len(),
{
    let first = yields(targets.last());
    let others = gather(targets.drop_last(), yields);
    if i == targets.len() - 1 {
        let k = choose|k: int| 0 <= k < first.len() && first[k] == x;
        assert((first + others)[k] == x);
    } else {
        lemma_gathered(targets.drop_last(), yields, i, x);
        let k = choose|k: int| 0 <= k < others.len() && others[k] == x;
        assert((first + others)[first.len() + k] == x);
    }
}

/// What was gathered came from a target.
proof fn lemma_gathered_from<T>(
    targets: Seq<BlockModule>,
    yields: spec_fn(BlockModule) -> Seq<T>,
    k: int,
) -> (i: int)
    requires
        0 <= k < gather(targets, yields).len(),
    ensures
        0 <= i < targets.len(),
        yields(targets[i]).contains(gather(targets, yields)[k]),
    decreases targets.len(),
{
    let first = yields(targets.last());
    if k < first.len() {
        assert(first[k] == gather(targets, yields)[k]);
        targets.len() - 1
    } else {
        lemma_gathered_from(targets.drop_last(), yields, k - first.len())
    }
}

/// A module with an ordinal has a body that can be visited.
proof fn lemma_visitable(
    env: WalkEnv,
    root: DependenciesBlockIdentifier,
    module: ModuleIdentifier,
)
    requires
        env.ordinals.contains_key(module),
    ensures
        visitable(env, root).contains(DependenciesBlockIdentifier::Module(module)),
{
    let body = |module: ModuleIdentifier| DependenciesBlockIdentifier::Module(module);
    assert(env.ordinals.dom().contains(module));
    assert(env.ordinals.dom().map(body).contains(body(module)));
}

/// The action that a target gives is for that target, which has an ordinal.
pub(crate) proof fn lemma_visit_actions(
    env: WalkEnv,
    s: WalkState,
    block: DependenciesBlockIdentifier,
    module: ModuleIdentifier,
    found: Seq<(DependenciesBlockIdentifier, Arc<BlockModules>)>,
    k: int,
) -> (i: int)
    requires
        s.actions.len() <= k < visit_block(env, s, block, module, found).actions.len(),
    ensures
        ({
            let targets = modules_of(env.shared, s.cache, block, found);
            let action = visit_block(env, s, block, module, found).actions[k];
            &&& 0 <= i < targets.len()
            &&& target_actions(env, s.mask, module, targets[i]) == seq![action]
        }),
{
    let targets = modules_of(env.shared, s.cache, block, found);
    let yields = |target: BlockModule| target_actions(env, s.mask, module, target);
    let i = lemma_gathered_from(targets, yields, k - s.actions.len());
    let action = visit_block(env, s, block, module, found).actions[k];
    assert(action == gather(targets, yields)[k - s.actions.len()]);
    assert(target_actions(env, s.mask, module, targets[i]).contains(action));
    assert(target_actions(env, s.mask, module, targets[i]) =~= seq![action]);
    i
}

proof fn lemma_step_in_bounds(
    env: WalkEnv,
    root: DependenciesBlockIdentifier,
    s: WalkState,
    found: Seq<(DependenciesBlockIdentifier, Arc<BlockModules>)>,
)
    requires
        in_bounds(env, root, s),
        can_step(env, s, found),
    ensures
        in_bounds(env, root, walk_step(env, s, found)),
{
    let after = walk_step(env, s, found);
    let rest = s.actions.drop_last();
    assert(forall|i: int| 0 <= i < rest.len() ==> #[trigger] rest[i] == s.actions[i]);
    assert forall|i: int| 0 <= i < after.actions.len() implies match #[trigger] after.actions[i] {
        WalkAction::ProcessBlock { block, .. } => visitable(env, root).contains(block),
        WalkAction::AddModule(module) => env.ordinals.contains_key(module),
        WalkAction::LeaveModule(_) => true,
    } by {
        if i < rest.len() {
            assert(after.actions[i] == s.actions[i]);
        } else {
            match s.actions.last() {
                WalkAction::ProcessBlock { block, module, queued } => {
                    let before = WalkState { actions: rest, ..s };
                    let counted = WalkState {
                        processed_queue_items: after.processed_queue_items,
                        processed_blocks: after.processed_blocks,
                        ..before
                    };
                    let k = lemma_visit_actions(env, counted, block, module, found, i);
                    let targets = modules_of(env.shared, s.cache, block, found);
                    assert(env.ordinals.contains_key(targets[k].0));
                    lemma_visitable(env, root, targets[k].0);
                    assert(target_actions(env, s.mask, module, targets[k])[0] == after.actions[i]);
                },
                WalkAction::AddModule(module) => {
                    assert(s.actions[s.actions.len() - 1] == WalkAction::AddModule(module));
                    lemma_visitable(env, root, module);
                },
                WalkAction::LeaveModule(_) => {},
            }
        }
    }
    assert(s.actions[s.actions.len() - 1] == s.actions.last());
}

proof fn lemma_step_mask_grown(
    env: WalkEnv,
    root: DependenciesBlockIdentifier,
    mask: Set<u64>,
    s: WalkState,
    found: Seq<(DependenciesBlockIdentifier, Arc<BlockModules>)>,
)
    requires
        in_bounds(env, root, s),
        mask_grown(env, mask, s),
        can_step(env, s, found),
    ensures
        mask_grown(env, mask, walk_step(env, s, found)),
{
    let after = walk_step(env, s, found);
    match s.actions.last() {
        WalkAction::AddModule(module) => {
            assert(s.actions[s.actions.len() - 1] == WalkAction::AddModule(module));
            let ordinal = env.ordinals[module];
            if !s.mask.contains(ordinal) && !env.min_available.contains(ordinal) {
                assert(after.modules[s.modules.len() as int] == module);
                assert forall|o: u64| #[trigger]
                    after.mask.contains(o) <==> mask.contains(o) || holds_ordinal(
                        env,
                        after.modules,
                        o,
                    ) by {
                    if holds_ordinal(env, s.modules, o) {
                        let i = choose|i: int|
                            0 <= i < s.modules.len() && env.ordinals[#[trigger] s.modules[i]] == o;
                        assert(after.modules[i] == s.modules[i]);
                    }
                    if holds_ordinal(env, after.modules, o) && o != ordinal {
                        let i = choose|i: int|
                            0 <= i < after.modules.len() && env.ordinals[
                            #[trigger] after.modules[i]] == o;
                        assert(after.modules[i] == s.modules[i]);
                    }
                    assert(s.mask.contains(o) <==> mask.contains(o) || holds_ordinal(
                        env,
                        s.modules,
                        o,
                    ));
                }
                assert forall|i: int| 0 <= i < s.modules.len() implies env.ordinals[
                #[trigger] after.modules[i]] != ordinal by {
                    assert(after.modules[i] == s.modules[i]);
                    assert(s.mask.contains(env.ordinals[s.modules[i]]));
                }
            }
        },
        _ => {},
    }
}

/// What is put on top of a stack and leaves no module does not change what is to be left.
proof fn lemma_to_leave_under(below: Seq<WalkAction>, above: Seq<WalkAction>)
    requires
        forall|i: int| 0 <= i < above.len() ==> !((#[trigger] above[i]) is LeaveModule),
    ensures
        to_leave(below + above) == to_leave(below),
    decreases above.len(),
{
    if above.len() == 0 {
        assert(below + above =~= below);
    } else {
        lemma_to_leave_under(below, above.drop_last());
        assert((below + above).drop_last() =~= below + above.drop_last());
        assert((below + above).last() == above[above.len() - 1]);
    }
}

proof fn lemma_step_entered_and_left(
    env: WalkEnv,
    s: WalkState,
    found: Seq<(DependenciesBlockIdentifier, Arc<BlockModules>)>,
)
    requires
        entered_and_left(s),
        can_step(env, s, found),
    ensures
        entered_and_left(walk_step(env, s, found)),
{
    broadcast use vstd::seq_lib::group_to_multiset_ensures;

    let after = walk_step(env, s, found);
    let rest = s.actions.drop_last();
    match s.actions.last() {
        WalkAction::ProcessBlock { block, module, queued } => {
            if !s.visited.contains_key(block) {
                let targets = modules_of(env.shared, s.cache, block, found);
                let yields = |target: BlockModule| target_actions(env, s.mask, module, target);
                let above = gather(targets, yields);
                assert forall|k: int| 0 <= k < above.len() implies !((
                #[trigger] above[k]) is LeaveModule) by {
                    let i = lemma_gathered_from(targets, yields, k);
                    assert(target_actions(env, s.mask, module, targets[i]).contains(above[k]));
                }
                lemma_to_leave_under(rest, above);
                assert(after.actions =~= rest + above);
            }
        },
        WalkAction::AddModule(module) => {
            let left = rest.push(WalkAction::LeaveModule(module));
            assert(left.drop_last() =~= rest);
            assert(to_leave(left) == to_leave(rest).insert(module));
            if after.actions != rest {
                assert(after.actions.drop_last() =~= left);
                assert(to_leave(after.actions) == to_leave(rest).insert(module));
                assert(after.modules.to_multiset() =~= after.post_order_modules.to_multiset().add(
                    to_leave(after.actions),
                ));
            }
        },
        WalkAction::LeaveModule(module) => {
            assert(after.modules.to_multiset() =~= after.post_order_modules.to_multiset().add(
                to_leave(after.actions),
            ));
        },
    }
}

/// What a step keeps: nothing that was noted is lost, and what leaves the stack was dealt with.
spec fn carries_over(env: WalkEnv, s: WalkState, after: WalkState) -> bool {
    &&& s.mask.subset_of(after.mask)
    &&& s.modules.len() <= after.modules.len()
    &&& forall|i: int| 0 <= i < s.modules.len() ==> #[trigger] after.modules[i] == s.modules[i]
    &&& forall|module: ModuleIdentifier|
        s.skipped_items.contains(module) ==> #[trigger] after.skipped_items.contains(module)
    &&& forall|connection: (ModuleIdentifier, ConnectionIdList)|
        s.skipped_connections.contains(connection) ==> #[trigger] after.skipped_connections.contains(
            connection,
        )
    &&& forall|block: DependenciesBlockIdentifier|
        #[trigger] s.visited.contains_key(block) ==> after.visited.contains_key(block)
            && after.visited[block] == s.visited[block]
    &&& forall|module: ModuleIdentifier|
        s.actions.contains(WalkAction::AddModule(module)) ==> {
            ||| #[trigger] after.actions.contains(WalkAction::AddModule(module))
            ||| after.mask.contains(env.ordinals[module])
            ||| env.min_available.contains(env.ordinals[module]) && after.skipped_items.contains(
                module,
            )
        }
    &&& forall|block: DependenciesBlockIdentifier| #[trigger]
        awaits(s.actions, block) ==> awaits(after.actions, block) || after.visited.contains_key(
            block,
        )
}

proof fn lemma_step_carries_over(
    env: WalkEnv,
    s: WalkState,
    found: Seq<(DependenciesBlockIdentifier, Arc<BlockModules>)>,
)
    requires
        can_step(env, s, found),
    ensures
        carries_over(env, s, walk_step(env, s, found)),
{
    let after = walk_step(env, s, found);
    let n = s.actions.len() - 1;
    assert(forall|i: int| 0 <= i < n ==> #[trigger] after.actions[i] == s.actions[i]);
    assert forall|module: ModuleIdentifier|
        s.skipped_items.contains(module) implies #[trigger] after.skipped_items.contains(module) by {
        let i = choose|i: int| 0 <= i < s.skipped_items.len() && s.skipped_items[i] == module;
        assert(after.skipped_items[i] == module);
    }
    assert forall|connection: (ModuleIdentifier, ConnectionIdList)|
        s.skipped_connections.contains(
            connection,
        ) implies #[trigger] after.skipped_connections.contains(connection) by {
        let i = choose|i: int|
            0 <= i < s.skipped_connections.len() && s.skipped_connections[i] == connection;
        assert(after.skipped_connections[i] == connection);
    }
    assert forall|module: ModuleIdentifier|
        s.actions.contains(WalkAction::AddModule(module)) implies {
        ||| #[trigger] after.actions.contains(WalkAction::AddModule(module))
        ||| after.mask.contains(env.ordinals[module])
        ||| env.min_available.contains(env.ordinals[module]) && after.skipped_items.contains(module)
    } by {
        let i = choose|i: int|
            0 <= i < s.actions.len() && s.actions[i] == WalkAction::AddModule(module);
        if i < n {
            assert(after.actions[i] == WalkAction::AddModule(module));
        } else {
            let ordinal = env.ordinals[module];
            if !s.mask.contains(ordinal) && env.min_available.contains(ordinal) {
                assert(after.skipped_items[s.skipped_items.len() as int] == module);
            }
        }
    }
    assert forall|block: DependenciesBlockIdentifier| #[trigger]
        awaits(s.actions, block) implies awaits(after.actions, block) || after.visited.contains_key(
        block,
    ) by {
        let i = choose|i: int|
            0 <= i < s.actions.len() && (#[trigger] s.actions[i]) is ProcessBlock
                && s.actions[i]->ProcessBlock_block == block;
        if i < n {
            assert(after.actions[i] == s.actions[i]);
        }
    }
}

proof fn lemma_settled_carries_over(
    env: WalkEnv,
    s: WalkState,
    after: WalkState,
    target: BlockModule,
)
    requires
        carries_over(env, s, after),
        target_settled(env, s, target),
    ensures
        target_settled(env, after, target),
{
    let body = DependenciesBlockIdentifier::Module(target.0);
    if awaits(s.actions, body) {
    }
    if s.actions.contains(WalkAction::AddModule(target.0)) {
        assert(after.actions.contains(WalkAction::AddModule(target.0)) || after.mask.contains(
            env.ordinals[target.0],
        ) || (env.min_available.contains(env.ordinals[target.0])
            && after.skipped_items.contains(target.0)));
    }
    if s.skipped_items.contains(target.0) {
        assert(after.skipped_items.contains(target.0));
    }
    if s.skipped_connections.contains((target.0, target.2)) {
        assert(after.skipped_connections.contains((target.0, target.2)));
    }
}

/// A block's targets are settled, on the stack at the least, once it was visited.
proof fn lemma_visit_settles(
    env: WalkEnv,
    s: WalkState,
    block: DependenciesBlockIdentifier,
    module: ModuleIdentifier,
    found: Seq<(DependenciesBlockIdentifier, Arc<BlockModules>)>,
    j: int,
)
    requires
        0 <= j < modules_of(env.shared, s.cache, block, found).len(),
        all_have_ordinals(env, modules_of(env.shared, s.cache, block, found)),
    ensures
        target_settled(
            env,
            visit_block(env, s, block, module, found),
            modules_of(env.shared, s.cache, block, found)[j],
        ),
{
    let after = visit_block(env, s, block, module, found);
    let targets = modules_of(env.shared, s.cache, block, found);
    let target = targets[j];
    let actions = |target: BlockModule| target_actions(env, s.mask, module, target);
    let skipped = |target: BlockModule| target_skipped(env, s.mask, target);
    let inactive = |target: BlockModule| target_inactive(env, s.mask, target);
    if !s.mask.contains(env.ordinals[target.0]) {
        if target.1 == ConnectionState::Active(true) {
            if env.min_available.contains(env.ordinals[target.0]) {
                assert(skipped(target)[0] == target.0);
                lemma_gathered(targets, skipped, j, target.0);
                lemma_contains_above(s.skipped_items, gather(targets, skipped), target.0);
            } else {
                let action = WalkAction::AddModule(target.0);
                assert(actions(target)[0] == action);
                lemma_gathered(targets, actions, j, action);
                lemma_contains_above(s.actions, gather(targets, actions), action);
            }
        } else {
            let connection = (target.0, target.2);
            assert(inactive(target)[0] == connection);
            lemma_gathered(targets, inactive, j, connection);
            lemma_contains_above(s.skipped_connections, gather(targets, inactive), connection);
            if target.1 != ConnectionState::Active(false) {
                let body = DependenciesBlockIdentifier::Module(target.0);
                let action = WalkAction::ProcessBlock { block: body, module, queued: true };
                assert(actions(target)[0] == action);
                lemma_gathered(targets, actions, j, action);
                lemma_contains_above(s.actions, gather(targets, actions), action);
                let i = choose|i: int| 0 <= i < after.actions.len() && after.actions[i] == action;
                assert(after.actions[i] is ProcessBlock);
                assert(awaits(after.actions, body));
            }
        }
    }
}

proof fn lemma_contains_above<T>(below: Seq<T>, above: Seq<T>, x: T)
    requires
        above.contains(x),
    ensures
        (below + above).contains(x),
{
    let i = choose|i: int| 0 <= i < above.len() && above[i] == x;
    assert((below + above)[below.len() + i] == x);
}

proof fn lemma_step_settled(
    env: WalkEnv,
    root: DependenciesBlockIdentifier,
    s: WalkState,
    found: Seq<(DependenciesBlockIdentifier, Arc<BlockModules>)>,
)
    requires
        all_settled(env, root, s),
        can_step(env, s, found),
    ensures
        all_settled(env, root, walk_step(env, s, found)),
{
    let after = walk_step(env, s, found);
    lemma_step_carries_over(env, s, found);
    assert forall|i: int| 0 <= i < after.modules.len() implies {
        ||| after.visited.contains_key(
            DependenciesBlockIdentifier::Module(#[trigger] after.modules[i]),
        )
        ||| awaits(after.actions, DependenciesBlockIdentifier::Module(after.modules[i]))
    } by {
        let body = DependenciesBlockIdentifier::Module(after.modules[i]);
        if i < s.modules.len() {
            assert(after.modules[i] == s.modules[i]);
            assert(s.visited.contains_key(body) || awaits(s.actions, body));
        } else {
            assert(after.actions[after.actions.len() - 1] is ProcessBlock);
            assert(awaits(after.actions, body));
        }
    }
    assert forall|block: DependenciesBlockIdentifier, j: int|
        after.visited.contains_key(block) && 0 <= j < after.visited[block].len() implies target_settled(
        env,
        after,
        #[trigger] after.visited[block][j],
    ) by {
        if s.visited.contains_key(block) {
            assert(after.visited[block] == s.visited[block]);
            assert(target_settled(env, s, s.visited[block][j]));
            lemma_settled_carries_over(env, s, after, s.visited[block][j]);
        } else {
            let module = s.actions.last()->ProcessBlock_module;
            let counted = WalkState {
                actions: s.actions.drop_last(),
                processed_queue_items: after.processed_queue_items,
                processed_blocks: after.processed_blocks,
                ..s
            };
            assert(after == visit_block(env, counted, block, module, found));
            lemma_visit_settles(env, counted, block, module, found, j);
        }
    }
}

/// A target of a visited block stays one when more blocks are visited.
proof fn lemma_targeted_carries_over(
    env: WalkEnv,
    s: WalkState,
    after: WalkState,
    target: BlockModule,
)
    requires
        carries_over(env, s, after),
        targeted(s.visited, target),
    ensures
        targeted(after.visited, target),
{
    let block = choose|block: DependenciesBlockIdentifier| #[trigger]
        s.visited.contains_key(block) && s.visited[block].contains(target);
    assert(after.visited.contains_key(block) && after.visited[block] == s.visited[block]);
}

proof fn lemma_actively_targeted_carries_over(
    env: WalkEnv,
    s: WalkState,
    after: WalkState,
    module: ModuleIdentifier,
)
    requires
        carries_over(env, s, after),
        actively_targeted(s.visited, module),
    ensures
        actively_targeted(after.visited, module),
{
    let connections = choose|connections: ConnectionIdList| #[trigger]
        targeted(s.visited, (module, ConnectionState::Active(true), connections));
    lemma_targeted_carries_over(
        env,
        s,
        after,
        (module, ConnectionState::Active(true), connections),
    );
}

/// The targets of the block that was just visited are targets of a visited block.
proof fn lemma_visit_targeted(
    env: WalkEnv,
    s: WalkState,
    block: DependenciesBlockIdentifier,
    module: ModuleIdentifier,
    found: Seq<(DependenciesBlockIdentifier, Arc<BlockModules>)>,
    i: int,
)
    requires
        0 <= i < modules_of(env.shared, s.cache, block, found).len(),
    ensures
        targeted(
            visit_block(env, s, block, module, found).visited,
            modules_of(env.shared, s.cache, block, found)[i],
        ),
{
    let after = visit_block(env, s, block, module, found);
    assert(after.visited.contains_key(block));
    assert(after.visited[block].contains(after.visited[block][i]));
}

proof fn lemma_step_targeted(
    env: WalkEnv,
    root: DependenciesBlockIdentifier,
    mask: Set<u64>,
    s: WalkState,
    found: Seq<(DependenciesBlockIdentifier, Arc<BlockModules>)>,
)
    requires
        in_bounds(env, root, s),
        mask_grown(env, mask, s),
        all_targeted(env, mask, s),
        can_step(env, s, found),
    ensures
        all_targeted(env, mask, walk_step(env, s, found)),
{
    let after = walk_step(env, s, found);
    let n = s.actions.len() - 1;
    lemma_step_carries_over(env, s, found);
    assert(s.actions[n] == s.actions.last());
    let block = s.actions.last()->ProcessBlock_block;
    let module = s.actions.last()->ProcessBlock_module;
    let targets = modules_of(env.shared, s.cache, block, found);
    let counted = WalkState {
        actions: s.actions.drop_last(),
        processed_queue_items: after.processed_queue_items,
        processed_blocks: after.processed_blocks,
        ..s
    };
    let skipped = |target: BlockModule| target_skipped(env, s.mask, target);
    let inactive = |target: BlockModule| target_inactive(env, s.mask, target);
    if visits_next(s) {
        assert(after == visit_block(env, counted, block, module, found));
    }
    assert forall|i: int| 0 <= i < after.modules.len() implies actively_targeted(
        after.visited,
        #[trigger] after.modules[i],
    ) by {
        if i < s.modules.len() {
            assert(after.modules[i] == s.modules[i]);
        } else {
            assert(s.actions[n] == WalkAction::AddModule(after.modules[i]));
            assert(s.actions.contains(WalkAction::AddModule(after.modules[i])));
        }
        lemma_actively_targeted_carries_over(env, s, after, after.modules[i]);
    }
    assert forall|added: ModuleIdentifier|
        after.actions.contains(WalkAction::AddModule(added)) implies #[trigger] actively_targeted(
        after.visited,
        added,
    ) by {
        let k = choose|k: int|
            0 <= k < after.actions.len() && after.actions[k] == WalkAction::AddModule(added);
        if k < n {
            assert(s.actions[k] == WalkAction::AddModule(added));
            assert(s.actions.contains(WalkAction::AddModule(added)));
            lemma_actively_targeted_carries_over(env, s, after, added);
        } else {
            let i = lemma_visit_actions(env, counted, block, module, found, k);
            assert(target_actions(env, s.mask, module, targets[i])[0] == after.actions[k]);
            lemma_visit_targeted(env, counted, block, module, found, i);
            assert(targets[i] == (added, ConnectionState::Active(true), targets[i].2));
        }
    }
    assert forall|i: int| 0 <= i < after.skipped_items.len() implies {
        &&& actively_targeted(after.visited, #[trigger] after.skipped_items[i])
        &&& env.ordinals.contains_key(after.skipped_items[i])
        &&& env.min_available.contains(env.ordinals[after.skipped_items[i]])
        &&& !mask.contains(env.ordinals[after.skipped_items[i]])
    } by {
        let item = after.skipped_items[i];
        if i < s.skipped_items.len() {
            assert(item == s.skipped_items[i]);
            lemma_actively_targeted_carries_over(env, s, after, item);
        } else if visits_next(s) {
            let k = lemma_gathered_from(targets, skipped, i - s.skipped_items.len());
            assert(gather(targets, skipped)[i - s.skipped_items.len()] == item);
            assert(target_skipped(env, s.mask, targets[k]).contains(item));
            lemma_visit_targeted(env, counted, block, module, found, k);
            assert(targets[k] == (item, ConnectionState::Active(true), targets[k].2));
            assert(s.mask.contains(env.ordinals[item]) <==> mask.contains(env.ordinals[item])
                || holds_ordinal(env, s.modules, env.ordinals[item]));
        } else {
            assert(s.actions[n] == WalkAction::AddModule(item));
            assert(s.actions.contains(WalkAction::AddModule(item)));
            lemma_actively_targeted_carries_over(env, s, after, item);
            assert(s.mask.contains(env.ordinals[item]) <==> mask.contains(env.ordinals[item])
                || holds_ordinal(env, s.modules, env.ordinals[item]));
        }
    }
    assert forall|i: int| 0 <= i < after.skipped_connections.len() implies {
        &&& inactively_targeted(after.visited, #[trigger] after.skipped_connections[i])
        &&& env.ordinals.contains_key(after.skipped_connections[i].0)
        &&& !mask.contains(env.ordinals[after.skipped_connections[i].0])
    } by {
        let connection = after.skipped_connections[i];
        if i < s.skipped_connections.len() {
            assert(connection == s.skipped_connections[i]);
            let state = choose|state: ConnectionState|
                {
                    &&& state != ConnectionState::Active(true)
                    &&& #[trigger] targeted(s.visited, (connection.0, state, connection.1))
                };
            lemma_targeted_carries_over(env, s, after, (connection.0, state, connection.1));
        } else {
            let k = lemma_gathered_from(targets, inactive, i - s.skipped_connections.len());
            assert(gather(targets, inactive)[i - s.skipped_connections.len()] == connection);
            assert(target_inactive(env, s.mask, targets[k]).contains(connection));
            lemma_visit_targeted(env, counted, block, module, found, k);
            assert(targets[k] == (connection.0, targets[k].1, connection.1));
            let ordinal = env.ordinals[connection.0];
            assert(s.mask.contains(ordinal) <==> mask.contains(ordinal) || holds_ordinal(
                env,
                s.modules,
                ordinal,
            ));
        }
    }
}

proof fn lemma_step_imports(
    env: WalkEnv,
    s: WalkState,
    found: Seq<(DependenciesBlockIdentifier, Arc<BlockModules>)>,
)
    requires
        imports_reported(env, s),
        can_step(env, s, found),
    ensures
        imports_reported(env, walk_step(env, s, found)),
{
    let after = walk_step(env, s, found);
    if visits_next(s) {
        let block = s.actions.last()->ProcessBlock_block;
        let module = s.actions.last()->ProcessBlock_module;
        let added = async_blocks_of(env, block, module);
        assert(after.async_blocks == s.async_blocks + added);
        assert forall|id: AsyncDependenciesBlockIdentifier| #[trigger]
            reported(after.async_blocks, id) <==> imported(env, after.visited, id) by {
            assert(reported(s.async_blocks, id) <==> imported(env, s.visited, id));
            if reported(s.async_blocks, id) {
                let i = choose|i: int|
                    0 <= i < s.async_blocks.len() && (#[trigger] s.async_blocks[i]).0 == id;
                assert(after.async_blocks[i] == s.async_blocks[i]);
                let from = choose|from: DependenciesBlockIdentifier| #[trigger]
                    s.visited.contains_key(from) && env.prepared.contains_key(from)
                        && env.prepared[from]@.contains(id);
                assert(after.visited.contains_key(from));
            } else {
                if reported(after.async_blocks, id) {
                    let i = choose|i: int|
                        0 <= i < after.async_blocks.len() && (#[trigger] after.async_blocks[i]).0
                            == id;
                    if i < s.async_blocks.len() {
                        assert(after.async_blocks[i] == s.async_blocks[i]);
                    }
                    let j = i - s.async_blocks.len();
                    assert(added[j] == after.async_blocks[i]);
                    assert(env.prepared[block]@[j] == id);
                    assert(after.visited.contains_key(block));
                }
                if imported(env, after.visited, id) {
                    let from = choose|from: DependenciesBlockIdentifier| #[trigger]
                        after.visited.contains_key(from) && env.prepared.contains_key(from)
                            && env.prepared[from]@.contains(id);
                    if from != block {
                        assert(s.visited.contains_key(from));
                    }
                    let j = choose|j: int|
                        0 <= j < env.prepared[block]@.len() && env.prepared[block]@[j] == id;
                    assert(after.async_blocks[s.async_blocks.len() + j] == added[j]);
                }
            }
        }
    }
}

/// A step keeps what holds of every state of a walk.
pub(crate) proof fn lemma_step_keeps_invariant(
    env: WalkEnv,
    root: DependenciesBlockIdentifier,
    mask: Set<u64>,
    s: WalkState,
    found: Seq<(DependenciesBlockIdentifier, Arc<BlockModules>)>,
)
    requires
        walk_invariant(env, root, mask, s),
        can_step(env, s, found),
    ensures
        walk_invariant(env, root, mask, walk_step(env, s, found)),
{
    lemma_step_in_bounds(env, root, s, found);
    lemma_step_mask_grown(env, root, mask, s, found);
    lemma_step_entered_and_left(env, s, found);
    lemma_step_settled(env, root, s, found);
    lemma_step_targeted(env, root, mask, s, found);
    lemma_step_imports(env, s, found);
}

/// A walk that is about to visit its root is in order.
pub(crate) proof fn lemma_start_invariant(
    env: WalkEnv,
    root: DependenciesBlockIdentifier,
    module: ModuleIdentifier,
    mask: Set<u64>,
)
    ensures
        walk_invariant(env, root, mask, walk_start(root, module, mask)),
{
    let s = walk_start(root, module, mask);
    assert(s.actions[0] is ProcessBlock);
    assert(awaits(s.actions, root));
    assert(s.actions.drop_last() =~= Seq::empty());
    assert(to_leave(s.actions) == to_leave(s.actions.drop_last()));
    assert(s.modules.to_multiset() =~= s.post_order_modules.to_multiset().add(
        to_leave(s.actions),
    )) by {
        broadcast use vstd::seq_lib::group_to_multiset_ensures;

    }
}

/// What is left of a walk: the blocks that were not visited and the modules that are not in the
/// chunk.
pub open spec fn walk_remaining(
    env: WalkEnv,
    root: DependenciesBlockIdentifier,
    s: WalkState,
) -> nat {
    visitable(env, root).difference(s.visited.dom()).len() + env.ordinals.dom().filter(
        |module: ModuleIdentifier| !s.mask.contains(env.ordinals[module]),
    ).len()
}

/// Each step leaves less to do: fewer blocks or modules, or as many and a shorter stack.
pub(crate) proof fn lemma_step_makes_progress(
    env: WalkEnv,
    root: DependenciesBlockIdentifier,
    s: WalkState,
    found: Seq<(DependenciesBlockIdentifier, Arc<BlockModules>)>,
)
    requires
        env.ordinals.dom().finite(),
        in_bounds(env, root, s),
        can_step(env, s, found),
    ensures
        ({
            let after = walk_step(env, s, found);
            ||| walk_remaining(env, root, after) < walk_remaining(env, root, s)
            ||| walk_remaining(env, root, after) == walk_remaining(env, root, s)
                && after.actions.len() < s.actions.len()
        }),
{
    let after = walk_step(env, s, found);
    let body = |module: ModuleIdentifier| DependenciesBlockIdentifier::Module(module);
    env.ordinals.dom().lemma_map_finite(body);
    let blocks = visitable(env, root).difference(s.visited.dom());
    let modules = env.ordinals.dom().filter(
        |module: ModuleIdentifier| !s.mask.contains(env.ordinals[module]),
    );
    let modules_after = env.ordinals.dom().filter(
        |module: ModuleIdentifier| !after.mask.contains(env.ordinals[module]),
    );
    assert(s.actions[s.actions.len() - 1] == s.actions.last());
    match s.actions.last() {
        WalkAction::ProcessBlock { block, .. } => {
            assert(modules_after =~= modules);
            if !s.visited.contains_key(block) {
                assert(visitable(env, root).difference(after.visited.dom()) =~= blocks.remove(
                    block,
                ));
                assert(blocks.contains(block));
            }
        },
        WalkAction::AddModule(module) => {
            let ordinal = env.ordinals[module];
            if !s.mask.contains(ordinal) && !env.min_available.contains(ordinal) {
                assert(modules_after.subset_of(modules.remove(module)));
                assert(modules.contains(module));
                vstd::set_lib::lemma_len_subset(modules_after, modules.remove(module));
            } else {
                assert(modules_after =~= modules);
            }
        },
        WalkAction::LeaveModule(_) => {
            assert(modules_after =~= modules);
        },
    }
}

/// Every state along a walk is in order.
pub proof fn law_walk_invariant(
    env: WalkEnv,
    root: DependenciesBlockIdentifier,
    module: ModuleIdentifier,
    mask: Set<u64>,
    trace: Seq<WalkState>,
    founds: Seq<ExtractedBlocks>,
    k: int,
)
    requires
        is_walk(env, walk_start(root, module, mask), trace, founds),
        0 <= k < trace.len(),
    ensures
        walk_invariant(env, root, mask, trace[k]),
    decreases k,
{
    if k == 0 {
        lemma_start_invariant(env, root, module, mask);
    } else {
        law_walk_invariant(env, root, module, mask, trace, founds, k - 1);
        let found = founds[k - 1];
        assert(trace[k] == walk_step(env, trace[k - 1], found@));
        lemma_step_keeps_invariant(env, root, mask, trace[k - 1], found@);
    }
}

/// What a walk has done about a target of a block that it visited: an active target is in the chunk,
/// or was skipped because it is available already; one that is neither active nor inactive is in the
/// chunk, or its own block was visited; and the connections to a target that is not active were
/// noted unless the target is in the chunk.
pub open spec fn target_done(env: WalkEnv, s: WalkState, target: BlockModule) -> bool {
    let ordinal = env.ordinals[target.0];
    &&& env.ordinals.contains_key(target.0)
    &&& s.mask.contains(ordinal) || match target.1 {
        ConnectionState::Active(true) => env.min_available.contains(ordinal)
            && s.skipped_items.contains(target.0),
        ConnectionState::Active(false) => s.skipped_connections.contains((target.0, target.2)),
        _ => s.skipped_connections.contains((target.0, target.2)) && s.visited.contains_key(
            DependenciesBlockIdentifier::Module(target.0),
        ),
    }
}

/// What holds of a walk that has ended: the chunk has grown by the modules that were added, each of
/// them new; each was left exactly once; the root and the modules that were added were visited;
/// nothing is left undone about any target of a visited block; nothing was added, skipped or noted
/// that is not a target of a visited block; and the `import()` blocks of the visited blocks, and no
/// others, were reported.
pub open spec fn finished_walk(
    env: WalkEnv,
    root: DependenciesBlockIdentifier,
    mask: Set<u64>,
    s: WalkState,
) -> bool {
    &&& mask_grown(env, mask, s)
    &&& s.post_order_modules.to_multiset() == s.modules.to_multiset()
    &&& s.visited.contains_key(root)
    &&& forall|i: int|
        0 <= i < s.modules.len() ==> s.visited.contains_key(
            DependenciesBlockIdentifier::Module(#[trigger] s.modules[i]),
        )
    &&& forall|block: DependenciesBlockIdentifier, j: int|
        s.visited.contains_key(block) && 0 <= j < s.visited[block].len() ==> target_done(
            env,
            s,
            #[trigger] s.visited[block][j],
        )
    &&& all_targeted(env, mask, s)
    &&& imports_reported(env, s)
}

/// A walk that has worked its stack off has ended in order.
pub proof fn law_finished_walk(
    env: WalkEnv,
    root: DependenciesBlockIdentifier,
    module: ModuleIdentifier,
    mask: Set<u64>,
    trace: Seq<WalkState>,
    founds: Seq<ExtractedBlocks>,
)
    requires
        is_walk(env, walk_start(root, module, mask), trace, founds),
        trace.last().actions.len() == 0,
    ensures
        finished_walk(env, root, mask, trace.last()),
{
    let s = trace.last();
    law_walk_invariant(env, root, module, mask, trace, founds, trace.len() - 1);
    assert(s.post_order_modules.to_multiset().add(Multiset::empty())
        =~= s.post_order_modules.to_multiset());
    assert forall|block: DependenciesBlockIdentifier, j: int|
        s.visited.contains_key(block) && 0 <= j < s.visited[block].len() implies target_done(
        env,
        s,
        #[trigger] s.visited[block][j],
    ) by {
        assert(target_settled(env, s, s.visited[block][j]));
    }
    assert forall|i: int| 0 <= i < s.modules.len() implies s.visited.contains_key(
        DependenciesBlockIdentifier::Module(#[trigger] s.modules[i]),
    ) by {
        assert(!awaits(s.actions, DependenciesBlockIdentifier::Module(s.modules[i])));
    }
}

/// Whether a module was left, or is on the stack to be left before what lies at `p`.
pub open spec fn left_before(s: WalkState, p: int, module: ModuleIdentifier) -> bool {
    s.post_order_modules.contains(module) || exists|q: int|
        p < q < s.actions.len() && #[trigger] s.actions[q] == WalkAction::LeaveModule(module)
}

/// Whether all the modules that were added after the one at `i` are left before what lies at `p` on the
/// stack.
pub open spec fn later_left_before(s: WalkState, p: int, i: int) -> bool {
    forall|j: int| i < j < s.modules.len() ==> left_before(s, p, #[trigger] s.modules[j])
}

/// Whether every module that is still to be left was added, and is left after all those that were added
/// since.
pub open spec fn nested(s: WalkState) -> bool {
    forall|p: int|
        0 <= p < s.actions.len() && (#[trigger] s.actions[p]) is LeaveModule ==> exists|i: int|
            0 <= i < s.modules.len() && s.modules[i] == s.actions[p]->LeaveModule_0
                && #[trigger] later_left_before(s, p, i)
}

proof fn lemma_step_nested(
    env: WalkEnv,
    s: WalkState,
    found: Seq<(DependenciesBlockIdentifier, Arc<BlockModules>)>,
)
    requires
        nested(s),
        can_step(env, s, found),
    ensures
        nested(walk_step(env, s, found)),
{
    let after = walk_step(env, s, found);
    let n = s.actions.len() - 1;
    assert(s.actions[n] == s.actions.last());
    assert(forall|p: int| 0 <= p < n ==> #[trigger] after.actions[p] == s.actions[p]);
    assert forall|p: int|
        0 <= p < after.actions.len() && (#[trigger] after.actions[p]) is LeaveModule implies exists|
        i: int,
    |
        0 <= i < after.modules.len() && after.modules[i] == after.actions[p]->LeaveModule_0
            && #[trigger] later_left_before(after, p, i) by {
        if p < n {
            assert(s.actions[p] is LeaveModule);
            let i = choose|i: int|
                0 <= i < s.modules.len() && s.modules[i] == s.actions[p]->LeaveModule_0
                    && #[trigger] later_left_before(s, p, i);
            assert forall|j: int| i < j < after.modules.len() implies left_before(
                after,
                p,
                #[trigger] after.modules[j],
            ) by {
                let module = after.modules[j];
                if j < s.modules.len() {
                    assert(s.modules[j] == module);
                    assert(left_before(s, p, s.modules[j]));
                    if s.post_order_modules.contains(module) {
                        let x = choose|x: int|
                            0 <= x < s.post_order_modules.len() && s.post_order_modules[x] == module;
                        assert(after.post_order_modules[x] == module);
                    } else {
                        let q = choose|q: int|
                            p < q < s.actions.len() && #[trigger] s.actions[q]
                                == WalkAction::LeaveModule(module);
                        if q < n {
                            assert(after.actions[q] == s.actions[q]);
                        } else {
                            assert(after.post_order_modules.last() == module);
                        }
                    }
                } else {
                    assert(after.actions[n] == WalkAction::LeaveModule(module));
                }
            }
            assert(after.modules[i] == s.modules[i]);
            assert(later_left_before(after, p, i));
        } else if visits_next(s) {
            let block = s.actions.last()->ProcessBlock_block;
            let within = s.actions.last()->ProcessBlock_module;
            let counted = WalkState {
                actions: s.actions.drop_last(),
                processed_queue_items: after.processed_queue_items,
                processed_blocks: after.processed_blocks,
                ..s
            };
            assert(after == visit_block(env, counted, block, within, found));
            let j = lemma_visit_actions(env, counted, block, within, found, p);
            let targets = modules_of(env.shared, s.cache, block, found);
            assert(target_actions(env, s.mask, within, targets[j])[0] == after.actions[p]);
        } else {
            let i = s.modules.len() as int;
            assert(after.modules[i] == after.actions[p]->LeaveModule_0);
            assert(later_left_before(after, p, i));
        }
    }
}

proof fn lemma_walk_nested(
    env: WalkEnv,
    root: DependenciesBlockIdentifier,
    module: ModuleIdentifier,
    mask: Set<u64>,
    trace: Seq<WalkState>,
    founds: Seq<ExtractedBlocks>,
    k: int,
)
    requires
        is_walk(env, walk_start(root, module, mask), trace, founds),
        0 <= k < trace.len(),
    ensures
        nested(trace[k]),
    decreases k,
{
    if k > 0 {
        lemma_walk_nested(env, root, module, mask, trace, founds, k - 1);
        let found = founds[k - 1];
        assert(trace[k] == walk_step(env, trace[k - 1], found@));
        lemma_step_nested(env, trace[k - 1], found@);
    }
}

/// Modules are left in post-order: by the time that a module is left, all those were left that the walk
/// has added since it added the module.
pub proof fn law_left_in_post_order(
    env: WalkEnv,
    root: DependenciesBlockIdentifier,
    module: ModuleIdentifier,
    mask: Set<u64>,
    trace: Seq<WalkState>,
    founds: Seq<ExtractedBlocks>,
    k: int,
    left: ModuleIdentifier,
)
    requires
        is_walk(env, walk_start(root, module, mask), trace, founds),
        0 <= k < founds.len(),
        trace[k].actions.last() == WalkAction::LeaveModule(left),
    ensures
        trace[k + 1].post_order_modules == trace[k].post_order_modules.push(left),
        exists|i: int|
            0 <= i < trace[k].modules.len() && #[trigger] trace[k].modules[i] == left && (forall|
                j: int,
            |
                i < j < trace[k].modules.len() ==> trace[k].post_order_modules.contains(
                    #[trigger] trace[k].modules[j],
                )),
{
    let s = trace[k];
    let found = founds[k];
    let p = s.actions.len() - 1;
    assert(can_step(env, s, found@));
    assert(trace[k + 1] == walk_step(env, s, found@));
    lemma_walk_nested(env, root, module, mask, trace, founds, k);
    assert(s.actions[p] is LeaveModule);
    let i = choose|i: int|
        0 <= i < s.modules.len() && s.modules[i] == s.actions[p]->LeaveModule_0
            && #[trigger] later_left_before(s, p, i);
    assert(s.modules[i] == left);
    assert forall|j: int| i < j < s.modules.len() implies s.post_order_modules.contains(
        #[trigger] s.modules[j],
    ) by {
        assert(left_before(s, p, s.modules[j]));
    }
}

/// What was read for a block that was visited stays as it was to the end of the walk.
pub(crate) proof fn lemma_visited_stays(
    env: WalkEnv,
    start: WalkState,
    trace: Seq<WalkState>,
    founds: Seq<ExtractedBlocks>,
    k: int,
    block: DependenciesBlockIdentifier,
)
    requires
        is_walk(env, start, trace, founds),
        0 <= k < trace.len(),
        trace[k].visited.contains_key(block),
    ensures
        trace.last().visited.contains_key(block),
        trace.last().visited[block] == trace[k].visited[block],
    decreases trace.len() - k,
{
    if k < trace.len() - 1 {
        let found = founds[k];
        assert(trace[k + 1] == walk_step(env, trace[k], found@));
        lemma_step_carries_over(env, trace[k], found@);
        lemma_visited_stays(env, start, trace, founds, k + 1, block);
    }
}

/// Whether a walk goes on from a target to its body: the chunk does not hold it at first, it is not
/// inactive, and it is not left out because it is active and available already.
pub open spec fn leads_on(env: WalkEnv, mask: Set<u64>, target: BlockModule) -> bool {
    let ordinal = env.ordinals[target.0];
    &&& !mask.contains(ordinal)
    &&& target.1 != ConnectionState::Active(false)
    &&& !(target.1 == ConnectionState::Active(true) && env.min_available.contains(ordinal))
}

/// Whether a set of blocks has, with a block, the bodies of those targets that were read for it from which
/// a walk goes on.
pub open spec fn closed_under_targets(
    env: WalkEnv,
    mask: Set<u64>,
    visited: Map<DependenciesBlockIdentifier, Seq<BlockModule>>,
    blocks: Set<DependenciesBlockIdentifier>,
) -> bool {
    forall|block: DependenciesBlockIdentifier, j: int|
        blocks.contains(block) && visited.contains_key(block) && 0 <= j < visited[block].len()
            && leads_on(env, mask, visited[block][j]) ==> blocks.contains(
            DependenciesBlockIdentifier::Module((#[trigger] visited[block][j]).0),
        )
}

/// Whether what was visited, what was added and what is on the stack stays among the blocks.
spec fn stays_among(s: WalkState, blocks: Set<DependenciesBlockIdentifier>) -> bool {
    &&& s.visited.dom().subset_of(blocks)
    &&& forall|i: int|
        0 <= i < s.modules.len() ==> blocks.contains(
            DependenciesBlockIdentifier::Module(#[trigger] s.modules[i]),
        )
    &&& forall|i: int|
        0 <= i < s.actions.len() ==> match #[trigger] s.actions[i] {
            WalkAction::ProcessBlock { block, .. } => blocks.contains(block),
            WalkAction::AddModule(module) => blocks.contains(
                DependenciesBlockIdentifier::Module(module),
            ),
            WalkAction::LeaveModule(_) => true,
        }
}

proof fn lemma_stays_among(
    env: WalkEnv,
    root: DependenciesBlockIdentifier,
    module: ModuleIdentifier,
    mask: Set<u64>,
    trace: Seq<WalkState>,
    founds: Seq<ExtractedBlocks>,
    blocks: Set<DependenciesBlockIdentifier>,
    k: int,
)
    requires
        is_walk(env, walk_start(root, module, mask), trace, founds),
        0 <= k < trace.len(),
        blocks.contains(root),
        closed_under_targets(env, mask, trace.last().visited, blocks),
    ensures
        stays_among(trace[k], blocks),
    decreases k,
{
    if k > 0 {
        lemma_stays_among(env, root, module, mask, trace, founds, blocks, k - 1);
        law_walk_invariant(env, root, module, mask, trace, founds, k - 1);
        let s = trace[k - 1];
        let after = trace[k];
        let found = founds[k - 1]@;
        let n = s.actions.len() - 1;
        assert(can_step(env, s, founds[k - 1]@));
        assert(after == walk_step(env, s, found));
        assert(s.actions[n] == s.actions.last());
        assert(forall|i: int| 0 <= i < n ==> #[trigger] after.actions[i] == s.actions[i]);
        let block = s.actions.last()->ProcessBlock_block;
        let within = s.actions.last()->ProcessBlock_module;
        let counted = WalkState {
            actions: s.actions.drop_last(),
            processed_queue_items: after.processed_queue_items,
            processed_blocks: after.processed_blocks,
            ..s
        };
        if visits_next(s) {
            assert(after == visit_block(env, counted, block, within, found));
            let targets = modules_of(env.shared, s.cache, block, found);
            assert(after.visited.contains_key(block) && after.visited[block] == targets);
            lemma_visited_stays(
                env,
                walk_start(root, module, mask),
                trace,
                founds,
                k,
                block,
            );
            assert forall|i: int| n <= i < after.actions.len() implies match #[trigger] after.actions[i] {
                WalkAction::ProcessBlock { block, .. } => blocks.contains(block),
                WalkAction::AddModule(module) => blocks.contains(
                    DependenciesBlockIdentifier::Module(module),
                ),
                WalkAction::LeaveModule(_) => true,
            } by {
                let j = lemma_visit_actions(env, counted, block, within, found, i);
                assert(target_actions(env, s.mask, within, targets[j])[0] == after.actions[i]);
                assert(trace.last().visited[block][j] == targets[j]);
                let ordinal = env.ordinals[targets[j].0];
                assert(s.mask.contains(ordinal) <==> mask.contains(ordinal) || holds_ordinal(
                    env,
                    s.modules,
                    ordinal,
                ));
                assert(leads_on(env, mask, targets[j]));
                assert(blocks.contains(DependenciesBlockIdentifier::Module(targets[j].0)));
            }
        }
        assert forall|i: int| 0 <= i < after.modules.len() implies blocks.contains(
            DependenciesBlockIdentifier::Module(#[trigger] after.modules[i]),
        ) by {
            if i < s.modules.len() {
                assert(after.modules[i] == s.modules[i]);
            } else {
                assert(s.actions[n] == WalkAction::AddModule(after.modules[i]));
            }
        }
    }
}

/// Whether no two modules have the same ordinal.
pub open spec fn ordinals_distinct(env: WalkEnv) -> bool {
    forall|a: ModuleIdentifier, b: ModuleIdentifier|
        #![trigger env.ordinals[a], env.ordinals[b]]
        env.ordinals.contains_key(a) && env.ordinals.contains_key(b) && a != b ==> env.ordinals[a]
            != env.ordinals[b]
}

/// A walk that has worked its stack off has visited all that is in reach: the root, and with a block the
/// bodies of its targets from which a walk goes on. With `law_walk_stays_in_reach` the visited blocks are
/// the least set of blocks that has these.
pub proof fn law_walk_covers_its_reach(
    env: WalkEnv,
    root: DependenciesBlockIdentifier,
    module: ModuleIdentifier,
    mask: Set<u64>,
    trace: Seq<WalkState>,
    founds: Seq<ExtractedBlocks>,
)
    requires
        is_walk(env, walk_start(root, module, mask), trace, founds),
        trace.last().actions.len() == 0,
        ordinals_distinct(env),
    ensures
        trace.last().visited.contains_key(root),
        closed_under_targets(
            env,
            mask,
            trace.last().visited,
            trace.last().visited.dom(),
        ),
{
    let s = trace.last();
    law_finished_walk(env, root, module, mask, trace, founds);
    assert forall|block: DependenciesBlockIdentifier, j: int|
        s.visited.contains_key(block) && 0 <= j < s.visited[block].len() && leads_on(
            env,
            mask,
            s.visited[block][j],
        ) implies s.visited.dom().contains(
        DependenciesBlockIdentifier::Module((#[trigger] s.visited[block][j]).0),
    ) by {
        let target = s.visited[block][j];
        let ordinal = env.ordinals[target.0];
        assert(target_done(env, s, target));
        if s.mask.contains(ordinal) {
            assert(holds_ordinal(env, s.modules, ordinal));
            let i = choose|i: int|
                0 <= i < s.modules.len() && env.ordinals[#[trigger] s.modules[i]] == ordinal;
            assert(env.ordinals.contains_key(s.modules[i]));
            assert(s.modules[i] == target.0);
        }
    }
}

/// A walk visits and adds nothing out of reach: any set of blocks that has the root, and with a block
/// the bodies of its targets from which a walk goes on, has every block that was visited and the body of
/// every module that was added.
pub proof fn law_walk_stays_in_reach(
    env: WalkEnv,
    root: DependenciesBlockIdentifier,
    module: ModuleIdentifier,
    mask: Set<u64>,
    trace: Seq<WalkState>,
    founds: Seq<ExtractedBlocks>,
    blocks: Set<DependenciesBlockIdentifier>,
)
    requires
        is_walk(env, walk_start(root, module, mask), trace, founds),
        blocks.contains(root),
        closed_under_targets(env, mask, trace.last().visited, blocks),
    ensures
        trace.last().visited.dom().subset_of(blocks),
        forall|i: int|
            0 <= i < trace.last().modules.len() ==> blocks.contains(
                DependenciesBlockIdentifier::Module(#[trigger] trace.last().modules[i]),
            ),
{
    lemma_stays_among(env, root, module, mask, trace, founds, blocks, trace.len() - 1);
}

/// Whether each extraction along a walk brought what `content` gives for the block at hand.
pub open spec fn extracts_by(
    env: WalkEnv,
    trace: Seq<WalkState>,
    founds: Seq<ExtractedBlocks>,
    content: spec_fn(DependenciesBlockIdentifier) -> Seq<
        (DependenciesBlockIdentifier, Arc<BlockModules>),
    >,
) -> bool {
    forall|i: int|
        #![trigger founds[i]]
        0 <= i < founds.len() && extracts_next(env, trace[i]) ==> founds[i]@ == content(
            next_block(trace[i]),
        )
}

/// Whether a walk cannot go on: its stack is worked off, or the block that it visits next has a target
/// without an ordinal.
pub open spec fn halted(
    env: WalkEnv,
    s: WalkState,
    content: spec_fn(DependenciesBlockIdentifier) -> Seq<
        (DependenciesBlockIdentifier, Arc<BlockModules>),
    >,
) -> bool {
    s.actions.len() == 0 || (visits_next(s) && !all_have_ordinals(
        env,
        modules_of(env.shared, s.cache, next_block(s), content(next_block(s))),
    ))
}

/// A walk is determined by where it starts, what it reads and what the extractions bring: two walks
/// that agree in these, and that both cannot go on, are one and the same.
pub proof fn law_walk_is_determined(
    env: WalkEnv,
    start: WalkState,
    trace1: Seq<WalkState>,
    founds1: Seq<ExtractedBlocks>,
    trace2: Seq<WalkState>,
    founds2: Seq<ExtractedBlocks>,
    content: spec_fn(DependenciesBlockIdentifier) -> Seq<
        (DependenciesBlockIdentifier, Arc<BlockModules>),
    >,
)
    requires
        is_walk(env, start, trace1, founds1),
        is_walk(env, start, trace2, founds2),
        extracts_by(env, trace1, founds1, content),
        extracts_by(env, trace2, founds2, content),
        halted(env, trace1.last(), content),
        halted(env, trace2.last(), content),
    ensures
        trace1 == trace2,
{
    lemma_walks_agree(
        env,
        start,
        trace1,
        founds1,
        trace2,
        founds2,
        content,
        trace1.len() - 1,
    );
    lemma_walks_agree(
        env,
        start,
        trace2,
        founds2,
        trace1,
        founds1,
        content,
        trace2.len() - 1,
    );
    assert(trace1 =~= trace2);
}

/// As far as a walk goes, another one from the same start goes along that goes on as long as it can.
proof fn lemma_walks_agree(
    env: WalkEnv,
    start: WalkState,
    trace1: Seq<WalkState>,
    founds1: Seq<ExtractedBlocks>,
    trace2: Seq<WalkState>,
    founds2: Seq<ExtractedBlocks>,
    content: spec_fn(DependenciesBlockIdentifier) -> Seq<
        (DependenciesBlockIdentifier, Arc<BlockModules>),
    >,
    k: int,
)
    requires
        is_walk(env, start, trace1, founds1),
        is_walk(env, start, trace2, founds2),
        extracts_by(env, trace1, founds1, content),
        extracts_by(env, trace2, founds2, content),
        halted(env, trace2.last(), content),
        0 <= k < trace1.len(),
    ensures
        k < trace2.len(),
        forall|i: int| 0 <= i <= k ==> #[trigger] trace1[i] == trace2[i],
    decreases k,
{
    if k > 0 {
        lemma_walks_agree(env, start, trace1, founds1, trace2, founds2, content, k - 1);
        let s = trace1[k - 1];
        assert(s == trace2[k - 1]);
        let found1 = founds1[k - 1];
        assert(can_step(env, s, found1@));
        if extracts_next(env, s) {
            assert(found1@ == content(next_block(s)));
        } else if visits_next(s) {
            assert(modules_of(env.shared, s.cache, next_block(s), found1@) == modules_of(
                env.shared,
                s.cache,
                next_block(s),
                content(next_block(s)),
            ));
        }
        assert(k - 1 < trace2.len() - 1);
        let found2 = founds2[k - 1];
        assert(trace1[k] == walk_step(env, s, found1@));
        assert(trace2[k] == walk_step(env, s, found2@));
        if extracts_next(env, s) {
            assert(found1@ == found2@);
        } else if visits_next(s) {
            assert(walk_step(env, s, found1@) =~= walk_step(env, s, found2@));
        }
    }
}

} // verus!
