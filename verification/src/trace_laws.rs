use vstd::prelude::*;

use std::sync::Arc;

use crate::counter::counter_sum;
use crate::graph::{
    AsyncDependenciesBlockIdentifier, BlockModules, DependenciesBlockIdentifier, ModuleIdentifier,
};
use crate::walk_laws::lemma_visit_actions;
use crate::walk_model::{
    ExtractedBlocks, WalkAction, WalkEnv, WalkState, async_blocks_of, can_step, is_walk, modules_of,
    next_block, target_actions, visit_block, visits_next, walk_start, walk_step,
};

verus! {

/// The blocks that the first `n` actions of a walk visit, in order, each with the module that the walk is
/// in.
pub open spec fn visits(trace: Seq<WalkState>, n: int) -> Seq<
    (DependenciesBlockIdentifier, ModuleIdentifier),
>
    decreases n,
{
    if n <= 0 {
        Seq::empty()
    } else if visits_next(trace[n - 1]) {
        visits(trace, n - 1).push(
            (next_block(trace[n - 1]), trace[n - 1].actions.last()->ProcessBlock_module),
        )
    } else {
        visits(trace, n - 1)
    }
}

/// The `import()` blocks of visited blocks, block by block.
pub open spec fn imports_of(
    env: WalkEnv,
    visits: Seq<(DependenciesBlockIdentifier, ModuleIdentifier)>,
) -> Seq<(AsyncDependenciesBlockIdentifier, ModuleIdentifier)>
    decreases visits.len(),
{
    if visits.len() == 0 {
        Seq::empty()
    } else {
        imports_of(env, visits.drop_last()) + async_blocks_of(
            env,
            visits.last().0,
            visits.last().1,
        )
    }
}

/// Whether a block is among the visits.
pub open spec fn among(
    visits: Seq<(DependenciesBlockIdentifier, ModuleIdentifier)>,
    block: DependenciesBlockIdentifier,
) -> bool {
    exists|i: int| 0 <= i < visits.len() && (#[trigger] visits[i]).0 == block
}

/// A walk reports the `import()` blocks of the blocks that it visits in the order of the visits, and each
/// block's once: no block is visited twice. The root comes first.
pub proof fn law_imports_in_visiting_order(
    env: WalkEnv,
    root: DependenciesBlockIdentifier,
    module: ModuleIdentifier,
    mask: Set<u64>,
    trace: Seq<WalkState>,
    founds: Seq<ExtractedBlocks>,
    k: int,
)
    requires
        is_walk(env, walk_start(root, module, mask), trace, founds),
        0 <= k < trace.len(),
    ensures
        trace[k].async_blocks == imports_of(env, visits(trace, k)),
        forall|block: DependenciesBlockIdentifier| #[trigger]
            trace[k].visited.contains_key(block) <==> among(visits(trace, k), block),
        forall|i: int, j: int|
            0 <= i < j < visits(trace, k).len() ==> (#[trigger] visits(trace, k)[i]).0 != (
            #[trigger] visits(trace, k)[j]).0,
        k > 0 ==> visits(trace, k).len() > 0 && visits(trace, k)[0] == (root, module),
    decreases k,
{
    if k > 0 {
        law_imports_in_visiting_order(env, root, module, mask, trace, founds, k - 1);
        let s = trace[k - 1];
        let found = founds[k - 1];
        let before = visits(trace, k - 1);
        let now = visits(trace, k);
        assert(can_step(env, s, found@));
        assert(trace[k] == walk_step(env, s, found@));
        if visits_next(s) {
            let block = next_block(s);
            assert(now.drop_last() =~= before);
            assert(!among(before, block));
            assert forall|b: DependenciesBlockIdentifier| #[trigger]
                trace[k].visited.contains_key(b) <==> among(now, b) by {
                assert(s.visited.contains_key(b) <==> among(before, b));
                if among(before, b) {
                    let i = choose|i: int| 0 <= i < before.len() && (#[trigger] before[i]).0 == b;
                    assert(now[i] == before[i]);
                }
                if b == block {
                    assert(now[before.len() as int].0 == b);
                }
                if among(now, b) && b != block {
                    let i = choose|i: int| 0 <= i < now.len() && (#[trigger] now[i]).0 == b;
                    assert(before[i] == now[i]);
                }
            }
            assert forall|i: int, j: int| 0 <= i < j < now.len() implies (#[trigger] now[i]).0 != (
            #[trigger] now[j]).0 by {
                assert(now[i] == before[i]);
                if j < before.len() {
                    assert(now[j] == before[j]);
                }
            }
            if k > 1 {
                assert(now[0] == before[0]);
            }
        }
    }
}

/// How many of the first `n` actions of a walk are of a kind.
pub open spec fn taken_of(
    trace: Seq<WalkState>,
    n: int,
    kind: spec_fn(WalkAction) -> bool,
) -> int
    decreases n,
{
    if n <= 0 {
        0
    } else {
        taken_of(trace, n - 1, kind) + if kind(trace[n - 1].actions.last()) {
            1int
        } else {
            0int
        }
    }
}

/// The blocks that the first `n` actions of a walk take from the stack, visited before or not.
pub open spec fn blocks_taken(trace: Seq<WalkState>, n: int) -> int {
    taken_of(trace, n, |action: WalkAction| action is ProcessBlock)
}

/// The modules that the first `n` actions of a walk take from the stack to add them, whether they do or
/// not.
pub open spec fn modules_taken(trace: Seq<WalkState>, n: int) -> int {
    taken_of(trace, n, |action: WalkAction| action is AddModule)
}

/// Whether an action is the body of a module that was just added.
spec fn is_body(action: WalkAction) -> bool {
    action matches WalkAction::ProcessBlock { queued, .. } && !queued
}

/// How many actions on a stack are of a kind.
spec fn stacked(actions: Seq<WalkAction>, kind: spec_fn(WalkAction) -> bool) -> int
    decreases actions.len(),
{
    if actions.len() == 0 {
        0
    } else {
        stacked(actions.drop_last(), kind) + if kind(actions.last()) {
            1int
        } else {
            0int
        }
    }
}

proof fn lemma_stacked_under(
    below: Seq<WalkAction>,
    above: Seq<WalkAction>,
    kind: spec_fn(WalkAction) -> bool,
)
    requires
        forall|i: int| 0 <= i < above.len() ==> !kind(#[trigger] above[i]),
    ensures
        stacked(below + above, kind) == stacked(below, kind),
    decreases above.len(),
{
    if above.len() == 0 {
        assert(below + above =~= below);
    } else {
        assert((below + above).drop_last() =~= below + above.drop_last());
        assert(!kind(above[above.len() - 1]));
        assert forall|i: int| 0 <= i < above.drop_last().len() implies !kind(
            #[trigger] above.drop_last()[i],
        ) by {
            assert(above.drop_last()[i] == above[i]);
        }
        lemma_stacked_under(below, above.drop_last(), kind);
    }
}

/// What a step does to the stack, as far as bodies and modules to be left are concerned.
proof fn lemma_step_stack(
    env: WalkEnv,
    s: WalkState,
    found: Seq<(DependenciesBlockIdentifier, Arc<BlockModules>)>,
)
    requires
        can_step(env, s, found),
    ensures
        ({
            let after = walk_step(env, s, found);
            let body = |action: WalkAction| is_body(action);
            let leave = |action: WalkAction| action is LeaveModule;
            let last = s.actions.last();
            let added = after.modules.len() - s.modules.len();
            &&& added == 0 || added == 1 && last is AddModule
            &&& stacked(after.actions, body) + (if is_body(last) {
                1int
            } else {
                0int
            }) == stacked(s.actions, body) + added
            &&& stacked(after.actions, leave) + (if last is LeaveModule {
                1int
            } else {
                0int
            }) == stacked(s.actions, leave) + added
        }),
{
    let after = walk_step(env, s, found);
    let body = |action: WalkAction| is_body(action);
    let leave = |action: WalkAction| action is LeaveModule;
    let rest = s.actions.drop_last();
    if visits_next(s) {
        let block = next_block(s);
        let within = s.actions.last()->ProcessBlock_module;
        let counted = WalkState {
            actions: rest,
            processed_queue_items: after.processed_queue_items,
            processed_blocks: after.processed_blocks,
            ..s
        };
        assert(after == visit_block(env, counted, block, within, found));
        let targets = modules_of(env.shared, s.cache, block, found);
        let above = after.actions.skip(rest.len() as int);
        assert(after.actions =~= rest + above);
        assert forall|i: int| 0 <= i < above.len() implies !body(#[trigger] above[i]) && !leave(
            above[i],
        ) by {
            let j = lemma_visit_actions(env, counted, block, within, found, rest.len() + i);
            assert(target_actions(env, s.mask, within, targets[j])[0] == above[i]);
        }
        lemma_stacked_under(rest, above, body);
        lemma_stacked_under(rest, above, leave);
    } else if after.modules.len() > s.modules.len() {
        let module = s.actions.last()->AddModule_0;
        let left = rest.push(WalkAction::LeaveModule(module));
        assert(left.drop_last() =~= rest);
        assert(stacked(left, body) == stacked(rest, body));
        assert(stacked(left, leave) == stacked(rest, leave) + 1);
        assert(after.actions.drop_last() =~= left);
        assert(after.actions.last() is ProcessBlock);
    } else {
        assert(after.actions =~= rest);
    }
}

/// Where the counters of a walk stand after `k` actions.
proof fn lemma_counters_stand(
    env: WalkEnv,
    root: DependenciesBlockIdentifier,
    module: ModuleIdentifier,
    mask: Set<u64>,
    trace: Seq<WalkState>,
    founds: Seq<ExtractedBlocks>,
    k: int,
)
    requires
        is_walk(env, walk_start(root, module, mask), trace, founds),
        0 <= k < trace.len(),
    ensures
        ({
            let s = trace[k];
            let m = s.modules.len() as int;
            let body = |action: WalkAction| is_body(action);
            let leave = |action: WalkAction| action is LeaveModule;
            let bodies = taken_of(trace, k, body);
            let leaves = taken_of(trace, k, leave);
            &&& bodies + stacked(s.actions, body) == m
            &&& leaves + stacked(s.actions, leave) == m
            &&& modules_taken(trace, k) >= m
            &&& k > 0 ==> blocks_taken(trace, k) >= bodies + 1
            &&& s.processed_blocks == counter_sum(0, blocks_taken(trace, k))
            &&& s.processed_queue_items == counter_sum(
                0,
                blocks_taken(trace, k) - bodies + modules_taken(trace, k) + leaves,
            )
            &&& k == blocks_taken(trace, k) + modules_taken(trace, k) + leaves
        }),
    decreases k,
{
    let body = |action: WalkAction| is_body(action);
    let leave = |action: WalkAction| action is LeaveModule;
    if k == 0 {
        let actions = trace[0].actions;
        assert(actions.drop_last() =~= Seq::empty());
        assert(stacked(actions.drop_last(), body) == 0);
        assert(stacked(actions.drop_last(), leave) == 0);
    } else {
        lemma_counters_stand(env, root, module, mask, trace, founds, k - 1);
        let s = trace[k - 1];
        let found = founds[k - 1];
        assert(can_step(env, s, found@));
        assert(trace[k] == walk_step(env, s, found@));
        lemma_step_stack(env, s, found@);
        if k == 1 {
            assert(s.actions.last() == WalkAction::ProcessBlock {
                block: root,
                module,
                queued: true,
            });
        }
    }
}

/// What a walk that has worked its stack off has counted: the blocks that it took from the stack, and the
/// queue items, which are those blocks and the modules that it took to add them. It took more blocks than
/// it has added modules, and at least as many modules; and it took one action more per module, to leave
/// it.
pub proof fn law_walk_counters(
    env: WalkEnv,
    root: DependenciesBlockIdentifier,
    module: ModuleIdentifier,
    mask: Set<u64>,
    trace: Seq<WalkState>,
    founds: Seq<ExtractedBlocks>,
)
    requires
        is_walk(env, walk_start(root, module, mask), trace, founds),
        trace.last().actions.len() == 0,
    ensures
        ({
            let s = trace.last();
            let m = s.modules.len();
            let blocks = blocks_taken(trace, founds.len() as int);
            let modules = modules_taken(trace, founds.len() as int);
            &&& s.processed_blocks == counter_sum(0, blocks)
            &&& s.processed_queue_items == counter_sum(0, blocks + modules)
            &&& blocks >= m + 1
            &&& modules >= m
            &&& founds.len() == blocks + modules + m
        }),
{
    lemma_counters_stand(env, root, module, mask, trace, founds, founds.len() as int);
}

} // verus!
