use vstd::prelude::*;

use std::sync::Arc;

use crate::counter::counter_sum;
use crate::graph::{
    AsyncDependenciesBlockIdentifier, BlockModule, BlockModules, ConnectionIdList, ConnectionState,
    DependenciesBlockIdentifier, ModuleIdentifier,
};
use crate::order::{ModuleGraphModule, TraversalOrder, lacks_place};
use crate::walk::{
    ParallelWalkJob, ParallelWalkResult, WalkInputs, asks, lemma_gather_front, stuck, walk_env,
    walk_outcome,
};
use crate::walk_laws::{law_finished_walk, lemma_visited_stays, target_done};
use crate::walk_model::{
    ExtractedBlocks, WalkAction, WalkEnv, WalkState, all_have_ordinals, can_step, extracts_next,
    first_without_ordinal, gather, insert_all, is_walk, modules_of, next_block, target_actions,
    target_inactive, target_skipped, visits_next, walk_start, walk_step,
};

verus! {

/// What a search goes by: the ordinals of the modules, the ordinals that are available already, and for
/// each block its targets in source order and its `import()` blocks.
pub struct Surroundings {
    pub ordinals: Map<ModuleIdentifier, u64>,
    pub available: Set<u64>,
    pub targets: spec_fn(DependenciesBlockIdentifier) -> Seq<BlockModule>,
    pub imports: spec_fn(DependenciesBlockIdentifier) -> Seq<AsyncDependenciesBlockIdentifier>,
}

/// What a search has brought so far.
#[verifier::ext_equal]
pub struct Findings {
    /// The ordinals of the modules in the chunk.
    pub held: Set<u64>,
    pub visited: Set<DependenciesBlockIdentifier>,
    /// The modules that were added to the chunk, as they were entered.
    pub entered: Seq<ModuleIdentifier>,
    /// The modules that were added to the chunk, as they were left.
    pub left: Seq<ModuleIdentifier>,
    pub imports: Seq<(AsyncDependenciesBlockIdentifier, ModuleIdentifier)>,
    pub left_out: Seq<ModuleIdentifier>,
    pub not_active: Seq<(ModuleIdentifier, ConnectionIdList)>,
    /// How often a block was come to.
    pub blocks: int,
    /// How many items went through the queue.
    pub items: int,
}

/// A search that has found nothing, with what the chunk holds already.
pub open spec fn nothing_found(held: Set<u64>) -> Findings {
    Findings {
        held,
        visited: Set::empty(),
        entered: Seq::empty(),
        left: Seq::empty(),
        imports: Seq::empty(),
        left_out: Seq::empty(),
        not_active: Seq::empty(),
        blocks: 0,
        items: 0,
    }
}

/// Visits a block, unless it was visited before, and then all that lies behind it, at most `n` blocks deep.
/// What the block's targets call for is settled by what the chunk holds when the block is come to. First
/// its `import()` blocks are noted, and those targets that are left out or not active, from the last to the
/// first; then its targets are gone through.
pub open spec fn visit_depth_first(
    n: nat,
    w: Surroundings,
    f: Findings,
    block: DependenciesBlockIdentifier,
    module: ModuleIdentifier,
    queued: bool,
) -> Findings
    decreases n, 0nat,
{
    let come_to = Findings {
        blocks: f.blocks + 1,
        items: f.items + if queued {
            1int
        } else {
            0int
        },
        ..f
    };
    if n == 0 || f.visited.contains(block) {
        come_to
    } else {
        let targets = (w.targets)(block);
        let fresh = targets.reverse().filter(
            |target: BlockModule| !f.held.contains(w.ordinals[target.0]),
        );
        let noted = Findings {
            visited: f.visited.insert(block),
            imports: f.imports + (w.imports)(block).map_values(
                |id: AsyncDependenciesBlockIdentifier| (id, module),
            ),
            left_out: f.left_out + fresh.filter(
                |target: BlockModule|
                    target.1 == ConnectionState::Active(true) && w.available.contains(
                        w.ordinals[target.0],
                    ),
            ).map_values(|target: BlockModule| target.0),
            not_active: f.not_active + fresh.filter(
                |target: BlockModule| target.1 != ConnectionState::Active(true),
            ).map_values(|target: BlockModule| (target.0, target.2)),
            ..come_to
        };
        go_through((n - 1) as nat, w, noted, f.held, targets, module)
    }
}

/// Goes through targets in source order, each with all that lies behind it before the next: an active one
/// is entered unless it is available already, and of one that is neither active nor inactive the body is
/// visited. What was held when the block was come to is passed over.
pub open spec fn go_through(
    n: nat,
    w: Surroundings,
    f: Findings,
    held: Set<u64>,
    targets: Seq<BlockModule>,
    module: ModuleIdentifier,
) -> Findings
    decreases n, targets.len() + 2,
{
    if targets.len() == 0 {
        f
    } else {
        let target = targets.first();
        let after = if held.contains(w.ordinals[target.0]) {
            f
        } else {
            match target.1 {
                ConnectionState::Active(true) => if w.available.contains(w.ordinals[target.0]) {
                    f
                } else {
                    enter_depth_first(n, w, f, target.0)
                },
                ConnectionState::Active(false) => f,
                _ => visit_depth_first(
                    n,
                    w,
                    f,
                    DependenciesBlockIdentifier::Module(target.0),
                    module,
                    true,
                ),
            }
        };
        go_through(n, w, after, held, targets.drop_first(), module)
    }
}

/// Enters a module, unless the chunk holds it by now: adds it, visits its body, and leaves it once all was
/// visited that lies behind.
pub open spec fn enter_depth_first(
    n: nat,
    w: Surroundings,
    f: Findings,
    module: ModuleIdentifier,
) -> Findings
    decreases n, 1nat,
{
    let ordinal = w.ordinals[module];
    let met = Findings { items: f.items + 1, ..f };
    if f.held.contains(ordinal) {
        met
    } else if w.available.contains(ordinal) {
        Findings { left_out: f.left_out.push(module), ..met }
    } else {
        let entered = Findings {
            entered: f.entered.push(module),
            held: f.held.insert(ordinal),
            ..met
        };
        let behind = visit_depth_first(
            n,
            w,
            entered,
            DependenciesBlockIdentifier::Module(module),
            module,
            false,
        );
        Findings { left: behind.left.push(module), items: behind.items + 1, ..behind }
    }
}

/// What the actions on a stack come to, from the last to the first.
spec fn work_off(n: nat, w: Surroundings, f: Findings, actions: Seq<WalkAction>) -> Findings
    decreases actions.len(),
{
    if actions.len() == 0 {
        f
    } else {
        work_off(n, w, act(n, w, f, actions.last()), actions.drop_last())
    }
}

spec fn act(n: nat, w: Surroundings, f: Findings, action: WalkAction) -> Findings {
    match action {
        WalkAction::ProcessBlock { block, module, queued } => visit_depth_first(
            n,
            w,
            f,
            block,
            module,
            queued,
        ),
        WalkAction::AddModule(module) => enter_depth_first(n, w, f, module),
        WalkAction::LeaveModule(module) => Findings {
            left: f.left.push(module),
            items: f.items + 1,
            ..f
        },
    }
}

/// Whether the state of a walk holds what a search has brought.
pub open spec fn holds(s: WalkState, f: Findings) -> bool {
    &&& s.mask == f.held
    &&& s.visited.dom() == f.visited
    &&& s.modules == f.entered
    &&& s.post_order_modules == f.left
    &&& s.async_blocks == f.imports
    &&& s.skipped_items == f.left_out
    &&& s.skipped_connections == f.not_active
    &&& s.processed_blocks == counter_sum(0, f.blocks)
    &&& s.processed_queue_items == counter_sum(0, f.items)
}

/// Whether a search in `w` goes by what a walk reads.
spec fn reads(env: WalkEnv, w: Surroundings, s: WalkState) -> bool {
    &&& w.ordinals == env.ordinals
    &&& w.available == env.min_available
    &&& forall|block: DependenciesBlockIdentifier| #[trigger]
        s.visited.contains_key(block) ==> (w.targets)(block) == s.visited[block]
    &&& forall|block: DependenciesBlockIdentifier| #[trigger]
        (w.imports)(block) == (if env.prepared.contains_key(block) {
            env.prepared[block]@
        } else {
            Seq::empty()
        })
}

/// The work that targets give, worked off from the top of the stack, goes through them in source order.
proof fn lemma_work_in_source_order(
    n: nat,
    env: WalkEnv,
    w: Surroundings,
    f: Findings,
    held: Set<u64>,
    targets: Seq<BlockModule>,
    module: ModuleIdentifier,
)
    requires
        w.ordinals == env.ordinals,
        w.available == env.min_available,
    ensures
        work_off(
            n,
            w,
            f,
            gather(targets, |target: BlockModule| target_actions(env, held, module, target)),
        ) == go_through(n, w, f, held, targets, module),
    decreases targets.len(),
{
    let yields = |target: BlockModule| target_actions(env, held, module, target);
    if targets.len() > 0 {
        let target = targets.first();
        let later = targets.drop_first();
        let work = gather(later, yields);
        assert(targets =~= seq![target] + later);
        lemma_gather_front(target, later, yields);
        if yields(target).len() == 0 {
            assert(work + yields(target) =~= work);
            lemma_work_in_source_order(n, env, w, f, held, later, module);
        } else {
            let action = yields(target)[0];
            let all = work + yields(target);
            assert(all.last() == action);
            assert(all.drop_last() =~= work);
            lemma_work_in_source_order(n, env, w, act(n, w, f, action), held, later, module);
        }
    }
}

/// What is gathered where `pick` holds is what a filter picks from the last to the first.
proof fn lemma_gather_picks<T>(
    targets: Seq<BlockModule>,
    yields: spec_fn(BlockModule) -> Seq<T>,
    pick: spec_fn(BlockModule) -> bool,
    part: spec_fn(BlockModule) -> T,
)
    requires
        forall|target: BlockModule| #[trigger]
            yields(target) == (if pick(target) {
                seq![part(target)]
            } else {
                Seq::empty()
            }),
    ensures
        gather(targets, yields) == targets.reverse().filter(pick).map_values(part),
    decreases targets.len(),
{
    reveal(Seq::filter);
    if targets.len() == 0 {
        assert(targets.reverse() =~= Seq::empty());
        assert(gather(targets, yields) =~= targets.reverse().filter(pick).map_values(part));
    } else {
        let target = targets.last();
        let earlier = targets.drop_last();
        lemma_gather_picks(earlier, yields, pick, part);
        assert(targets.reverse() =~= seq![target] + earlier.reverse());
        Seq::filter_distributes_over_add(seq![target], earlier.reverse(), pick);
        assert(seq![target].drop_last() =~= Seq::empty());
        let picked = earlier.reverse().filter(pick);
        if pick(target) {
            assert(seq![target].filter(pick) =~= seq![target]);
            assert((seq![target] + picked).map_values(part) =~= seq![part(target)]
                + picked.map_values(part));
        } else {
            let none = Seq::<BlockModule>::empty();
            assert(none.filter(pick) =~= none);
            assert(seq![target].last() == target);
            assert(seq![target].filter(pick) == seq![target].drop_last().filter(pick));
            assert(seq![target].filter(pick) =~= none);
            assert(Seq::empty() + picked =~= picked);
            assert(Seq::<T>::empty() + picked.map_values(part) =~= picked.map_values(part));
        }
    }
}

/// Two filters, one after the other, pick what both would.
proof fn lemma_filter_twice<T>(
    s: Seq<T>,
    first: spec_fn(T) -> bool,
    second: spec_fn(T) -> bool,
    both: spec_fn(T) -> bool,
)
    requires
        forall|x: T| #[trigger] both(x) == (first(x) && second(x)),
    ensures
        s.filter(first).filter(second) == s.filter(both),
    decreases s.len(),
{
    reveal(Seq::filter);
    if s.len() > 0 {
        lemma_filter_twice(s.drop_last(), first, second, both);
        let before = s.drop_last().filter(first);
        assert(before.push(s.last()).drop_last() =~= before);
        assert(both(s.last()) == (first(s.last()) && second(s.last())));
    }
}

/// What a walk notes when it visits a block for the first time is what a search notes.
proof fn lemma_visit_notes(
    n: nat,
    env: WalkEnv,
    w: Surroundings,
    f: Findings,
    s: WalkState,
    found: Seq<(DependenciesBlockIdentifier, Arc<BlockModules>)>,
)
    requires
        n > 0,
        can_step(env, s, found),
        visits_next(s),
        holds(s, f),
        reads(env, w, walk_step(env, s, found)),
    ensures
        ({
            let block = next_block(s);
            let module = s.actions.last()->ProcessBlock_module;
            let queued = s.actions.last()->ProcessBlock_queued;
            let after = walk_step(env, s, found);
            let rest = s.actions.drop_last();
            let work = gather(
                (w.targets)(block),
                |target: BlockModule| target_actions(env, s.mask, module, target),
            );
            exists|noted: Findings|
                {
                    &&& #[trigger] holds(after, noted)
                    &&& after.actions == rest + work
                    &&& visit_depth_first(n, w, f, block, module, queued) == go_through(
                        (n - 1) as nat,
                        w,
                        noted,
                        s.mask,
                        (w.targets)(block),
                        module,
                    )
                }
        }),
{
    let block = next_block(s);
    let module = s.actions.last()->ProcessBlock_module;
    let queued = s.actions.last()->ProcessBlock_queued;
    let after = walk_step(env, s, found);
    assert(after.visited.contains_key(block));
    let targets = (w.targets)(block);
    assert(targets == after.visited[block]);
    let fresh_pick = |target: BlockModule| !f.held.contains(w.ordinals[target.0]);
    let available = |target: BlockModule|
        target.1 == ConnectionState::Active(true) && w.available.contains(w.ordinals[target.0]);
    let not_active = |target: BlockModule| target.1 != ConnectionState::Active(true);
    let fresh = targets.reverse().filter(fresh_pick);
    let noted = Findings {
        blocks: f.blocks + 1,
        items: f.items + if queued {
            1int
        } else {
            0int
        },
        visited: f.visited.insert(block),
        imports: f.imports + (w.imports)(block).map_values(
            |id: AsyncDependenciesBlockIdentifier| (id, module),
        ),
        left_out: f.left_out + fresh.filter(available).map_values(
            |target: BlockModule| target.0,
        ),
        not_active: f.not_active + fresh.filter(not_active).map_values(
            |target: BlockModule| (target.0, target.2),
        ),
        ..f
    };
    let skipped = |target: BlockModule| target_skipped(env, s.mask, target);
    let inactive = |target: BlockModule| target_inactive(env, s.mask, target);
    let pick_skipped = |target: BlockModule| fresh_pick(target) && available(target);
    let pick_inactive = |target: BlockModule| fresh_pick(target) && not_active(target);
    lemma_gather_picks(targets, skipped, pick_skipped, |target: BlockModule| target.0);
    lemma_gather_picks(targets, inactive, pick_inactive, |target: BlockModule| (target.0, target.2));
    lemma_filter_twice(targets.reverse(), fresh_pick, available, pick_skipped);
    lemma_filter_twice(targets.reverse(), fresh_pick, not_active, pick_inactive);
    assert(after.visited.dom() =~= noted.visited);
    if !env.prepared.contains_key(block) {
        assert((w.imports)(block).map_values(|id: AsyncDependenciesBlockIdentifier| (id, module))
            =~= Seq::empty());
    }
    assert(after.async_blocks =~= noted.imports);
    assert(after.skipped_items =~= noted.left_out);
    assert(after.skipped_connections =~= noted.not_active);
    assert(holds(after, noted));
}

/// From `trace[k]` on, a walk works off what lies above `base` on its stack, and brings what a search
/// would.
proof fn lemma_works_off(
    n: nat,
    env: WalkEnv,
    w: Surroundings,
    f: Findings,
    start: WalkState,
    trace: Seq<WalkState>,
    founds: Seq<ExtractedBlocks>,
    k: int,
    base: int,
) -> (e: int)
    requires
        is_walk(env, start, trace, founds),
        trace.last().actions.len() == 0,
        reads(env, w, trace.last()),
        0 <= k < trace.len(),
        n >= trace.len() - k,
        0 <= base <= trace[k].actions.len(),
        holds(trace[k], f),
    ensures
        k <= e < trace.len(),
        trace[e].actions == trace[k].actions.take(base),
        holds(trace[e], work_off(n, w, f, trace[k].actions.skip(base))),
    decreases trace.len() - k,
{
    let s = trace[k];
    let above = s.actions.skip(base);
    if s.actions.len() == base {
        assert(s.actions.take(base) =~= s.actions);
        assert(above =~= Seq::empty());
        k
    } else {
        assert(k < founds.len());
        let found = founds[k]@;
        assert(can_step(env, s, founds[k]@));
        let after = trace[k + 1];
        assert(after == walk_step(env, s, found));
        let rest = s.actions.drop_last();
        let top = s.actions.last();
        let m = rest.len() as int;
        let done = act(n, w, f, top);
        assert(above.last() == top);
        assert(above.drop_last() =~= rest.skip(base));
        let e = match top {
            WalkAction::ProcessBlock { block, module, queued } => {
                if visits_next(s) {
                    assert(after.visited.contains_key(block));
                    assert forall|b: DependenciesBlockIdentifier| #[trigger]
                        after.visited.contains_key(b) implies (w.targets)(b) == after.visited[b] by {
                        lemma_visited_stays(env, start, trace, founds, k + 1, b);
                    }
                    lemma_visit_notes(n, env, w, f, s, found);
                    let targets = (w.targets)(block);
                    let work = gather(
                        targets,
                        |target: BlockModule| target_actions(env, s.mask, module, target),
                    );
                    let fewer = (n - 1) as nat;
                    let noted = choose|noted: Findings|
                        {
                            &&& #[trigger] holds(after, noted)
                            &&& after.actions == rest + work
                            &&& visit_depth_first(n, w, f, block, module, queued) == go_through(
                                fewer,
                                w,
                                noted,
                                s.mask,
                                targets,
                                module,
                            )
                        };
                    lemma_work_in_source_order(fewer, env, w, noted, s.mask, targets, module);
                    assert(after.actions.skip(m) =~= work);
                    assert(after.actions.take(m) =~= rest);
                    lemma_works_off(fewer, env, w, noted, start, trace, founds, k + 1, m)
                } else {
                    assert(after.actions =~= rest);
                    assert(f.visited.contains(block));
                    assert(holds(after, done));
                    k + 1
                }
            },
            WalkAction::AddModule(module) => {
                let ordinal = w.ordinals[module];
                if f.held.contains(ordinal) || w.available.contains(ordinal) {
                    assert(after.actions =~= rest);
                    assert(holds(after, done));
                    k + 1
                } else {
                    let entered = Findings {
                        entered: f.entered.push(module),
                        held: f.held.insert(ordinal),
                        items: f.items + 1,
                        ..f
                    };
                    let leave = WalkAction::LeaveModule(module);
                    let body = WalkAction::ProcessBlock {
                        block: DependenciesBlockIdentifier::Module(module),
                        module,
                        queued: false,
                    };
                    assert(holds(after, entered));
                    assert(after.actions.skip(m) =~= seq![leave, body]);
                    assert(after.actions.take(m) =~= rest);
                    let e = lemma_works_off(n, env, w, entered, start, trace, founds, k + 1, m);
                    let behind = act(n, w, entered, body);
                    assert(seq![leave, body].drop_last() =~= seq![leave]);
                    assert(seq![leave].drop_last() =~= Seq::empty());
                    assert(work_off(n, w, entered, seq![leave, body]) == work_off(
                        n,
                        w,
                        behind,
                        seq![leave],
                    ));
                    assert(work_off(n, w, behind, seq![leave]) == act(n, w, behind, leave)) by {
                        assert(work_off(n, w, act(n, w, behind, leave), Seq::empty()) == act(
                            n,
                            w,
                            behind,
                            leave,
                        ));
                    }
                    assert(act(n, w, behind, leave) == done);
                    e
                }
            },
            WalkAction::LeaveModule(module) => {
                assert(after.actions =~= rest);
                assert(holds(after, done));
                k + 1
            },
        };
        assert(trace[e].actions == rest);
        assert(holds(trace[e], done));
        assert(rest.take(base) =~= s.actions.take(base));
        lemma_works_off(n, env, w, done, start, trace, founds, e, base)
    }
}

/// A walk that has worked its stack off has brought what a depth-first search brings that goes through the
/// targets of each block in source order, as deep as there are actions in the walk or deeper: the same
/// modules in the same order of entering and of leaving, the same `import()` blocks, the same that was
/// left out, and the same counts.
pub proof fn law_walk_is_depth_first(
    env: WalkEnv,
    w: Surroundings,
    root: DependenciesBlockIdentifier,
    module: ModuleIdentifier,
    mask: Set<u64>,
    trace: Seq<WalkState>,
    founds: Seq<ExtractedBlocks>,
    n: nat,
)
    requires
        is_walk(env, walk_start(root, module, mask), trace, founds),
        trace.last().actions.len() == 0,
        w.ordinals == env.ordinals,
        w.available == env.min_available,
        forall|block: DependenciesBlockIdentifier| #[trigger]
            trace.last().visited.contains_key(block) ==> (w.targets)(block)
                == trace.last().visited[block],
        forall|block: DependenciesBlockIdentifier| #[trigger]
            (w.imports)(block) == (if env.prepared.contains_key(block) {
                env.prepared[block]@
            } else {
                Seq::empty()
            }),
        n >= trace.len(),
    ensures
        holds(
            trace.last(),
            visit_depth_first(n, w, nothing_found(mask), root, module, true),
        ),
{
    let start = walk_start(root, module, mask);
    let f = nothing_found(mask);
    assert(start.visited.dom() =~= f.visited);
    assert(holds(trace[0], f));
    let e = lemma_works_off(n, env, w, f, start, trace, founds, 0, 0);
    let action = WalkAction::ProcessBlock { block: root, module, queued: true };
    assert(trace[0].actions.skip(0) =~= seq![action]);
    assert(seq![action].drop_last() =~= Seq::empty());
    assert(work_off(n, w, f, seq![action]) == work_off(n, w, act(n, w, f, action), Seq::empty()));
    assert(trace[e].actions.len() == 0);
    assert(e == trace.len() - 1) by {
        if e < trace.len() - 1 {
            assert(can_step(env, trace[e], founds[e]@));
        }
    }
}

/// Whether nothing of what a search has brought is lost, and what the chunk holds more are modules that were
/// entered since.
pub open spec fn found_more(w: Surroundings, f: Findings, g: Findings) -> bool {
    &&& f.entered.is_prefix_of(g.entered)
    &&& f.left.is_prefix_of(g.left)
    &&& f.imports.is_prefix_of(g.imports)
    &&& f.left_out.is_prefix_of(g.left_out)
    &&& f.not_active.is_prefix_of(g.not_active)
    &&& f.visited.subset_of(g.visited)
    &&& f.held.subset_of(g.held)
    &&& forall|ordinal: u64| #[trigger]
        g.held.contains(ordinal) && !f.held.contains(ordinal) ==> exists|p: int|
            f.entered.len() <= p < g.entered.len() && w.ordinals[#[trigger] g.entered[p]] == ordinal
}

proof fn lemma_found_more_still(w: Surroundings, f: Findings, g: Findings, h: Findings)
    requires
        found_more(w, f, g),
        found_more(w, g, h),
    ensures
        found_more(w, f, h),
{
    assert forall|ordinal: u64| #[trigger]
        h.held.contains(ordinal) && !f.held.contains(ordinal) implies exists|p: int|
        f.entered.len() <= p < h.entered.len() && w.ordinals[#[trigger] h.entered[p]] == ordinal by {
        if g.held.contains(ordinal) {
            let p = choose|p: int|
                f.entered.len() <= p < g.entered.len() && w.ordinals[#[trigger] g.entered[p]]
                    == ordinal;
            assert(h.entered[p] == g.entered[p]);
        }
    }
}

proof fn lemma_visit_finds_more(
    n: nat,
    w: Surroundings,
    f: Findings,
    block: DependenciesBlockIdentifier,
    module: ModuleIdentifier,
    queued: bool,
)
    ensures
        found_more(w, f, visit_depth_first(n, w, f, block, module, queued)),
    decreases n, 0nat,
{
    if n > 0 && !f.visited.contains(block) {
        let targets = (w.targets)(block);
        let fresh = targets.reverse().filter(
            |target: BlockModule| !f.held.contains(w.ordinals[target.0]),
        );
        let noted = Findings {
            blocks: f.blocks + 1,
            items: f.items + if queued {
                1int
            } else {
                0int
            },
            visited: f.visited.insert(block),
            imports: f.imports + (w.imports)(block).map_values(
                |id: AsyncDependenciesBlockIdentifier| (id, module),
            ),
            left_out: f.left_out + fresh.filter(
                |target: BlockModule|
                    target.1 == ConnectionState::Active(true) && w.available.contains(
                        w.ordinals[target.0],
                    ),
            ).map_values(|target: BlockModule| target.0),
            not_active: f.not_active + fresh.filter(
                |target: BlockModule| target.1 != ConnectionState::Active(true),
            ).map_values(|target: BlockModule| (target.0, target.2)),
            ..f
        };
        assert(found_more(w, f, noted));
        lemma_go_through_finds_more((n - 1) as nat, w, noted, f.held, targets, module);
        lemma_found_more_still(
            w,
            f,
            noted,
            go_through((n - 1) as nat, w, noted, f.held, targets, module),
        );
    }
}

proof fn lemma_go_through_finds_more(
    n: nat,
    w: Surroundings,
    f: Findings,
    held: Set<u64>,
    targets: Seq<BlockModule>,
    module: ModuleIdentifier,
)
    ensures
        found_more(w, f, go_through(n, w, f, held, targets, module)),
    decreases n, targets.len() + 2,
{
    if targets.len() > 0 {
        let target = targets.first();
        let after = go_through(n, w, f, held, seq![target], module);
        lemma_first_target(n, w, f, held, targets, module);
        lemma_enter_finds_more(n, w, f, target.0);
        lemma_visit_finds_more(
            n,
            w,
            f,
            DependenciesBlockIdentifier::Module(target.0),
            module,
            true,
        );
        lemma_go_through_finds_more(n, w, after, held, targets.drop_first(), module);
        lemma_found_more_still(
            w,
            f,
            after,
            go_through(n, w, after, held, targets.drop_first(), module),
        );
    }
}

/// Going through one target, and then through the others.
proof fn lemma_first_target(
    n: nat,
    w: Surroundings,
    f: Findings,
    held: Set<u64>,
    targets: Seq<BlockModule>,
    module: ModuleIdentifier,
)
    requires
        targets.len() > 0,
    ensures
        go_through(n, w, f, held, targets, module) == go_through(
            n,
            w,
            go_through(n, w, f, held, seq![targets.first()], module),
            held,
            targets.drop_first(),
            module,
        ),
        ({
            let target = targets.first();
            go_through(n, w, f, held, seq![target], module) == if held.contains(
                w.ordinals[target.0],
            ) {
                f
            } else {
                match target.1 {
                    ConnectionState::Active(true) => if w.available.contains(w.ordinals[target.0]) {
                        f
                    } else {
                        enter_depth_first(n, w, f, target.0)
                    },
                    ConnectionState::Active(false) => f,
                    _ => visit_depth_first(
                        n,
                        w,
                        f,
                        DependenciesBlockIdentifier::Module(target.0),
                        module,
                        true,
                    ),
                }
            }
        }),
{
    let one = seq![targets.first()];
    assert(one.drop_first() =~= Seq::empty());
    assert(one.first() == targets.first());
    reveal_with_fuel(go_through, 2);
}

proof fn lemma_enter_finds_more(
    n: nat,
    w: Surroundings,
    f: Findings,
    module: ModuleIdentifier,
)
    ensures
        found_more(w, f, enter_depth_first(n, w, f, module)),
    decreases n, 1nat,
{
    let ordinal = w.ordinals[module];
    if !f.held.contains(ordinal) && !w.available.contains(ordinal) {
        let entered = Findings {
            entered: f.entered.push(module),
            held: f.held.insert(ordinal),
            items: f.items + 1,
            ..f
        };
        assert(entered.entered[f.entered.len() as int] == module);
        assert(found_more(w, f, entered));
        let body = DependenciesBlockIdentifier::Module(module);
        lemma_visit_finds_more(n, w, entered, body, module, false);
        let behind = visit_depth_first(n, w, entered, body, module, false);
        lemma_found_more_still(w, f, entered, behind);
        assert(found_more(w, behind, enter_depth_first(n, w, f, module)));
        lemma_found_more_still(w, f, behind, enter_depth_first(n, w, f, module));
    }
}

/// Targets are gone through in source order: first those before any place, with all that lies behind them,
/// and then those from there on.
pub proof fn law_earlier_targets_come_first(
    n: nat,
    w: Surroundings,
    f: Findings,
    held: Set<u64>,
    targets: Seq<BlockModule>,
    module: ModuleIdentifier,
    i: int,
)
    requires
        0 <= i <= targets.len(),
    ensures
        ({
            let before = go_through(n, w, f, held, targets.take(i), module);
            let all = go_through(n, w, f, held, targets, module);
            &&& all == go_through(n, w, before, held, targets.skip(i), module)
            &&& found_more(w, f, before)
            &&& found_more(w, before, all)
        }),
    decreases i,
{
    let before = go_through(n, w, f, held, targets.take(i), module);
    lemma_go_through_finds_more(n, w, f, held, targets.take(i), module);
    lemma_go_through_finds_more(n, w, before, held, targets.skip(i), module);
    if i == 0 {
        assert(targets.take(0) =~= Seq::empty());
        assert(targets.skip(0) =~= targets);
    } else {
        let after = go_through(n, w, f, held, seq![targets.first()], module);
        let later = targets.drop_first();
        lemma_first_target(n, w, f, held, targets, module);
        lemma_first_target(n, w, f, held, targets.take(i), module);
        assert(targets.take(i).drop_first() =~= later.take(i - 1));
        assert(targets.skip(i) =~= later.skip(i - 1));
        law_earlier_targets_come_first(n, w, after, held, later, module, i - 1);
    }
}

/// Of two active targets of one block that are neither held nor available when the block is come to, the
/// one that comes first in the source is in the chunk before the other one has its turn: where it was not
/// there when the targets were begun, it was entered meanwhile. The other one is entered next, unless it
/// is in the chunk by then.
pub proof fn law_siblings_enter_in_source_order(
    n: nat,
    w: Surroundings,
    f: Findings,
    held: Set<u64>,
    targets: Seq<BlockModule>,
    module: ModuleIdentifier,
    i: int,
    j: int,
)
    requires
        0 <= i < j < targets.len(),
        targets[i].1 == ConnectionState::Active(true),
        targets[j].1 == ConnectionState::Active(true),
        !held.contains(w.ordinals[targets[i].0]),
        !held.contains(w.ordinals[targets[j].0]),
        !w.available.contains(w.ordinals[targets[i].0]),
        !w.available.contains(w.ordinals[targets[j].0]),
    ensures
        ({
            let before = go_through(n, w, f, held, targets.take(j), module);
            let all = go_through(n, w, f, held, targets, module);
            &&& before.held.contains(w.ordinals[targets[i].0])
            &&& !f.held.contains(w.ordinals[targets[i].0]) ==> exists|p: int|
                f.entered.len() <= p < before.entered.len() && w.ordinals[#[trigger] before.entered[p]]
                    == w.ordinals[targets[i].0]
            &&& before.entered.is_prefix_of(all.entered)
            &&& !before.held.contains(w.ordinals[targets[j].0]) ==> before.entered.len()
                < all.entered.len() && all.entered[before.entered.len() as int] == targets[j].0
        }),
{
    let earlier = targets.take(j);
    let before = go_through(n, w, f, held, earlier, module);
    law_earlier_targets_come_first(n, w, f, held, targets, module, j);
    law_earlier_targets_come_first(n, w, f, held, earlier, module, i);
    let begun = go_through(n, w, f, held, earlier.take(i), module);
    let rest = earlier.skip(i);
    assert(rest.first() == targets[i]);
    lemma_first_target(n, w, begun, held, rest, module);
    let entered = go_through(n, w, begun, held, seq![targets[i]], module);
    lemma_entering_holds(n, w, begun, targets[i].0);
    lemma_go_through_finds_more(n, w, entered, held, rest.drop_first(), module);
    let others = targets.skip(j);
    assert(others.first() == targets[j]);
    lemma_first_target(n, w, before, held, others, module);
    let next = go_through(n, w, before, held, seq![targets[j]], module);
    lemma_entering_holds(n, w, before, targets[j].0);
    lemma_go_through_finds_more(n, w, next, held, others.drop_first(), module);
}

/// A module that is entered is in the chunk, and is the next one where it was not.
proof fn lemma_entering_holds(n: nat, w: Surroundings, f: Findings, module: ModuleIdentifier)
    requires
        !w.available.contains(w.ordinals[module]),
    ensures
        ({
            let after = enter_depth_first(n, w, f, module);
            &&& after.held.contains(w.ordinals[module])
            &&& !f.held.contains(w.ordinals[module]) ==> f.entered.len() < after.entered.len()
                && after.entered[f.entered.len() as int] == module
        }),
{
    let ordinal = w.ordinals[module];
    if !f.held.contains(ordinal) {
        let entered = Findings {
            entered: f.entered.push(module),
            held: f.held.insert(ordinal),
            items: f.items + 1,
            ..f
        };
        let body = DependenciesBlockIdentifier::Module(module);
        lemma_visit_finds_more(n, w, entered, body, module, false);
        assert(entered.entered[f.entered.len() as int] == module);
    }
}

/// Whether what an extraction for a block has brought is true: every list of targets is the one that its
/// block has, and where the block has targets they are among what was brought.
pub open spec fn brought_true(
    found: Seq<(DependenciesBlockIdentifier, Arc<BlockModules>)>,
    block: DependenciesBlockIdentifier,
    truth: spec_fn(DependenciesBlockIdentifier) -> Seq<BlockModule>,
) -> bool {
    &&& forall|i: int|
        0 <= i < found.len() ==> (#[trigger] found[i]).1@ == truth(found[i].0)
    &&& truth(block).len() > 0 ==> exists|i: int|
        0 <= i < found.len() && (#[trigger] found[i]).0 == block
}

/// Whether all that a walk can learn of the targets of blocks is true: what was extracted before, and what
/// an extraction brings.
pub open spec fn truthful<F: Fn(DependenciesBlockIdentifier) -> ExtractedBlocks>(
    inputs: WalkInputs<'_>,
    extract: &F,
    truth: spec_fn(DependenciesBlockIdentifier) -> Seq<BlockModule>,
) -> bool {
    &&& inputs.shared_block_modules matches Some(shared) ==> forall|
        block: DependenciesBlockIdentifier,
    | #[trigger]
        shared@.contains_key(block) ==> shared@[block]@ == truth(block)
    &&& forall|block: DependenciesBlockIdentifier, found: ExtractedBlocks| #[trigger]
        call_ensures(extract, (block,), found) ==> brought_true(found@, block, truth)
}

/// What is inserted that is true leaves a true cache true.
proof fn lemma_insert_all_true(
    cache: Map<DependenciesBlockIdentifier, Arc<BlockModules>>,
    found: Seq<(DependenciesBlockIdentifier, Arc<BlockModules>)>,
    truth: spec_fn(DependenciesBlockIdentifier) -> Seq<BlockModule>,
)
    requires
        forall|block: DependenciesBlockIdentifier| #[trigger]
            cache.contains_key(block) ==> cache[block]@ == truth(block),
        forall|i: int| 0 <= i < found.len() ==> (#[trigger] found[i]).1@ == truth(found[i].0),
    ensures
        forall|block: DependenciesBlockIdentifier| #[trigger]
            insert_all(cache, found).contains_key(block) ==> insert_all(cache, found)[block]@
                == truth(block),
        forall|block: DependenciesBlockIdentifier| #[trigger]
            cache.contains_key(block) ==> insert_all(cache, found).contains_key(block),
        forall|i: int|
            0 <= i < found.len() ==> insert_all(cache, found).contains_key(
                (#[trigger] found[i]).0,
            ),
    decreases found.len(),
{
    if found.len() > 0 {
        let before = found.drop_last();
        assert forall|i: int| 0 <= i < before.len() implies (#[trigger] before[i]).1@ == truth(
            before[i].0,
        ) by {
            assert(before[i] == found[i]);
        }
        lemma_insert_all_true(cache, before, truth);
        assert(found[found.len() - 1] == found.last());
        assert forall|block: DependenciesBlockIdentifier| #[trigger]
            insert_all(cache, found).contains_key(block) implies insert_all(cache, found)[block]@
            == truth(block) by {
            if block != found.last().0 {
                assert(insert_all(cache, before).contains_key(block));
            }
        }
        assert forall|i: int| 0 <= i < found.len() implies insert_all(cache, found).contains_key(
            (#[trigger] found[i]).0,
        ) by {
            if i < before.len() {
                assert(before[i] == found[i]);
            }
        }
    }
}

/// A walk that only learns the truth reads it.
proof fn lemma_reads_the_truth<F: Fn(DependenciesBlockIdentifier) -> ExtractedBlocks>(
    inputs: WalkInputs<'_>,
    available: Set<u64>,
    extract: &F,
    truth: spec_fn(DependenciesBlockIdentifier) -> Seq<BlockModule>,
    start: WalkState,
    trace: Seq<WalkState>,
    founds: Seq<ExtractedBlocks>,
    k: int,
)
    requires
        truthful(inputs, extract, truth),
        is_walk(walk_env(inputs, available), start, trace, founds),
        asks(extract, walk_env(inputs, available), trace, founds),
        start.cache == Map::<DependenciesBlockIdentifier, Arc<BlockModules>>::empty(),
        start.visited == Map::<DependenciesBlockIdentifier, Seq<BlockModule>>::empty(),
        0 <= k < trace.len(),
    ensures
        forall|block: DependenciesBlockIdentifier| #[trigger]
            trace[k].cache.contains_key(block) ==> trace[k].cache[block]@ == truth(block),
        forall|block: DependenciesBlockIdentifier| #[trigger]
            trace[k].visited.contains_key(block) ==> trace[k].visited[block] == truth(block),
        forall|block: DependenciesBlockIdentifier| #[trigger]
            trace[k].visited.contains_key(block) ==> knows(inputs, trace[k].cache, truth, block),
    decreases k,
{
    if k > 0 {
        let env = walk_env(inputs, available);
        lemma_reads_the_truth(inputs, available, extract, truth, start, trace, founds, k - 1);
        let s = trace[k - 1];
        let found = founds[k - 1];
        assert(can_step(env, s, found@));
        assert(trace[k] == walk_step(env, s, found@));
        if extracts_next(env, s) {
            assert(call_ensures(extract, (next_block(s),), found));
            lemma_insert_all_true(s.cache, found@, truth);
        }
        if visits_next(s) {
            let block = next_block(s);
            if truth(block).len() == 0 {
                assert(truth(block) =~= Seq::empty());
            }
            assert forall|b: DependenciesBlockIdentifier| #[trigger]
                trace[k].visited.contains_key(b) implies knows(
                inputs,
                trace[k].cache,
                truth,
                b,
            ) by {
                if b != block {
                    assert(s.visited.contains_key(b));
                }
            }
        }
    }
}

/// Whether the targets of a block are known by now, where it has any.
pub open spec fn knows(
    inputs: WalkInputs<'_>,
    cache: Map<DependenciesBlockIdentifier, Arc<BlockModules>>,
    truth: spec_fn(DependenciesBlockIdentifier) -> Seq<BlockModule>,
    block: DependenciesBlockIdentifier,
) -> bool {
    ||| truth(block).len() == 0
    ||| cache.contains_key(block)
    ||| inputs.shared_block_modules matches Some(shared) && shared@.contains_key(block)
}

/// What a search goes by that is to bring what walking a job brings.
pub open spec fn surroundings(
    job: ParallelWalkJob,
    inputs: WalkInputs<'_>,
    truth: spec_fn(DependenciesBlockIdentifier) -> Seq<BlockModule>,
) -> Surroundings {
    Surroundings {
        ordinals: inputs.ordinal_by_module@,
        available: job.min_available_modules@,
        targets: truth,
        imports: |block: DependenciesBlockIdentifier|
            if inputs.prepared_blocks_map@.contains_key(block) {
                inputs.prepared_blocks_map@[block]@
            } else {
                Seq::empty()
            },
    }
}

/// What a depth-first search from the root of a job brings, as deep as `n` blocks.
pub open spec fn search_from_root(
    n: nat,
    job: ParallelWalkJob,
    inputs: WalkInputs<'_>,
    truth: spec_fn(DependenciesBlockIdentifier) -> Seq<BlockModule>,
) -> Findings {
    visit_depth_first(
        n,
        surroundings(job, inputs, truth),
        nothing_found(job.chunk_mask@),
        job.root.block,
        job.root.module,
        true,
    )
}

/// Whether the result of a walk is what a search has brought.
pub open spec fn result_is(result: ParallelWalkResult, f: Findings) -> bool {
    &&& result.modules@ == f.entered
    &&& result.post_order_modules@ == f.left
    &&& result.resulting_chunk_mask@ == f.held
    &&& result.async_blocks@ == f.imports
    &&& result.skipped_items@ == f.left_out
    &&& result.skipped_connections@ == f.not_active
    &&& result.processed_blocks as int == f.blocks % 0x1_0000_0000
    &&& result.processed_queue_items as int == f.items % 0x1_0000_0000
}

/// Whether a search from the root of a job, as deep as `enough` blocks or deeper, brings the result of a
/// walk. Every target of a block that it visits has an ordinal, and the targets of every such block are
/// known once the walk has ended.
pub open spec fn agrees_from(
    enough: nat,
    job: ParallelWalkJob,
    inputs: WalkInputs<'_>,
    result: ParallelWalkResult,
    truth: spec_fn(DependenciesBlockIdentifier) -> Seq<BlockModule>,
) -> bool {
    forall|n: nat|
        n >= enough ==> {
            let f = #[trigger] search_from_root(n, job, inputs, truth);
            &&& result_is(result, f)
            &&& forall|block: DependenciesBlockIdentifier, i: int|
                f.visited.contains(block) && 0 <= i < truth(block).len()
                    ==> inputs.ordinal_by_module@.contains_key((#[trigger] truth(block)[i]).0)
            &&& forall|block: DependenciesBlockIdentifier| #[trigger]
                f.visited.contains(block) ==> knows(
                    inputs,
                    result.block_modules_cache@,
                    truth,
                    block,
                )
        }
}

/// Walking a job brings what a depth-first search from its root brings that goes through the targets of
/// each block in source order, where all that the walk learns of the targets is true. Every target of a
/// block that was visited has an ordinal. What was extracted on the way is true, and with what was known
/// before it has the targets of every block that was visited. The candidates for a global order are those
/// of the modules, in their order, that the graph does not know or that have no place in that order.
pub proof fn law_walk_root_is_depth_first<
    F: Fn(DependenciesBlockIdentifier) -> ExtractedBlocks,
>(
    job: ParallelWalkJob,
    graph: Map<ModuleIdentifier, ModuleGraphModule>,
    inputs: WalkInputs<'_>,
    extract: &F,
    result: ParallelWalkResult,
    truth: spec_fn(DependenciesBlockIdentifier) -> Seq<BlockModule>,
)
    requires
        walk_outcome(job, graph, inputs, extract, Ok(result)),
        truthful(inputs, extract, truth),
    ensures
        exists|enough: nat| #[trigger] agrees_from(enough, job, inputs, result, truth),
        forall|block: DependenciesBlockIdentifier| #[trigger]
            result.block_modules_cache@.contains_key(block) ==> result.block_modules_cache@[block]@
                == truth(block),
        result.job == job,
        result.global_pre_order_candidates@ == result.modules@.filter(
            |module: ModuleIdentifier|
                !graph.contains_key(module) || graph[module].pre_order_index is None,
        ),
        result.global_post_order_candidates@ == result.post_order_modules@.filter(
            |module: ModuleIdentifier|
                !graph.contains_key(module) || graph[module].post_order_index is None,
        ),
{
    let env = walk_env(inputs, job.min_available_modules@);
    let start = walk_start(job.root.block, job.root.module, job.chunk_mask@);
    let w = surroundings(job, inputs, truth);
    let (trace, founds) = choose|trace: Seq<WalkState>, founds: Seq<ExtractedBlocks>|
        {
            &&& #[trigger] is_walk(env, start, trace, founds)
            &&& asks(extract, env, trace, founds)
            &&& trace.last().actions.len() == 0
            &&& result.reports(trace.last())
        };
    let s = trace.last();
    lemma_reads_the_truth(
        inputs,
        job.min_available_modules@,
        extract,
        truth,
        start,
        trace,
        founds,
        trace.len() - 1,
    );
    law_finished_walk(env, job.root.block, job.root.module, job.chunk_mask@, trace, founds);
    let enough = trace.len();
    assert forall|n: nat| n >= enough implies {
        let f = #[trigger] search_from_root(n, job, inputs, truth);
        &&& result_is(result, f)
        &&& forall|block: DependenciesBlockIdentifier, i: int|
            f.visited.contains(block) && 0 <= i < truth(block).len()
                ==> inputs.ordinal_by_module@.contains_key((#[trigger] truth(block)[i]).0)
        &&& forall|block: DependenciesBlockIdentifier| #[trigger]
            f.visited.contains(block) ==> knows(inputs, result.block_modules_cache@, truth, block)
    } by {
        law_walk_is_depth_first(
            env,
            w,
            job.root.block,
            job.root.module,
            job.chunk_mask@,
            trace,
            founds,
            n,
        );
        let f = search_from_root(n, job, inputs, truth);
        assert(holds(s, f));
        assert forall|block: DependenciesBlockIdentifier, i: int|
            f.visited.contains(block) && 0 <= i < truth(block).len()
            implies inputs.ordinal_by_module@.contains_key((#[trigger] truth(block)[i]).0) by {
            assert(s.visited.contains_key(block));
            assert(target_done(env, s, s.visited[block][i]));
        }
        assert forall|block: DependenciesBlockIdentifier| #[trigger]
            f.visited.contains(block) implies knows(
            inputs,
            result.block_modules_cache@,
            truth,
            block,
        ) by {
            assert(s.visited.contains_key(block));
        }
    }
    assert(agrees_from(enough, job, inputs, result, truth));
    assert((|module: ModuleIdentifier| lacks_place(graph, TraversalOrder::Pre, module)) =~= (|
        module: ModuleIdentifier,
    | !graph.contains_key(module) || graph[module].pre_order_index is None));
    assert((|module: ModuleIdentifier| lacks_place(graph, TraversalOrder::Post, module)) =~= (|
        module: ModuleIdentifier,
    | !graph.contains_key(module) || graph[module].post_order_index is None));
}

/// Where walking a job fails, it is for a target of some block that has no ordinal, whatever its
/// connections, and that comes last in the source among those of the block.
pub proof fn law_walk_root_fails_for_a_missing_ordinal<
    F: Fn(DependenciesBlockIdentifier) -> ExtractedBlocks,
>(
    job: ParallelWalkJob,
    graph: Map<ModuleIdentifier, ModuleGraphModule>,
    inputs: WalkInputs<'_>,
    extract: &F,
    missing: ModuleIdentifier,
    truth: spec_fn(DependenciesBlockIdentifier) -> Seq<BlockModule>,
)
    requires
        walk_outcome(job, graph, inputs, extract, Err(missing)),
        truthful(inputs, extract, truth),
    ensures
        !inputs.ordinal_by_module@.contains_key(missing),
        exists|block: DependenciesBlockIdentifier, i: int|
            {
                &&& 0 <= i < truth(block).len()
                &&& (#[trigger] truth(block)[i]).0 == missing
                &&& forall|j: int|
                    i < j < truth(block).len() ==> inputs.ordinal_by_module@.contains_key(
                        (#[trigger] truth(block)[j]).0,
                    )
            },
{
    let env = walk_env(inputs, job.min_available_modules@);
    let start = walk_start(job.root.block, job.root.module, job.chunk_mask@);
    let (trace, founds) = choose|trace: Seq<WalkState>, founds: Seq<ExtractedBlocks>|
        {
            &&& #[trigger] is_walk(env, start, trace, founds)
            &&& asks(extract, env, trace, founds)
            &&& stuck(extract, env, trace.last(), missing)
        };
    let s = trace.last();
    let block = next_block(s);
    lemma_reads_the_truth(
        inputs,
        job.min_available_modules@,
        extract,
        truth,
        start,
        trace,
        founds,
        trace.len() - 1,
    );
    let found = choose|found: ExtractedBlocks|
        {
            &&& extracts_next(env, s) ==> call_ensures(extract, (block,), found)
            &&& first_without_ordinal(
                env,
                #[trigger] modules_of(env.shared, s.cache, block, found@),
                missing,
            )
        };
    let targets = modules_of(env.shared, s.cache, block, found@);
    if extracts_next(env, s) {
        lemma_insert_all_true(s.cache, found@, truth);
    }
    if truth(block).len() == 0 {
        assert(truth(block) =~= Seq::empty());
    }
    assert(targets == truth(block));
    let i = choose|i: int|
        #![trigger targets[i]]
        0 <= i < targets.len() && targets[i].0 == missing && all_have_ordinals(
            env,
            targets.skip(i + 1),
        );
    assert(truth(block)[i].0 == missing);
    assert forall|j: int| i < j < truth(block).len() implies inputs.ordinal_by_module@.contains_key(
        (#[trigger] truth(block)[j]).0,
    ) by {
        assert(targets.skip(i + 1)[j - i - 1] == targets[j]);
    }
}

/// Where the targets of a root are all active, neither held nor available, different from each other, and
/// have no targets of their own, they are entered, and left, in source order.
pub proof fn law_leaves_come_in_source_order<
    F: Fn(DependenciesBlockIdentifier) -> ExtractedBlocks,
>(
    job: ParallelWalkJob,
    graph: Map<ModuleIdentifier, ModuleGraphModule>,
    inputs: WalkInputs<'_>,
    extract: &F,
    result: ParallelWalkResult,
    truth: spec_fn(DependenciesBlockIdentifier) -> Seq<BlockModule>,
)
    requires
        walk_outcome(job, graph, inputs, extract, Ok(result)),
        truthful(inputs, extract, truth),
        forall|i: int|
            0 <= i < truth(job.root.block).len() ==> {
                let target = #[trigger] truth(job.root.block)[i];
                let ordinal = inputs.ordinal_by_module@[target.0];
                &&& target.1 == ConnectionState::Active(true)
                &&& !job.chunk_mask@.contains(ordinal)
                &&& !job.min_available_modules@.contains(ordinal)
                &&& truth(DependenciesBlockIdentifier::Module(target.0)).len() == 0
            },
        forall|i: int, j: int|
            0 <= i < j < truth(job.root.block).len() ==> inputs.ordinal_by_module@[(
            #[trigger] truth(job.root.block)[i]).0] != inputs.ordinal_by_module@[(
            #[trigger] truth(job.root.block)[j]).0],
    ensures
        result.modules@ == truth(job.root.block).map_values(|target: BlockModule| target.0),
        result.post_order_modules@ == truth(job.root.block).map_values(
            |target: BlockModule| target.0,
        ),
{
    law_walk_root_is_depth_first(job, graph, inputs, extract, result, truth);
    let enough = choose|enough: nat| #[trigger] agrees_from(enough, job, inputs, result, truth);
    let n = enough + 1;
    let f = search_from_root(n, job, inputs, truth);
    assert(result_is(result, f));
    let w = surroundings(job, inputs, truth);
    let targets = truth(job.root.block);
    let start = nothing_found(job.chunk_mask@);
    let fresh = targets.reverse().filter(
        |target: BlockModule| !start.held.contains(w.ordinals[target.0]),
    );
    let noted = Findings {
        blocks: 1,
        items: 1,
        visited: start.visited.insert(job.root.block),
        imports: start.imports + (w.imports)(job.root.block).map_values(
            |id: AsyncDependenciesBlockIdentifier| (id, job.root.module),
        ),
        left_out: start.left_out + fresh.filter(
            |target: BlockModule|
                target.1 == ConnectionState::Active(true) && w.available.contains(
                    w.ordinals[target.0],
                ),
        ).map_values(|target: BlockModule| target.0),
        not_active: start.not_active + fresh.filter(
            |target: BlockModule| target.1 != ConnectionState::Active(true),
        ).map_values(|target: BlockModule| (target.0, target.2)),
        ..start
    };
    assert(f == go_through(enough, w, noted, start.held, targets, job.root.module));
    lemma_go_through_leaves(enough, w, noted, start.held, targets, job.root.module);
    assert(targets.map_values(|target: BlockModule| target.0) =~= noted.entered
        + targets.map_values(|target: BlockModule| target.0));
}

proof fn lemma_go_through_leaves(
    n: nat,
    w: Surroundings,
    f: Findings,
    held: Set<u64>,
    targets: Seq<BlockModule>,
    module: ModuleIdentifier,
)
    requires
        forall|i: int|
            0 <= i < targets.len() ==> {
                let target = #[trigger] targets[i];
                &&& target.1 == ConnectionState::Active(true)
                &&& !held.contains(w.ordinals[target.0])
                &&& !f.held.contains(w.ordinals[target.0])
                &&& !w.available.contains(w.ordinals[target.0])
                &&& (w.targets)(DependenciesBlockIdentifier::Module(target.0)).len() == 0
            },
        forall|i: int, j: int|
            0 <= i < j < targets.len() ==> w.ordinals[(#[trigger] targets[i]).0] != w.ordinals[(
            #[trigger] targets[j]).0],
    ensures
        go_through(n, w, f, held, targets, module).entered == f.entered + targets.map_values(
            |target: BlockModule| target.0,
        ),
        go_through(n, w, f, held, targets, module).left == f.left + targets.map_values(
            |target: BlockModule| target.0,
        ),
    decreases targets.len(),
{
    let name = |target: BlockModule| target.0;
    if targets.len() == 0 {
        assert(f.entered + targets.map_values(name) =~= f.entered);
        assert(f.left + targets.map_values(name) =~= f.left);
    } else {
        let target = targets[0];
        let later = targets.drop_first();
        let after = go_through(n, w, f, held, seq![target], module);
        lemma_first_target(n, w, f, held, targets, module);
        lemma_enter_leaf(n, w, f, target.0);
        assert forall|i: int| 0 <= i < later.len() implies {
            let target = #[trigger] later[i];
            &&& target.1 == ConnectionState::Active(true)
            &&& !held.contains(w.ordinals[target.0])
            &&& !after.held.contains(w.ordinals[target.0])
            &&& !w.available.contains(w.ordinals[target.0])
            &&& (w.targets)(DependenciesBlockIdentifier::Module(target.0)).len() == 0
        } by {
            assert(later[i] == targets[i + 1]);
            assert(w.ordinals[targets[0].0] != w.ordinals[targets[i + 1].0]);
        }
        assert forall|i: int, j: int| 0 <= i < j < later.len() implies w.ordinals[(
        #[trigger] later[i]).0] != w.ordinals[(#[trigger] later[j]).0] by {
            assert(later[i] == targets[i + 1]);
            assert(later[j] == targets[j + 1]);
        }
        lemma_go_through_leaves(n, w, after, held, later, module);
        assert(f.entered + targets.map_values(name) =~= f.entered.push(target.0)
            + later.map_values(name));
        assert(f.left + targets.map_values(name) =~= f.left.push(target.0) + later.map_values(name));
    }
}

/// A module without targets is entered and left at once.
proof fn lemma_enter_leaf(n: nat, w: Surroundings, f: Findings, module: ModuleIdentifier)
    requires
        !f.held.contains(w.ordinals[module]),
        !w.available.contains(w.ordinals[module]),
        (w.targets)(DependenciesBlockIdentifier::Module(module)).len() == 0,
    ensures
        ({
            let after = enter_depth_first(n, w, f, module);
            &&& after.entered == f.entered.push(module)
            &&& after.left == f.left.push(module)
            &&& after.held == f.held.insert(w.ordinals[module])
        }),
{
    reveal_with_fuel(visit_depth_first, 2);
    reveal_with_fuel(go_through, 2);
}

} // verus!
