use vstd::prelude::*;

use crate::graph::CgiUkey;
use crate::queue::{ProcessBlock, QueueAction};
use crate::schedule::{
    DelayedQueue, DelayedStep, PlannedStep, as_actions, batch_before, batch_keys, batch_steps,
    full_batch, key_of, known_action, known_up_to_batch, known_up_to_step, lemma_full_batch_grows,
    parallel_action, parallel_root, plan, side_by_side, step_actions, step_taken, worth_a_batch,
};
use crate::splitter::{ChunkGroupInfo, CodeSplitter};

verus! {

/// The actions that steps process, in order.
pub open spec fn all_actions(steps: Seq<PlannedStep>) -> Seq<QueueAction>
    decreases steps.len(),
{
    if steps.len() == 0 {
        Seq::empty()
    } else {
        step_actions(steps.first()) + all_actions(steps.drop_first())
    }
}

proof fn lemma_all_actions_add(a: Seq<PlannedStep>, b: Seq<PlannedStep>)
    ensures
        all_actions(a + b) == all_actions(a) + all_actions(b),
    decreases a.len(),
{
    if a.len() == 0 {
        assert(a + b =~= b);
        assert(all_actions(a) + all_actions(b) =~= all_actions(b));
    } else {
        lemma_all_actions_add(a.drop_first(), b);
        assert((a + b).drop_first() =~= a.drop_first() + b);
        assert(all_actions(a + b) =~= all_actions(a) + all_actions(b));
    }
}

proof fn lemma_all_actions_of_batch(batch: Seq<ProcessBlock>)
    ensures
        all_actions(batch_steps(batch)) == as_actions(batch),
{
    let steps = batch_steps(batch);
    if batch.len() == 0 {
        assert(as_actions(batch) =~= Seq::empty());
    } else {
        assert(steps.drop_first() =~= Seq::empty());
        assert(all_actions(steps.drop_first()) =~= Seq::empty());
        if batch.len() == 1 {
            assert(as_actions(batch) =~= seq![QueueAction::ProcessBlock(batch[0])]);
        }
        assert(all_actions(steps) =~= as_actions(batch));
    }
}

/// Every action is processed once and in its place: the steps, laid end to end, are the batch that
/// was begun and the actions after it.
pub proof fn law_plan_keeps_order(
    infos: Map<CgiUkey, ChunkGroupInfo>,
    batch: Seq<ProcessBlock>,
    actions: Seq<QueueAction>,
)
    ensures
        all_actions(plan(infos, batch, actions)) == as_actions(batch) + actions,
    decreases actions.len(),
{
    lemma_all_actions_of_batch(batch);
    if actions.len() == 0 {
        assert(as_actions(batch) + actions =~= as_actions(batch));
    } else {
        let action = actions.first();
        let later = actions.drop_first();
        assert(actions =~= seq![action] + later);
        if !parallel_action(infos, action) {
            let alone = seq![PlannedStep::Serial(action)];
            let none = Seq::<ProcessBlock>::empty();
            law_plan_keeps_order(infos, none, later);
            assert(as_actions(none) =~= Seq::empty());
            assert(alone.drop_first() =~= Seq::empty());
            assert(all_actions(alone.drop_first()) =~= Seq::empty());
            assert(all_actions(alone) =~= seq![action]);
            lemma_all_actions_add(batch_steps(batch), alone);
            lemma_all_actions_add(batch_steps(batch) + alone, plan(infos, none, later));
            assert(all_actions(plan(infos, batch, actions)) =~= as_actions(batch) + actions);
        } else {
            let root = action->ProcessBlock_0;
            if batch_keys(batch).contains(key_of(root)) {
                law_plan_keeps_order(infos, seq![root], later);
                assert(as_actions(seq![root]) =~= seq![action]);
                lemma_all_actions_add(batch_steps(batch), plan(infos, seq![root], later));
                assert(all_actions(plan(infos, batch, actions)) =~= as_actions(batch) + actions);
            } else {
                law_plan_keeps_order(infos, batch.push(root), later);
                assert(as_actions(batch.push(root)) =~= as_actions(batch).push(action));
                assert(all_actions(plan(infos, batch, actions)) =~= as_actions(batch) + actions);
            }
        }
    }
}

/// Whether all the roots can be walked beside others, and no two of them have the same key.
pub open spec fn can_share_a_batch(
    infos: Map<CgiUkey, ChunkGroupInfo>,
    roots: Seq<ProcessBlock>,
) -> bool {
    &&& forall|i: int| 0 <= i < roots.len() ==> parallel_root(infos, #[trigger] roots[i])
    &&& forall|i: int, j: int|
        0 <= i < j < roots.len() ==> key_of(#[trigger] roots[i]) != key_of(#[trigger] roots[j])
}

/// Roots are only walked side by side where there are at least two of them, all of them can be walked
/// beside others, and no two fill the same chunk of the same group.
pub proof fn law_batches_can_be_shared(
    infos: Map<CgiUkey, ChunkGroupInfo>,
    batch: Seq<ProcessBlock>,
    actions: Seq<QueueAction>,
    k: int,
)
    requires
        can_share_a_batch(infos, batch),
        0 <= k < plan(infos, batch, actions).len(),
    ensures
        plan(infos, batch, actions)[k] matches PlannedStep::Parallel(roots) ==> {
            &&& roots.len() >= 2
            &&& can_share_a_batch(infos, roots)
        },
    decreases actions.len(),
{
    let steps = batch_steps(batch);
    if actions.len() > 0 {
        let action = actions.first();
        let later = actions.drop_first();
        if !parallel_action(infos, action) {
            if k > steps.len() {
                law_batches_can_be_shared(infos, Seq::empty(), later, k - steps.len() - 1);
            }
        } else {
            let root = action->ProcessBlock_0;
            if batch_keys(batch).contains(key_of(root)) {
                if k >= steps.len() {
                    law_batches_can_be_shared(infos, seq![root], later, k - steps.len());
                }
            } else {
                assert forall|i: int| 0 <= i < batch.len() implies key_of(#[trigger] batch[i])
                    != key_of(root) by {
                    lemma_key_in_batch(batch, i);
                }
                law_batches_can_be_shared(infos, batch.push(root), later, k);
            }
        }
    }
}

proof fn lemma_key_in_batch(batch: Seq<ProcessBlock>, i: int)
    requires
        0 <= i < batch.len(),
    ensures
        batch_keys(batch).contains(key_of(batch[i])),
{
    let keys = batch.map_values(|root: ProcessBlock| key_of(root));
    assert(keys[i] == key_of(batch[i]));
    assert(keys.contains(keys[i]));
}

/// Whether a step walks roots side by side.
pub open spec fn has_parallel_step(steps: Seq<PlannedStep>) -> bool {
    exists|k: int| 0 <= k < steps.len() && (#[trigger] steps[k]) is Parallel
}

proof fn lemma_parallel_step_add(a: Seq<PlannedStep>, b: Seq<PlannedStep>)
    ensures
        has_parallel_step(a + b) == (has_parallel_step(a) || has_parallel_step(b)),
{
    if has_parallel_step(a) {
        let k = choose|k: int| 0 <= k < a.len() && (#[trigger] a[k]) is Parallel;
        assert((a + b)[k] == a[k]);
    }
    if has_parallel_step(b) {
        let k = choose|k: int| 0 <= k < b.len() && (#[trigger] b[k]) is Parallel;
        assert((a + b)[a.len() + k] == b[k]);
    }
    if has_parallel_step(a + b) {
        let k = choose|k: int| 0 <= k < (a + b).len() && (#[trigger] (a + b)[k]) is Parallel;
        if k < a.len() {
            assert(a[k] == (a + b)[k]);
        } else {
            assert(b[k - a.len()] == (a + b)[k]);
        }
    }
}

/// A batch that has two roots already leads to a parallel step.
proof fn lemma_two_roots_lead_to_a_batch(
    infos: Map<CgiUkey, ChunkGroupInfo>,
    batch: Seq<ProcessBlock>,
    actions: Seq<QueueAction>,
)
    requires
        batch.len() >= 2,
    ensures
        has_parallel_step(plan(infos, batch, actions)),
    decreases actions.len(),
{
    let steps = batch_steps(batch);
    assert(steps[0] is Parallel);
    if actions.len() > 0 {
        let action = actions.first();
        let later = actions.drop_first();
        if !parallel_action(infos, action) {
            let alone = seq![PlannedStep::Serial(action)];
            lemma_parallel_step_add(steps, alone);
            lemma_parallel_step_add(steps + alone, plan(infos, Seq::empty(), later));
        } else {
            let root = action->ProcessBlock_0;
            if batch_keys(batch).contains(key_of(root)) {
                lemma_parallel_step_add(steps, plan(infos, seq![root], later));
            } else {
                lemma_two_roots_lead_to_a_batch(infos, batch.push(root), later);
            }
        }
    }
}

/// Looking for two roots in a row that can be walked side by side tells whether working the queue off
/// will walk any roots side by side.
pub proof fn law_worth_a_batch_means_a_batch(
    infos: Map<CgiUkey, ChunkGroupInfo>,
    actions: Seq<QueueAction>,
)
    ensures
        worth_a_batch(infos, actions) <==> has_parallel_step(plan(infos, Seq::empty(), actions)),
{
    lemma_worth_after_batch(infos, Seq::empty(), actions);
    assert(as_actions(Seq::empty()) + actions =~= actions);
}

proof fn lemma_worth_after_batch(
    infos: Map<CgiUkey, ChunkGroupInfo>,
    batch: Seq<ProcessBlock>,
    actions: Seq<QueueAction>,
)
    requires
        batch.len() < 2,
        batch.len() == 1 ==> parallel_root(infos, batch[0]),
    ensures
        worth_a_batch(infos, as_actions(batch) + actions) <==> has_parallel_step(
            plan(infos, batch, actions),
        ),
    decreases actions.len(),
{
    let all = as_actions(batch) + actions;
    let steps = batch_steps(batch);
    assert(!has_parallel_step(steps));
    if actions.len() > 0 {
        let action = actions.first();
        let later = actions.drop_first();
        assert(all[batch.len() as int] == action);
        if !parallel_action(infos, action) {
            let alone = seq![PlannedStep::Serial(action)];
            let none = Seq::<ProcessBlock>::empty();
            lemma_worth_after_batch(infos, none, later);
            lemma_parallel_step_add(steps, alone);
            lemma_parallel_step_add(steps + alone, plan(infos, none, later));
            assert(!has_parallel_step(alone));
            let tail = as_actions(none) + later;
            assert forall|i: int| side_by_side(infos, all, i) implies side_by_side(
                infos,
                tail,
                i - batch.len() - 1,
            ) by {
                assert(all[i + 1] == tail[i - batch.len()]);
                assert(all[i] == tail[i - batch.len() - 1]);
            }
            assert forall|i: int| side_by_side(infos, tail, i) implies side_by_side(
                infos,
                all,
                i + batch.len() + 1,
            ) by {
                assert(all[i + batch.len() + 1] == tail[i]);
                assert(all[i + batch.len() + 2] == tail[i + 1]);
            }
            if worth_a_batch(infos, all) {
                let i = choose|i: int| side_by_side(infos, all, i);
                assert(side_by_side(infos, tail, i - batch.len() - 1));
            }
            if worth_a_batch(infos, tail) {
                let i = choose|i: int| side_by_side(infos, tail, i);
                assert(side_by_side(infos, all, i + batch.len() + 1));
            }
        } else {
            let root = action->ProcessBlock_0;
            let one = seq![root];
            if batch.len() == 0 {
                assert(batch.push(root) =~= one);
                assert(as_actions(one) + later =~= all);
                assert(batch_keys(batch) =~= Set::empty());
                lemma_worth_after_batch(infos, one, later);
            } else if batch_keys(batch).contains(key_of(root)) {
                let keys = batch.map_values(|root: ProcessBlock| key_of(root));
                assert(keys.contains(key_of(root)));
                assert(key_of(batch[0]) == key_of(root));
                lemma_worth_after_batch(infos, one, later);
                lemma_parallel_step_add(steps, plan(infos, one, later));
                let tail = as_actions(one) + later;
                assert(tail =~= all.drop_first());
                assert(all[0] == QueueAction::ProcessBlock(batch[0]));
                if worth_a_batch(infos, all) {
                    let i = choose|i: int| side_by_side(infos, all, i);
                    assert(side_by_side(infos, tail, i - 1));
                }
                if worth_a_batch(infos, tail) {
                    let i = choose|i: int| side_by_side(infos, tail, i);
                    assert(side_by_side(infos, all, i + 1));
                }
            } else {
                lemma_key_in_batch(batch, 0);
                lemma_two_roots_lead_to_a_batch(infos, batch.push(root), later);
                assert(all[0] == QueueAction::ProcessBlock(batch[0]));
                assert(side_by_side(infos, all, 0));
            }
        }
    } else {
        assert forall|i: int| !side_by_side(infos, all, i) by {}
    }
}

/// The first step works off a batch that has taken up all the roots that can join it, unless there is no
/// such batch; then it processes the first action by itself.
pub proof fn law_first_step_is_a_full_batch(
    infos: Map<CgiUkey, ChunkGroupInfo>,
    batch: Seq<ProcessBlock>,
    actions: Seq<QueueAction>,
)
    requires
        batch.len() + actions.len() > 0,
    ensures
        plan(infos, batch, actions).len() > 0,
        ({
            let full = full_batch(infos, batch, actions);
            let step = plan(infos, batch, actions)[0];
            if full.len() > 0 {
                seq![step] == batch_steps(full)
            } else {
                actions.len() > 0 && !parallel_action(infos, actions[0]) && step
                    == PlannedStep::Serial(actions[0])
            }
        }),
    decreases actions.len(),
{
    let steps = batch_steps(batch);
    if batch.len() > 0 {
        assert(steps =~= seq![steps[0]]);
    }
    if actions.len() > 0 {
        let action = actions.first();
        let later = actions.drop_first();
        if parallel_action(infos, action) {
            let root = action->ProcessBlock_0;
            if !batch_keys(batch).contains(key_of(root)) {
                law_first_step_is_a_full_batch(infos, batch.push(root), later);
                lemma_full_batch_grows(infos, batch.push(root), later);
            } else {
                assert(batch.len() > 0) by {
                    if batch.len() == 0 {
                        assert(batch_keys(batch) =~= Set::empty());
                    }
                }
            }
        }
    }
}

/// Whether an action is a block whose chunk group loads chunks, and asynchronously.
pub open spec fn loads_async_chunks(
    infos: Map<CgiUkey, ChunkGroupInfo>,
    action: QueueAction,
) -> bool {
    &&& action is ProcessBlock
    &&& infos[action->ProcessBlock_0.chunk_group_info].chunk_loading
    &&& infos[action->ProcessBlock_0.chunk_group_info].async_chunks
}

/// Whether two roots fill the same chunk of the same chunk group.
pub open spec fn fill_the_same(a: ProcessBlock, b: ProcessBlock) -> bool {
    a.chunk_group_info == b.chunk_group_info && a.chunk == b.chunk
}

/// The roots of a step that walks roots side by side are at least two, the groups of all of them load
/// chunks asynchronously, and no two of them fill the same chunk of the same group, whatever their blocks
/// are. A batch that was begun may have one root in it.
pub proof fn law_parallel_roots_fill_different_chunks(
    infos: Map<CgiUkey, ChunkGroupInfo>,
    batch: Seq<ProcessBlock>,
    actions: Seq<QueueAction>,
    k: int,
    roots: Seq<ProcessBlock>,
    i: int,
    j: int,
)
    requires
        batch.len() <= 1,
        batch.len() == 1 ==> loads_async_chunks(infos, QueueAction::ProcessBlock(batch[0])),
        0 <= k < plan(infos, batch, actions).len(),
        plan(infos, batch, actions)[k] == PlannedStep::Parallel(roots),
        0 <= i < roots.len(),
        0 <= j < roots.len(),
        i != j,
    ensures
        roots.len() >= 2,
        infos[roots[i].chunk_group_info].chunk_loading,
        infos[roots[i].chunk_group_info].async_chunks,
        roots[i].chunk_group_info != roots[j].chunk_group_info || roots[i].chunk != roots[j].chunk,
{
    assert(can_share_a_batch(infos, batch));
    law_batches_can_be_shared(infos, batch, actions, k);
    assert(parallel_root(infos, roots[i]));
    if i < j {
        assert(key_of(roots[i]) != key_of(roots[j]));
    } else {
        assert(key_of(roots[j]) != key_of(roots[i]));
    }
}

/// Whether two neighbours in a queue could be walked side by side: the groups of both load chunks
/// asynchronously, and they fill different chunks or chunks of different groups.
pub open spec fn could_go_together(
    infos: Map<CgiUkey, ChunkGroupInfo>,
    actions: Seq<QueueAction>,
    i: int,
) -> bool {
    &&& 0 <= i
    &&& i + 1 < actions.len()
    &&& loads_async_chunks(infos, actions[i])
    &&& loads_async_chunks(infos, actions[i + 1])
    &&& !fill_the_same(actions[i]->ProcessBlock_0, actions[i + 1]->ProcessBlock_0)
}

/// A queue is worth a batch exactly where it has two neighbours that could be walked side by side. Where
/// all neighbours fill the same chunk of the same group, whatever their blocks are, it is not.
pub proof fn law_worth_a_batch_by_neighbours(
    infos: Map<CgiUkey, ChunkGroupInfo>,
    actions: Seq<QueueAction>,
)
    ensures
        worth_a_batch(infos, actions) <==> exists|i: int| could_go_together(infos, actions, i),
{
    assert forall|i: int| side_by_side(infos, actions, i) == #[trigger] could_go_together(
        infos,
        actions,
        i,
    ) by {}
    if worth_a_batch(infos, actions) {
        let i = choose|i: int| side_by_side(infos, actions, i);
        assert(could_go_together(infos, actions, i));
    }
    if exists|i: int| could_go_together(infos, actions, i) {
        let i = choose|i: int| could_go_together(infos, actions, i);
        assert(side_by_side(infos, actions, i));
    }
}

/// The roots of a step that could be walked beside others.
pub open spec fn async_roots_of(
    infos: Map<CgiUkey, ChunkGroupInfo>,
    step: PlannedStep,
) -> Seq<ProcessBlock> {
    match step {
        PlannedStep::Serial(action) => if loads_async_chunks(infos, action) {
            seq![action->ProcessBlock_0]
        } else {
            Seq::empty()
        },
        PlannedStep::Parallel(roots) => roots,
    }
}

/// The action that a step begins with.
pub open spec fn begins_with(step: PlannedStep) -> QueueAction {
    match step {
        PlannedStep::Serial(action) => action,
        PlannedStep::Parallel(roots) => QueueAction::ProcessBlock(roots[0]),
    }
}

/// A plan for a batch that was begun begins with its first root.
proof fn lemma_begins_with_batch(
    infos: Map<CgiUkey, ChunkGroupInfo>,
    batch: Seq<ProcessBlock>,
    actions: Seq<QueueAction>,
)
    requires
        batch.len() > 0,
    ensures
        plan(infos, batch, actions).len() > 0,
        begins_with(plan(infos, batch, actions)[0]) == QueueAction::ProcessBlock(batch[0]),
    decreases actions.len(),
{
    if actions.len() > 0 && parallel_action(infos, actions.first()) && !batch_keys(batch).contains(
        key_of(actions.first()->ProcessBlock_0),
    ) {
        lemma_begins_with_batch(
            infos,
            batch.push(actions.first()->ProcessBlock_0),
            actions.drop_first(),
        );
    }
}

/// Batches are as large as they can be: where a step ends with roots that could be walked beside others,
/// and the next one begins with such a root, that root fills the same chunk of the same group as one of
/// the step before. So no root is left alone, or for another batch, that could have joined one.
pub proof fn law_batches_are_as_large_as_can_be(
    infos: Map<CgiUkey, ChunkGroupInfo>,
    batch: Seq<ProcessBlock>,
    actions: Seq<QueueAction>,
    k: int,
)
    requires
        0 <= k,
        k + 1 < plan(infos, batch, actions).len(),
    ensures
        ({
            let roots = async_roots_of(infos, plan(infos, batch, actions)[k]);
            let next = begins_with(plan(infos, batch, actions)[k + 1]);
            roots.len() > 0 && loads_async_chunks(infos, next) ==> exists|i: int|
                0 <= i < roots.len() && #[trigger] fill_the_same(
                    roots[i],
                    next->ProcessBlock_0,
                )
        }),
    decreases actions.len(),
{
    let steps = batch_steps(batch);
    let all = plan(infos, batch, actions);
    if actions.len() > 0 {
        let action = actions.first();
        let later = actions.drop_first();
        assert(loads_async_chunks(infos, action) == parallel_action(infos, action));
        if !parallel_action(infos, action) {
            let none = Seq::<ProcessBlock>::empty();
            let others = plan(infos, none, later);
            if k > steps.len() {
                assert(all[k] == others[k - steps.len() - 1]);
                assert(all[k + 1] == others[k - steps.len()]);
                law_batches_are_as_large_as_can_be(infos, none, later, k - steps.len() - 1);
            }
        } else {
            let root = action->ProcessBlock_0;
            if batch_keys(batch).contains(key_of(root)) {
                let others = plan(infos, seq![root], later);
                if k >= steps.len() {
                    assert(all[k] == others[k - steps.len()]);
                    assert(all[k + 1] == others[k - steps.len() + 1]);
                    law_batches_are_as_large_as_can_be(infos, seq![root], later, k - steps.len());
                } else {
                    lemma_begins_with_batch(infos, seq![root], later);
                    assert(all[k + 1] == others[0]);
                    let keys = batch.map_values(|root: ProcessBlock| key_of(root));
                    assert(keys.contains(key_of(root)));
                    let i = choose|i: int| 0 <= i < keys.len() && keys[i] == key_of(root);
                    assert(fill_the_same(batch[i], root));
                    let roots = async_roots_of(infos, all[k]);
                    if roots.len() > 0 {
                        assert(roots =~= batch);
                        assert(fill_the_same(roots[i], root));
                    }
                }
            } else {
                law_batches_are_as_large_as_can_be(infos, batch.push(root), later, k);
            }
        }
    }
}

/// A batch is handed out whole: nothing where it is empty, its root by itself where there is one, and
/// otherwise all of its roots, in their order, to be walked side by side.
pub proof fn law_a_batch_is_handed_out_whole(batch: Seq<ProcessBlock>)
    ensures
        batch.len() == 0 ==> batch_steps(batch).len() == 0,
        batch.len() > 0 ==> batch_steps(batch).len() == 1,
        batch.len() == 1 ==> batch_steps(batch)[0] == PlannedStep::Serial(
            QueueAction::ProcessBlock(batch[0]),
        ),
        batch.len() >= 2 ==> batch_steps(batch)[0] == PlannedStep::Parallel(batch),
{
}

/// A step looks at one action past its batch at most: afterwards at most one root is in the next batch, and
/// none where an action waits. No root waits that could be walked beside others. An action that has waited
/// is processed before anything else is looked at.
pub proof fn law_a_step_looks_no_further(
    splitter: CodeSplitter,
    queue: DelayedQueue,
    step: DelayedStep,
    after: DelayedQueue,
    splitter_after: CodeSplitter,
)
    requires
        queue.wf(),
        queue.waiting() is Some ==> queue.batch().len() == 0,
        step_taken(splitter, queue, Some(step), after, splitter_after),
    ensures
        after.batch().len() <= 1,
        after.waiting() is Some ==> after.batch().len() == 0,
        after.waiting() matches Some(action) ==> !loads_async_chunks(
            splitter.chunk_group_infos@,
            action,
        ),
        queue.waiting() matches Some(action) ==> {
            &&& step@ == PlannedStep::Serial(action)
            &&& after.batch().len() == 0
            &&& after.waiting() is None
            &&& after.rest() == queue.rest()
        },
        exists|n: int|
            0 <= n <= queue.rest().len() && after.rest() == #[trigger] queue.rest().skip(n),
{
    let infos = splitter.chunk_group_infos@;
    if queue.waiting() is Some {
        assert(queue.rest().skip(0) =~= queue.rest());
    } else {
        let full = queue.next_batch(infos);
        let k = full.len() - queue.batch().len();
        lemma_full_batch_grows(infos, queue.batch(), queue.rest());
        lemma_full_batch_bounded(infos, queue.batch(), queue.rest());
        if k == queue.rest().len() {
            assert(queue.rest().skip(k) =~= Seq::empty());
        }
    }
}

proof fn lemma_full_batch_bounded(
    infos: Map<CgiUkey, ChunkGroupInfo>,
    batch: Seq<ProcessBlock>,
    actions: Seq<QueueAction>,
)
    ensures
        full_batch(infos, batch, actions).len() <= batch.len() + actions.len(),
    decreases actions.len(),
{
    if actions.len() > 0 && parallel_action(infos, actions.first()) && !batch_keys(batch).contains(
        key_of(actions.first()->ProcessBlock_0),
    ) {
        lemma_full_batch_bounded(
            infos,
            batch.push(actions.first()->ProcessBlock_0),
            actions.drop_first(),
        );
    }
}

/// How many actions were not handed out.
pub open spec fn how_many_left(queue: DelayedQueue) -> int {
    (if queue.waiting() is Some {
        1int
    } else {
        0
    }) + queue.batch().len() + queue.rest().len()
}

/// The actions that were not handed out, by their place: one that waits, the roots in the batch, and those
/// that were not looked at.
pub open spec fn left_at(queue: DelayedQueue, i: int) -> QueueAction {
    let waiting: int = if queue.waiting() is Some {
        1
    } else {
        0
    };
    let n = queue.batch().len();
    if i < waiting {
        queue.waiting()->0
    } else if i < waiting + n {
        QueueAction::ProcessBlock(queue.batch()[i - waiting])
    } else {
        queue.rest()[i - waiting - n]
    }
}

/// A step hands out what comes first in the queue, whole and in its order, and leaves all that comes after
/// in its order. There is no step only where nothing is left.
pub proof fn law_a_step_takes_from_the_front(
    splitter: CodeSplitter,
    queue: DelayedQueue,
    step: Option<DelayedStep>,
    after: DelayedQueue,
    splitter_after: CodeSplitter,
    i: int,
)
    requires
        step_taken(splitter, queue, step, after, splitter_after),
    ensures
        match step {
            Some(DelayedStep::Serial(action)) => {
                &&& how_many_left(queue) == 1 + how_many_left(after)
                &&& left_at(queue, 0) == action
                &&& 0 <= i < how_many_left(after) ==> left_at(after, i) == left_at(queue, i + 1)
            },
            Some(DelayedStep::Parallel(roots)) => {
                let n = roots@.len();
                &&& how_many_left(queue) == n + how_many_left(after)
                &&& 0 <= i < n ==> left_at(queue, i) == QueueAction::ProcessBlock(roots@[i])
                &&& 0 <= i < how_many_left(after) ==> left_at(after, i) == left_at(queue, i + n)
            },
            None => how_many_left(queue) == 0 && how_many_left(after) == 0,
        },
{
    let before = queue.outstanding();
    let now = after.outstanding();
    lemma_left_at(queue);
    lemma_left_at(after);
    if let Some(step) = step {
        let first = step_actions(step@);
        let n = first.len() as int;
        assert(first + now == before);
        if 0 <= i < now.len() {
            assert((first + now)[i + n] == now[i]);
        }
        if 0 <= i < n {
            assert((first + now)[i] == first[i]);
        }
        assert(n > 0 ==> (first + now)[0] == first[0]);
    }
}

/// What is left of a queue, by its places.
proof fn lemma_left_at(queue: DelayedQueue)
    ensures
        queue.outstanding().len() == how_many_left(queue),
        forall|i: int|
            0 <= i < how_many_left(queue) ==> #[trigger] queue.outstanding()[i] == left_at(queue, i),
{
}

/// Whether another root comes before the action at `p`, or is in the batch already, that fills the same
/// chunk of the same group.
pub open spec fn filled_before(
    batch: Seq<ProcessBlock>,
    actions: Seq<QueueAction>,
    p: int,
) -> bool {
    ||| exists|q: int|
        0 <= q < batch.len() && #[trigger] fill_the_same(batch[q], actions[p]->ProcessBlock_0)
    ||| exists|q: int|
        0 <= q < p && #[trigger] fill_the_same(
            actions[q]->ProcessBlock_0,
            actions[p]->ProcessBlock_0,
        )
}

/// Whether the next step looks at the action at `i`: all the actions before it join the batch.
pub open spec fn is_looked_at(
    infos: Map<CgiUkey, ChunkGroupInfo>,
    batch: Seq<ProcessBlock>,
    actions: Seq<QueueAction>,
    i: int,
) -> bool {
    forall|p: int|
        0 <= p < i ==> #[trigger] loads_async_chunks(infos, actions[p]) && !filled_before(
            batch,
            actions,
            p,
        )
}

/// What has to be known for the next step: the records of the chunk groups of the roots that join the
/// batch, and that of the action after them, where it is a root. Nothing has to be known of later ones.
pub proof fn law_what_a_step_has_to_know(
    infos: Map<CgiUkey, ChunkGroupInfo>,
    batch: Seq<ProcessBlock>,
    actions: Seq<QueueAction>,
)
    ensures
        known_up_to_step(infos, batch, actions) <==> forall|i: int|
            0 <= i < actions.len() && is_looked_at(infos, batch, actions, i)
                && #[trigger] actions[i] is ProcessBlock ==> infos.contains_key(
                actions[i]->ProcessBlock_0.chunk_group_info,
            ),
{
    assert forall|i: int| 0 <= i < actions.len() implies (batch.len() + i <= full_batch(
        infos,
        batch,
        actions,
    ).len() <==> #[trigger] is_looked_at(infos, batch, actions, i)) by {
        lemma_is_looked_at(infos, batch, actions, i);
    }
    if known_up_to_step(infos, batch, actions) {
        assert forall|i: int|
            0 <= i < actions.len() && is_looked_at(infos, batch, actions, i)
                && #[trigger] actions[i] is ProcessBlock implies infos.contains_key(
            actions[i]->ProcessBlock_0.chunk_group_info,
        ) by {
            assert(known_action(infos, actions[i]));
        }
    }
}

proof fn lemma_is_looked_at(
    infos: Map<CgiUkey, ChunkGroupInfo>,
    batch: Seq<ProcessBlock>,
    actions: Seq<QueueAction>,
    i: int,
)
    requires
        0 <= i < actions.len(),
    ensures
        batch.len() + i <= full_batch(infos, batch, actions).len() <==> is_looked_at(
            infos,
            batch,
            actions,
            i,
        ),
    decreases actions.len(),
{
    lemma_full_batch_grows(infos, batch, actions);
    if i > 0 {
        let root = actions.first()->ProcessBlock_0;
        let later = actions.drop_first();
        let grown = batch.push(root);
        assert(loads_async_chunks(infos, actions[0]) == parallel_action(infos, actions.first()));
        lemma_in_batch(batch, root);
        assert(filled_before(batch, actions, 0) == batch_keys(batch).contains(key_of(root)));
        if loads_async_chunks(infos, actions[0]) && !filled_before(batch, actions, 0) {
            lemma_is_looked_at(infos, grown, later, i - 1);
            assert forall|p: int| 0 <= p < later.len() implies #[trigger] filled_before(
                grown,
                later,
                p,
            ) == filled_before(batch, actions, p + 1) by {
                lemma_filled_before_later(batch, actions, p);
            }
            if is_looked_at(infos, grown, later, i - 1) {
                assert forall|p: int| 0 <= p < i implies #[trigger] loads_async_chunks(
                    infos,
                    actions[p],
                ) && !filled_before(batch, actions, p) by {
                    if p > 0 {
                        assert(later[p - 1] == actions[p]);
                        assert(loads_async_chunks(infos, later[p - 1]));
                        assert(filled_before(grown, later, p - 1) == filled_before(
                            batch,
                            actions,
                            p - 1 + 1,
                        ));
                    }
                }
            }
            if is_looked_at(infos, batch, actions, i) {
                assert forall|p: int| 0 <= p < i - 1 implies #[trigger] loads_async_chunks(
                    infos,
                    later[p],
                ) && !filled_before(grown, later, p) by {
                    assert(later[p] == actions[p + 1]);
                    assert(loads_async_chunks(infos, actions[p + 1]));
                }
            }
        }
    }
}

/// A batch has the key of a root exactly where it has a root that fills the same.
proof fn lemma_in_batch(batch: Seq<ProcessBlock>, root: ProcessBlock)
    ensures
        batch_keys(batch).contains(key_of(root)) <==> exists|q: int|
            0 <= q < batch.len() && #[trigger] fill_the_same(batch[q], root),
{
    let keys = batch.map_values(|root: ProcessBlock| key_of(root));
    if batch_keys(batch).contains(key_of(root)) {
        assert(keys.contains(key_of(root)));
        let q = choose|q: int| 0 <= q < keys.len() && keys[q] == key_of(root);
        assert(fill_the_same(batch[q], root));
    }
    if exists|q: int| 0 <= q < batch.len() && #[trigger] fill_the_same(batch[q], root) {
        let q = choose|q: int| 0 <= q < batch.len() && #[trigger] fill_the_same(batch[q], root);
        assert(keys[q] == key_of(root));
    }
}

/// Where the first action has joined the batch, it is before the others in another way.
proof fn lemma_filled_before_later(batch: Seq<ProcessBlock>, actions: Seq<QueueAction>, p: int)
    requires
        0 <= p < actions.len() - 1,
    ensures
        filled_before(batch.push(actions.first()->ProcessBlock_0), actions.drop_first(), p)
            == filled_before(batch, actions, p + 1),
{
    let root = actions.first()->ProcessBlock_0;
    let later = actions.drop_first();
    let grown = batch.push(root);
    let this = actions[p + 1]->ProcessBlock_0;
    assert(later[p] == actions[p + 1]);
    if filled_before(grown, later, p) {
        if exists|q: int| 0 <= q < grown.len() && #[trigger] fill_the_same(grown[q], this) {
            let q = choose|q: int| 0 <= q < grown.len() && #[trigger] fill_the_same(grown[q], this);
            if q < batch.len() {
                assert(fill_the_same(batch[q], this));
            } else {
                assert(fill_the_same(actions[0]->ProcessBlock_0, this));
            }
        } else {
            let q = choose|q: int|
                0 <= q < p && #[trigger] fill_the_same(later[q]->ProcessBlock_0, this);
            assert(fill_the_same(actions[q + 1]->ProcessBlock_0, this));
        }
    }
    if filled_before(batch, actions, p + 1) {
        if exists|q: int| 0 <= q < batch.len() && #[trigger] fill_the_same(batch[q], this) {
            let q = choose|q: int| 0 <= q < batch.len() && #[trigger] fill_the_same(batch[q], this);
            assert(fill_the_same(grown[q], this));
        } else {
            let q = choose|q: int|
                0 <= q < p + 1 && #[trigger] fill_the_same(actions[q]->ProcessBlock_0, this);
            if q == 0 {
                assert(fill_the_same(grown[batch.len() as int], this));
            } else {
                assert(fill_the_same(later[q - 1]->ProcessBlock_0, this));
            }
        }
    }
}

/// What has to be known to tell whether a queue is worth a batch: the records of the chunk groups of the
/// roots up to the first two neighbours that could be walked side by side. Nothing has to be known of
/// later ones.
pub proof fn law_what_looking_for_a_batch_has_to_know(
    infos: Map<CgiUkey, ChunkGroupInfo>,
    actions: Seq<QueueAction>,
)
    ensures
        known_up_to_batch(infos, actions) <==> forall|i: int|
            0 <= i < actions.len() && (forall|j: int| #[trigger]
                could_go_together(infos, actions, j) ==> i <= j + 1)
                && #[trigger] actions[i] is ProcessBlock ==> infos.contains_key(
                actions[i]->ProcessBlock_0.chunk_group_info,
            ),
{
    assert forall|j: int| side_by_side(infos, actions, j) == #[trigger] could_go_together(
        infos,
        actions,
        j,
    ) by {}
    assert forall|i: int| #[trigger] batch_before(infos, actions, i) == !(forall|j: int| #[trigger]
        could_go_together(infos, actions, j) ==> i <= j + 1) by {
        if batch_before(infos, actions, i) {
            let j = choose|j: int| j < i - 1 && side_by_side(infos, actions, j);
            assert(could_go_together(infos, actions, j));
        }
        if !(forall|j: int| #[trigger] could_go_together(infos, actions, j) ==> i <= j + 1) {
            let j = choose|j: int| #[trigger] could_go_together(infos, actions, j) && i > j + 1;
            assert(side_by_side(infos, actions, j));
        }
    }
    if known_up_to_batch(infos, actions) {
        assert forall|i: int|
            0 <= i < actions.len() && (forall|j: int| #[trigger]
                could_go_together(infos, actions, j) ==> i <= j + 1)
                && #[trigger] actions[i] is ProcessBlock implies infos.contains_key(
            actions[i]->ProcessBlock_0.chunk_group_info,
        ) by {
            assert(!batch_before(infos, actions, i));
            assert(known_action(infos, actions[i]));
        }
    } else {
        let i = choose|i: int|
            0 <= i < actions.len() && !batch_before(infos, actions, i) && !known_action(
                infos,
                #[trigger] actions[i],
            );
        assert(actions[i] is ProcessBlock);
    }
}

} // verus!
