use vstd::prelude::*;

use crate::counter::counter_sum;
use crate::graph::CgiUkey;
use crate::queue::{ProcessBlock, QueueAction};
use crate::schedule::{
    DelayedQueue, DelayedStep, PlannedStep, batch_before, batch_keys, batch_steps, full_batch,
    key_of, known_action, known_up_to_batch, known_up_to_step, lemma_full_batch_grows,
    parallel_action, parallel_root, plan, side_by_side, step_taken, taken, worth_a_batch,
};
use crate::schedule_laws::{has_parallel_step, law_worth_a_batch_means_a_batch};
use crate::splitter::{ChunkGroupInfo, CodeSplitter};
use crate::stats::ParallelCodeSplitterStats;

verus! {

/// The sum of what `part` takes from each step.
pub open spec fn sum_steps(steps: Seq<PlannedStep>, part: spec_fn(PlannedStep) -> int) -> int
    decreases steps.len(),
{
    if steps.len() == 0 {
        0
    } else {
        sum_steps(steps.drop_last(), part) + part(steps.last())
    }
}

/// The batches that steps walk.
pub open spec fn batches_in(steps: Seq<PlannedStep>) -> int {
    sum_steps(steps, |step: PlannedStep| batches_of(step))
}

/// The roots that steps walk side by side.
pub open spec fn jobs_in(steps: Seq<PlannedStep>) -> int {
    sum_steps(steps, |step: PlannedStep| jobs_of(step))
}

/// The roots that could be walked beside others and that steps process by themselves.
pub open spec fn lone_roots_in(
    infos: Map<CgiUkey, ChunkGroupInfo>,
    steps: Seq<PlannedStep>,
) -> int {
    sum_steps(steps, |step: PlannedStep| lone_roots_of(infos, step))
}

/// The batches of a step.
pub open spec fn batches_of(step: PlannedStep) -> int {
    match step {
        PlannedStep::Serial(_) => 0,
        PlannedStep::Parallel(_) => 1,
    }
}

/// The roots that a step walks side by side.
pub open spec fn jobs_of(step: PlannedStep) -> int {
    match step {
        PlannedStep::Serial(_) => 0,
        PlannedStep::Parallel(roots) => roots.len() as int,
    }
}

/// The roots that could be walked beside others and that a step processes by itself.
pub open spec fn lone_roots_of(infos: Map<CgiUkey, ChunkGroupInfo>, step: PlannedStep) -> int {
    match step {
        PlannedStep::Serial(action) => if parallel_action(infos, action) {
            1
        } else {
            0
        },
        PlannedStep::Parallel(_) => 0,
    }
}

/// How many of the actions are no roots that can be walked beside others.
pub open spec fn others_among(
    infos: Map<CgiUkey, ChunkGroupInfo>,
    actions: Seq<QueueAction>,
) -> int
    decreases actions.len(),
{
    if actions.len() == 0 {
        0
    } else {
        others_among(infos, actions.drop_first()) + if parallel_action(infos, actions.first()) {
            0int
        } else {
            1int
        }
    }
}

/// Whether the chunk groups that are known stay known, and load chunks as before.
pub open spec fn keeps_flags(
    infos: Map<CgiUkey, ChunkGroupInfo>,
    after: Map<CgiUkey, ChunkGroupInfo>,
) -> bool {
    forall|group: CgiUkey| #[trigger]
        infos.contains_key(group) ==> {
            &&& after.contains_key(group)
            &&& after[group].chunk_loading == infos[group].chunk_loading
            &&& after[group].async_chunks == infos[group].async_chunks
        }
}

/// Whether two statistics agree in what is counted when the delayed queue is taken and worked off.
pub open spec fn same_queue_counts(
    a: ParallelCodeSplitterStats,
    b: ParallelCodeSplitterStats,
) -> bool {
    &&& a.delayed_rounds == b.delayed_rounds
    &&& a.delayed_actions == b.delayed_actions
    &&& a.parallel_batches == b.parallel_batches
    &&& a.parallel_jobs == b.parallel_jobs
    &&& a.serial_actions == b.serial_actions
    &&& a.max_batch_size == b.max_batch_size
}

/// A step that was taken out of a delayed queue, with the queue and the splitter before and after.
pub struct Turn {
    pub splitter: CodeSplitter,
    pub queue: DelayedQueue,
    pub step: Option<DelayedStep>,
    pub queue_after: DelayedQueue,
    pub after: CodeSplitter,
}

/// Whether a turn takes the next step of its queue. There is a record of the chunk group of every root that
/// is looked at, by the time that it is.
#[verifier::opaque]
pub open spec fn is_turn(turn: Turn) -> bool {
    &&& turn.queue.waiting() is None ==> known_up_to_step(
        turn.splitter.chunk_group_infos@,
        turn.queue.batch(),
        turn.queue.rest(),
    )
    &&& step_taken(turn.splitter, turn.queue, turn.step, turn.queue_after, turn.after)
}

/// Whether turns follow on each other until the queue has no step left. What is done about a step changes
/// neither how a known chunk group loads chunks nor what is counted of the queue.
pub open spec fn is_round(turns: Seq<Turn>) -> bool {
    &&& turns.len() > 0
    &&& turns.last().step is None
    &&& forall|i: int| 0 <= i < turns.len() ==> #[trigger] is_turn(turns[i])
    &&& forall|i: int| 0 <= i < turns.len() - 1 ==> #[trigger] follows_on(turns, i)
}

/// Whether there is a step at `i`, and the turn after it goes on from there.
pub open spec fn follows_on(turns: Seq<Turn>, i: int) -> bool {
    &&& turns[i].step is Some
    &&& turns[i + 1].queue == turns[i].queue_after
    &&& keeps_flags(
        turns[i].after.chunk_group_infos@,
        turns[i + 1].splitter.chunk_group_infos@,
    )
    &&& same_queue_counts(
        turns[i].after.parallel_state.stats,
        turns[i + 1].splitter.parallel_state.stats,
    )
}

proof fn lemma_sum_steps_add(
    a: Seq<PlannedStep>,
    b: Seq<PlannedStep>,
    part: spec_fn(PlannedStep) -> int,
)
    ensures
        sum_steps(a + b, part) == sum_steps(a, part) + sum_steps(b, part),
    decreases b.len(),
{
    if b.len() == 0 {
        assert(a + b =~= a);
    } else {
        lemma_sum_steps_add(a, b.drop_last(), part);
        assert((a + b).drop_last() =~= a + b.drop_last());
    }
}

proof fn lemma_sum_of_one(step: PlannedStep, part: spec_fn(PlannedStep) -> int)
    ensures
        sum_steps(seq![step], part) == part(step),
{
    assert(seq![step].drop_last() =~= Seq::empty());
    assert(sum_steps(Seq::<PlannedStep>::empty(), part) == 0);
}

/// A plan with a parallel step has a batch.
proof fn lemma_parallel_step_counts(steps: Seq<PlannedStep>)
    ensures
        batches_in(steps) >= 0,
        has_parallel_step(steps) ==> batches_in(steps) >= 1,
    decreases steps.len(),
{
    if steps.len() > 0 {
        let before = steps.drop_last();
        lemma_parallel_step_counts(before);
        if has_parallel_step(steps) && !(steps.last() is Parallel) {
            let k = choose|k: int| 0 <= k < steps.len() && (#[trigger] steps[k]) is Parallel;
            assert(before[k] == steps[k]);
        }
    }
}

spec fn all_parallel(infos: Map<CgiUkey, ChunkGroupInfo>, batch: Seq<ProcessBlock>) -> bool {
    forall|i: int| 0 <= i < batch.len() ==> parallel_root(infos, #[trigger] batch[i])
}

/// What a batch adds to what is counted of a plan.
proof fn lemma_batch_steps_count(infos: Map<CgiUkey, ChunkGroupInfo>, batch: Seq<ProcessBlock>)
    requires
        all_parallel(infos, batch),
    ensures
        ({
            let steps = batch_steps(batch);
            &&& jobs_in(steps) + lone_roots_in(infos, steps) == batch.len()
            &&& jobs_in(steps) >= 2 * batches_in(steps)
        }),
{
    let steps = batch_steps(batch);
    if batch.len() > 0 {
        assert(steps =~= seq![steps[0]]);
        lemma_sum_of_one(steps[0], |step: PlannedStep| batches_of(step));
        lemma_sum_of_one(steps[0], |step: PlannedStep| jobs_of(step));
        lemma_sum_of_one(steps[0], |step: PlannedStep| lone_roots_of(infos, step));
        assert(parallel_root(infos, batch[0]));
    }
}

proof fn lemma_counts_add(
    infos: Map<CgiUkey, ChunkGroupInfo>,
    a: Seq<PlannedStep>,
    b: Seq<PlannedStep>,
)
    ensures
        batches_in(a + b) == batches_in(a) + batches_in(b),
        jobs_in(a + b) == jobs_in(a) + jobs_in(b),
        lone_roots_in(infos, a + b) == lone_roots_in(infos, a) + lone_roots_in(infos, b),
{
    lemma_sum_steps_add(a, b, |step: PlannedStep| batches_of(step));
    lemma_sum_steps_add(a, b, |step: PlannedStep| jobs_of(step));
    lemma_sum_steps_add(a, b, |step: PlannedStep| lone_roots_of(infos, step));
}

/// Every root that can be walked beside others is a job or processed by itself, and every batch has at
/// least two jobs.
pub proof fn law_plan_counts(
    infos: Map<CgiUkey, ChunkGroupInfo>,
    batch: Seq<ProcessBlock>,
    actions: Seq<QueueAction>,
)
    requires
        forall|i: int| 0 <= i < batch.len() ==> parallel_root(infos, #[trigger] batch[i]),
    ensures
        ({
            let steps = plan(infos, batch, actions);
            &&& jobs_in(steps) + lone_roots_in(infos, steps) + others_among(infos, actions)
                == batch.len() + actions.len()
            &&& jobs_in(steps) >= 2 * batches_in(steps)
        }),
    decreases actions.len(),
{
    let steps = batch_steps(batch);
    assert(all_parallel(infos, batch));
    lemma_batch_steps_count(infos, batch);
    if actions.len() > 0 {
        let action = actions.first();
        let later = actions.drop_first();
        if !parallel_action(infos, action) {
            let alone = PlannedStep::Serial(action);
            let none = Seq::<ProcessBlock>::empty();
            law_plan_counts(infos, none, later);
            lemma_sum_of_one(alone, |step: PlannedStep| batches_of(step));
            lemma_sum_of_one(alone, |step: PlannedStep| jobs_of(step));
            lemma_sum_of_one(alone, |step: PlannedStep| lone_roots_of(infos, step));
            lemma_counts_add(infos, steps, seq![alone]);
            lemma_counts_add(infos, steps + seq![alone], plan(infos, none, later));
        } else {
            let root = action->ProcessBlock_0;
            if batch_keys(batch).contains(key_of(root)) {
                law_plan_counts(infos, seq![root], later);
                lemma_counts_add(infos, steps, plan(infos, seq![root], later));
            } else {
                law_plan_counts(infos, batch.push(root), later);
            }
        }
    }
}

/// Whether the chunk groups of all the roots are known.
pub open spec fn all_known(
    infos: Map<CgiUkey, ChunkGroupInfo>,
    actions: Seq<QueueAction>,
) -> bool {
    forall|i: int| 0 <= i < actions.len() ==> known_action(infos, #[trigger] actions[i])
}

/// As long as known chunk groups load chunks as before, the plan for known roots is the same.
proof fn lemma_plan_by_flags(
    infos: Map<CgiUkey, ChunkGroupInfo>,
    after: Map<CgiUkey, ChunkGroupInfo>,
    batch: Seq<ProcessBlock>,
    actions: Seq<QueueAction>,
)
    requires
        keeps_flags(infos, after),
        all_known(infos, actions),
    ensures
        plan(after, batch, actions) == plan(infos, batch, actions),
    decreases actions.len(),
{
    if actions.len() > 0 {
        let later = actions.drop_first();
        assert(known_action(infos, actions[0]));
        assert forall|i: int| 0 <= i < later.len() implies known_action(
            infos,
            #[trigger] later[i],
        ) by {
            assert(later[i] == actions[i + 1]);
        }
        assert(parallel_action(after, actions[0]) == parallel_action(infos, actions[0]));
        if !parallel_action(infos, actions[0]) {
            lemma_plan_by_flags(infos, after, Seq::empty(), later);
        } else {
            let root = actions[0]->ProcessBlock_0;
            lemma_plan_by_flags(infos, after, seq![root], later);
            lemma_plan_by_flags(infos, after, batch.push(root), later);
        }
    }
}

/// As long as known chunk groups load chunks as before, the batch is the same, where the roots are known
/// that are looked at for it.
proof fn lemma_full_batch_by_flags(
    infos: Map<CgiUkey, ChunkGroupInfo>,
    after: Map<CgiUkey, ChunkGroupInfo>,
    batch: Seq<ProcessBlock>,
    actions: Seq<QueueAction>,
)
    requires
        keeps_flags(infos, after),
        known_up_to_step(infos, batch, actions),
    ensures
        full_batch(after, batch, actions) == full_batch(infos, batch, actions),
    decreases actions.len(),
{
    lemma_full_batch_grows(infos, batch, actions);
    if actions.len() > 0 {
        let later = actions.drop_first();
        assert(known_action(infos, actions[0]));
        assert(parallel_action(after, actions[0]) == parallel_action(infos, actions[0]));
        let root = actions[0]->ProcessBlock_0;
        if parallel_action(infos, actions[0]) && !batch_keys(batch).contains(key_of(root)) {
            assert forall|i: int|
                0 <= i < later.len() && batch.push(root).len() + i <= full_batch(
                    infos,
                    batch.push(root),
                    later,
                ).len() implies known_action(infos, #[trigger] later[i]) by {
                assert(later[i] == actions[i + 1]);
            }
            lemma_full_batch_by_flags(infos, after, batch.push(root), later);
        }
    }
}

/// A plan begins with the full batch, and goes on from the action that ends it.
proof fn lemma_plan_begins(
    infos: Map<CgiUkey, ChunkGroupInfo>,
    batch: Seq<ProcessBlock>,
    actions: Seq<QueueAction>,
)
    ensures
        ({
            let full = full_batch(infos, batch, actions);
            let k = full.len() - batch.len();
            let steps = plan(infos, batch, actions);
            &&& 0 <= k <= actions.len()
            &&& if k == actions.len() {
                steps == batch_steps(full)
            } else if parallel_action(infos, actions[k]) {
                steps == batch_steps(full) + plan(
                    infos,
                    seq![actions[k]->ProcessBlock_0],
                    actions.skip(k + 1),
                ) && full.len() > 0
            } else {
                steps == batch_steps(full) + seq![PlannedStep::Serial(actions[k])] + plan(
                    infos,
                    Seq::empty(),
                    actions.skip(k + 1),
                )
            }
        }),
    decreases actions.len(),
{
    if actions.len() > 0 {
        let later = actions.drop_first();
        let root = actions.first()->ProcessBlock_0;
        assert(actions.skip(1) =~= later);
        if parallel_action(infos, actions.first()) {
            if batch_keys(batch).contains(key_of(root)) {
                assert(batch.len() > 0) by {
                    if batch.len() == 0 {
                        assert(batch_keys(batch) =~= Set::empty());
                    }
                }
            } else {
                lemma_plan_begins(infos, batch.push(root), later);
                let k = full_batch(infos, batch, actions).len() - batch.len();
                if k < actions.len() {
                    assert(later[k - 1] == actions[k]);
                    assert(later.skip(k) =~= actions.skip(k + 1));
                }
            }
        }
    }
}

/// The roots of a full batch can all be walked beside others, and those that have joined it are the next
/// actions.
proof fn lemma_full_batch_parallel(
    infos: Map<CgiUkey, ChunkGroupInfo>,
    batch: Seq<ProcessBlock>,
    actions: Seq<QueueAction>,
)
    requires
        all_parallel(infos, batch),
    ensures
        all_parallel(infos, full_batch(infos, batch, actions)),
        batch.len() <= full_batch(infos, batch, actions).len() <= batch.len() + actions.len(),
    decreases actions.len(),
{
    if actions.len() > 0 && parallel_action(infos, actions.first()) && !batch_keys(batch).contains(
        key_of(actions.first()->ProcessBlock_0),
    ) {
        lemma_full_batch_parallel(
            infos,
            batch.push(actions.first()->ProcessBlock_0),
            actions.drop_first(),
        );
    }
}

/// Whether a queue is in order under the flags of `infos`: the batch holds roots that can be walked beside
/// others, and no such root waits.
#[verifier::opaque]
spec fn queue_in_order(infos: Map<CgiUkey, ChunkGroupInfo>, queue: DelayedQueue) -> bool {
    &&& all_parallel(infos, queue.batch())
    &&& queue.waiting() matches Some(action) ==> queue.batch().len() == 0 && !parallel_action(
        infos,
        action,
    )
}

/// One turn, under the flags as they are later: it goes by the plan, keeps the queue in order, and counts
/// its step.
proof fn lemma_turn(infos: Map<CgiUkey, ChunkGroupInfo>, turn: Turn)
    requires
        keeps_flags(turn.splitter.chunk_group_infos@, infos),
        queue_in_order(infos, turn.queue),
        is_turn(turn),
    ensures
        queue_in_order(infos, turn.queue_after),
        turn.after.chunk_group_infos@ == turn.splitter.chunk_group_infos@,
        match turn.step {
            Some(step) => {
                let planned = turn.queue.planned(infos);
                let stats = turn.splitter.parallel_state.stats;
                let after = turn.after.parallel_state.stats;
                &&& planned.len() > 0
                &&& step@ == planned.first()
                &&& turn.queue_after.planned(infos) == planned.drop_first()
                &&& after.parallel_batches == counter_sum(
                    stats.parallel_batches,
                    batches_of(step@),
                )
                &&& after.parallel_jobs == counter_sum(stats.parallel_jobs, jobs_of(step@))
                &&& after.serial_actions == counter_sum(
                    stats.serial_actions,
                    lone_roots_of(infos, step@),
                )
                &&& after.delayed_rounds == stats.delayed_rounds
                &&& after.delayed_actions == stats.delayed_actions
            },
            None => {
                &&& turn.queue.planned(infos).len() == 0
                &&& turn.after.parallel_state.stats == turn.splitter.parallel_state.stats
            },
        },
{
    reveal(is_turn);
    reveal(queue_in_order);
    let now = turn.splitter.chunk_group_infos@;
    let queue = turn.queue;
    let after = turn.queue_after;
    let rest = queue.rest();
    if queue.waiting() is Some {
        let steps = queue.planned(infos);
        assert(steps.drop_first() =~= after.planned(infos));
    } else {
        let full = queue.next_batch(now);
        let k = full.len() - queue.batch().len();
        lemma_full_batch_by_flags(now, infos, queue.batch(), rest);
        lemma_plan_begins(now, queue.batch(), rest);
        lemma_plan_begins(infos, queue.batch(), rest);
        lemma_full_batch_parallel(infos, queue.batch(), rest);
        if k < rest.len() {
            assert(known_action(now, rest[k]));
            assert(parallel_action(now, rest[k]) == parallel_action(infos, rest[k]));
        }
        if full.len() > 0 {
            assert(parallel_root(infos, full[0]));
            assert(batch_steps(full) =~= seq![batch_steps(full)[0]]);
        } else {
            assert(batch_steps(full) =~= Seq::empty());
        }
        let steps = queue.planned(infos);
        if turn.step is Some {
            assert(queue.planned(now).first() == steps.first());
            assert(steps.drop_first() =~= after.planned(infos));
        } else {
            assert(full.len() == 0 && k == rest.len());
        }
    }
}

/// Known chunk groups load chunks to the end of a round as they do at its `i`th turn.
proof fn lemma_flags_stay(turns: Seq<Turn>, i: int)
    requires
        is_round(turns),
        0 <= i < turns.len(),
    ensures
        keeps_flags(
            turns[i].splitter.chunk_group_infos@,
            turns.last().splitter.chunk_group_infos@,
        ),
    decreases turns.len() - i,
{
    if i < turns.len() - 1 {
        lemma_flags_stay(turns, i + 1);
        assert(follows_on(turns, i));
        assert(is_turn(turns[i]));
        assert(turns[i].after.chunk_group_infos@ == turns[i].splitter.chunk_group_infos@) by {
            reveal(is_turn);
        }
    }
}

/// Where a round stands at its `i`th turn, under the flags as they are at its end.
proof fn lemma_round_stands(infos: Map<CgiUkey, ChunkGroupInfo>, turns: Seq<Turn>, i: int)
    requires
        is_round(turns),
        0 <= i < turns.len(),
        infos == turns.last().splitter.chunk_group_infos@,
        queue_in_order(infos, turns[0].queue),
    ensures
        keeps_flags(turns[i].splitter.chunk_group_infos@, infos),
        queue_in_order(infos, turns[i].queue),
        ({
            let steps = turns[0].queue.planned(infos);
            let first = turns[0].splitter.parallel_state.stats;
            let stats = turns[i].splitter.parallel_state.stats;
            &&& i <= steps.len()
            &&& turns[i].queue.planned(infos) == steps.skip(i)
            &&& stats.parallel_batches == counter_sum(
                first.parallel_batches,
                batches_in(steps.take(i)),
            )
            &&& stats.parallel_jobs == counter_sum(first.parallel_jobs, jobs_in(steps.take(i)))
            &&& stats.serial_actions == counter_sum(
                first.serial_actions,
                lone_roots_in(infos, steps.take(i)),
            )
            &&& stats.delayed_rounds == first.delayed_rounds
            &&& stats.delayed_actions == first.delayed_actions
        }),
    decreases i,
{
    let steps = turns[0].queue.planned(infos);
    lemma_flags_stay(turns, i);
    if i == 0 {
        assert(steps.take(0) =~= Seq::empty());
        assert(steps.skip(0) =~= steps);
    } else {
        lemma_round_stands(infos, turns, i - 1);
        let turn = turns[i - 1];
        assert(follows_on(turns, i - 1));
        assert(is_turn(turns[i - 1]));
        lemma_turn(infos, turn);
        assert(steps.take(i).drop_last() =~= steps.take(i - 1));
        assert(steps.skip(i - 1).drop_first() =~= steps.skip(i));
        assert(steps.take(i).last() == turn.step->0@);
    }
}

/// The first two roots in a row that can be walked side by side.
proof fn lemma_first_side_by_side(
    infos: Map<CgiUkey, ChunkGroupInfo>,
    actions: Seq<QueueAction>,
    i: int,
) -> (first: int)
    requires
        side_by_side(infos, actions, i),
    ensures
        side_by_side(infos, actions, first),
        forall|j: int| j < first ==> !side_by_side(infos, actions, j),
    decreases i,
{
    if exists|j: int| j < i && side_by_side(infos, actions, j) {
        let j = choose|j: int| j < i && side_by_side(infos, actions, j);
        lemma_first_side_by_side(infos, actions, j)
    } else {
        i
    }
}

/// What was worth a batch stays so, where the roots are known that were looked at for it.
proof fn lemma_worth_by_flags(
    infos: Map<CgiUkey, ChunkGroupInfo>,
    after: Map<CgiUkey, ChunkGroupInfo>,
    actions: Seq<QueueAction>,
)
    requires
        keeps_flags(infos, after),
        known_up_to_batch(infos, actions),
        worth_a_batch(infos, actions),
    ensures
        worth_a_batch(after, actions),
{
    let any = choose|i: int| side_by_side(infos, actions, i);
    let i = lemma_first_side_by_side(infos, actions, any);
    assert(!batch_before(infos, actions, i));
    assert(!batch_before(infos, actions, i + 1));
    assert(known_action(infos, actions[i]));
    assert(known_action(infos, actions[i + 1]));
    assert(side_by_side(after, actions, i));
}

/// A round, from the queue that was taken to its end, goes through the plan for that queue, by how the
/// chunk groups load chunks once they are known. It counts the batches, the roots in them and the roots
/// that are processed by themselves: together with the other actions these are all that was taken. There
/// is at least one batch, with at least two roots, so that looking ahead and working off agree. Where all
/// the groups are known when the queue is taken, the plan is the one for that moment.
pub proof fn law_round_counts(before: CodeSplitter, turns: Seq<Turn>)
    requires
        is_round(turns),
        taken(before, turns[0].splitter, turns[0].queue),
        known_up_to_batch(before.chunk_group_infos@, before.queue_delayed@),
        worth_a_batch(before.chunk_group_infos@, before.queue_delayed@),
    ensures
        ({
            let infos = turns.last().splitter.chunk_group_infos@;
            let actions = before.queue_delayed@;
            let steps = plan(infos, Seq::empty(), actions);
            let first = before.parallel_state.stats;
            let last = turns.last().after.parallel_state.stats;
            &&& all_known(before.chunk_group_infos@, actions) ==> steps == plan(
                before.chunk_group_infos@,
                Seq::empty(),
                actions,
            )
            &&& turns.len() == steps.len() + 1
            &&& forall|i: int|
                0 <= i < steps.len() ==> (#[trigger] turns[i]).step is Some && turns[i].step->0@
                    == steps[i]
            &&& last.delayed_rounds == counter_sum(first.delayed_rounds, 1)
            &&& last.delayed_actions == counter_sum(first.delayed_actions, actions.len() as int)
            &&& last.parallel_batches == counter_sum(first.parallel_batches, batches_in(steps))
            &&& last.parallel_jobs == counter_sum(first.parallel_jobs, jobs_in(steps))
            &&& last.serial_actions == counter_sum(
                first.serial_actions,
                lone_roots_in(infos, steps),
            )
            &&& jobs_in(steps) + lone_roots_in(infos, steps) + others_among(infos, actions)
                == actions.len()
            &&& batches_in(steps) >= 1
            &&& jobs_in(steps) >= 2 * batches_in(steps)
            &&& first.parallel_batches + batches_in(steps) <= u32::MAX ==> last.parallel_batches
                >= first.parallel_batches + 1
            &&& first.parallel_jobs + jobs_in(steps) <= u32::MAX ==> last.parallel_jobs
                >= first.parallel_jobs + 2
        }),
{
    let infos = turns.last().splitter.chunk_group_infos@;
    let actions = before.queue_delayed@;
    let queue = turns[0].queue;
    let steps = plan(infos, Seq::empty(), actions);
    assert(queue.planned(infos) == steps);
    assert(queue_in_order(infos, queue)) by {
        reveal(queue_in_order);
    }
    law_plan_counts(infos, Seq::empty(), actions);
    lemma_flags_stay(turns, 0);
    lemma_worth_by_flags(before.chunk_group_infos@, infos, actions);
    law_worth_a_batch_means_a_batch(infos, actions);
    lemma_parallel_step_counts(steps);
    if all_known(before.chunk_group_infos@, actions) {
        lemma_plan_by_flags(before.chunk_group_infos@, infos, Seq::empty(), actions);
    }
    let m = turns.len() - 1;
    lemma_round_stands(infos, turns, m);
    assert(is_turn(turns[m]));
    lemma_turn(infos, turns[m]);
    assert(steps.skip(m).len() == 0);
    assert(steps.take(m) =~= steps);
    assert forall|i: int| 0 <= i < steps.len() implies (#[trigger] turns[i]).step is Some
        && turns[i].step->0@ == steps[i] by {
        assert(follows_on(turns, i));
        lemma_round_stands(infos, turns, i);
        assert(is_turn(turns[i]));
        lemma_turn(infos, turns[i]);
    }
}

} // verus!
