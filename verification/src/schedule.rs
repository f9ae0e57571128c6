use vstd::prelude::*;

use rustc_hash::FxHashSet;

use crate::counter::{count_of, counter_add, counter_sum};
use crate::fx;
use crate::fx::Pair;
use crate::graph::CgiUkey;
use crate::queue::{ProcessBlock, QueueAction};
use crate::splitter::{ChunkGroupInfo, CodeSplitter, ParallelCodeSplitterState};
use crate::stats::ParallelCodeSplitterStats;

verus! {

broadcast use vstd::std_specs::hash::group_hash_axioms;

/// Fewer roots than this are not worth a batch.
pub const MIN_PARALLEL_CHUNK_GROUPS: usize = 2;

/// Whether a root can be walked beside others: its chunk group loads chunks, and asynchronously.
pub open spec fn parallel_root(infos: Map<CgiUkey, ChunkGroupInfo>, root: ProcessBlock) -> bool {
    infos[root.chunk_group_info].chunk_loading && infos[root.chunk_group_info].async_chunks
}

/// Whether an action is a root that can be walked beside others.
pub open spec fn parallel_action(
    infos: Map<CgiUkey, ChunkGroupInfo>,
    action: QueueAction,
) -> bool {
    match action {
        QueueAction::ProcessBlock(root) => parallel_root(infos, root),
        QueueAction::Other(_) => false,
    }
}

/// Two roots with the same key fill the same chunk of the same group, and are not walked side by side.
pub open spec fn key_of(root: ProcessBlock) -> Pair {
    (root.chunk_group_info, root.chunk)
}

fn root_key(root: &ProcessBlock) -> (key: Pair)
    ensures
        key == key_of(*root),
{
    (root.chunk_group_info, root.chunk)
}

/// Whether there is a record of the chunk group of an action, where it is a root.
pub open spec fn known_action(infos: Map<CgiUkey, ChunkGroupInfo>, action: QueueAction) -> bool {
    match action {
        QueueAction::ProcessBlock(root) => infos.contains_key(root.chunk_group_info),
        QueueAction::Other(_) => true,
    }
}

/// Whether a root can be walked beside others.
pub fn is_parallel_root(splitter: &CodeSplitter, root: &ProcessBlock) -> (r: bool)
    requires
        splitter.chunk_group_infos@.contains_key(root.chunk_group_info),
    ensures
        r == parallel_root(splitter.chunk_group_infos@, *root),
{
    let chunk_group_info = splitter.chunk_group_infos.get(&root.chunk_group_info).unwrap();
    chunk_group_info.chunk_loading && chunk_group_info.async_chunks
}

/// Whether the actions at `i` and after it are roots that can be walked side by side.
pub open spec fn side_by_side(
    infos: Map<CgiUkey, ChunkGroupInfo>,
    actions: Seq<QueueAction>,
    i: int,
) -> bool {
    &&& 0 <= i < actions.len() - 1
    &&& parallel_action(infos, actions[i])
    &&& parallel_action(infos, actions[i + 1])
    &&& key_of(actions[i]->ProcessBlock_0) != key_of(actions[i + 1]->ProcessBlock_0)
}

/// Whether two roots follow on each other that can be walked side by side.
pub open spec fn worth_a_batch(
    infos: Map<CgiUkey, ChunkGroupInfo>,
    actions: Seq<QueueAction>,
) -> bool {
    exists|i: int| side_by_side(infos, actions, i)
}

/// Whether two roots before the action at `i` follow on each other that can be walked side by side.
pub open spec fn batch_before(
    infos: Map<CgiUkey, ChunkGroupInfo>,
    actions: Seq<QueueAction>,
    i: int,
) -> bool {
    exists|j: int| j < i - 1 && side_by_side(infos, actions, j)
}

/// Whether there is a record of the chunk group of every root, up to the first two that can be walked
/// side by side.
pub open spec fn known_up_to_batch(
    infos: Map<CgiUkey, ChunkGroupInfo>,
    actions: Seq<QueueAction>,
) -> bool {
    forall|i: int|
        0 <= i < actions.len() && !batch_before(infos, actions, i) ==> known_action(
            infos,
            #[trigger] actions[i],
        )
}

/// Whether there is a record of the chunk group of an action, where it is a root.
fn is_known(splitter: &CodeSplitter, action: &QueueAction) -> (r: bool)
    ensures
        r == known_action(splitter.chunk_group_infos@, *action),
{
    match action {
        QueueAction::ProcessBlock(root) => splitter.chunk_group_infos.contains_key(
            &root.chunk_group_info,
        ),
        QueueAction::Other(_) => true,
    }
}

/// Whether there is a record of the chunk group of every delayed root, up to the first two that can be
/// walked side by side.
pub fn knows_up_to_batch(splitter: &CodeSplitter) -> (r: bool)
    ensures
        r == known_up_to_batch(splitter.chunk_group_infos@, splitter.queue_delayed@),
{
    let ghost infos = splitter.chunk_group_infos@;
    let ghost actions = splitter.queue_delayed@;
    let mut last: Option<Pair> = None;
    let mut i: usize = 0;
    while i < splitter.queue_delayed.len()
        invariant
            i <= actions.len(),
            infos == splitter.chunk_group_infos@,
            actions == splitter.queue_delayed@,
            forall|j: int| 0 <= j < i ==> known_action(infos, #[trigger] actions[j]),
            forall|j: int| j < i - 1 ==> !side_by_side(infos, actions, j),
            last == (if i > 0 && parallel_action(infos, actions[i - 1]) {
                Some(key_of(actions[i - 1]->ProcessBlock_0))
            } else {
                None::<Pair>
            }),
        decreases actions.len() - i,
    {
        let action = splitter.queue_delayed[i];
        if !is_known(splitter, &action) {
            assert(!batch_before(infos, actions, i as int));
            assert(!known_action(infos, actions[i as int]));
            return false;
        }
        let key = match action {
            QueueAction::ProcessBlock(root) if is_parallel_root(splitter, &root) => Some(
                root_key(&root),
            ),
            _ => None,
        };
        if let (Some(a), Some(b)) = (last, key) {
            if a.0 != b.0 || a.1 != b.1 {
                proof {
                    assert(side_by_side(infos, actions, i - 1));
                    assert forall|j: int|
                        0 <= j < actions.len() && !batch_before(
                            infos,
                            actions,
                            j,
                        ) implies known_action(infos, #[trigger] actions[j]) by {
                        assert(j <= i);
                    }
                }
                return true;
            }
        }
        last = key;
        i = i + 1;
    }
    true
}

/// Whether the delayed queue holds a batch: two roots in a row that can be walked side by side.
pub fn has_parallel_batch(splitter: &CodeSplitter) -> (r: bool)
    requires
        known_up_to_batch(splitter.chunk_group_infos@, splitter.queue_delayed@),
    ensures
        r == worth_a_batch(splitter.chunk_group_infos@, splitter.queue_delayed@),
{
    let ghost infos = splitter.chunk_group_infos@;
    let ghost actions = splitter.queue_delayed@;
    let mut keys: FxHashSet<Pair> = FxHashSet::default();
    let mut i: usize = 0;
    while i < splitter.queue_delayed.len()
        invariant
            i <= actions.len(),
            infos == splitter.chunk_group_infos@,
            actions == splitter.queue_delayed@,
            known_up_to_batch(infos, actions),
            forall|j: int| j < i - 1 ==> !side_by_side(infos, actions, j),
            keys@ == (if i > 0 && parallel_action(infos, actions[i - 1]) {
                set![key_of(actions[i - 1]->ProcessBlock_0)]
            } else {
                Set::<Pair>::empty()
            }),
        decreases actions.len() - i,
    {
        let action = splitter.queue_delayed[i];
        assert(known_action(infos, actions[i as int]));
        i = i + 1;
        match action {
            QueueAction::ProcessBlock(root) if is_parallel_root(splitter, &root) => {
                let key = root_key(&root);
                let ghost before = keys@;
                if !fx::insert(&mut keys, key) {
                    keys.clear();
                    fx::insert(&mut keys, key);
                    assert(keys@ =~= set![key]);
                } else {
                    assert(before.len() == 0 ==> keys@ =~= set![key]);
                }
                if fx::len(&keys) >= MIN_PARALLEL_CHUNK_GROUPS {
                    assert(side_by_side(infos, actions, i - 2));
                    return true;
                }
            },
            _ => {
                keys.clear();
            },
        }
    }
    false
}

/// A step of working off the delayed queue.
#[derive(Debug)]
pub enum DelayedStep {
    /// The action is processed by itself.
    Serial(QueueAction),
    /// The roots are walked side by side.
    Parallel(Vec<ProcessBlock>),
}

/// What a step does.
pub enum PlannedStep {
    Serial(QueueAction),
    Parallel(Seq<ProcessBlock>),
}

impl View for DelayedStep {
    type V = PlannedStep;

    open spec fn view(&self) -> PlannedStep {
        match self {
            DelayedStep::Serial(action) => PlannedStep::Serial(*action),
            DelayedStep::Parallel(roots) => PlannedStep::Parallel(roots@),
        }
    }
}

/// How a batch is processed: roots side by side where there are enough, a single one by itself.
pub open spec fn batch_steps(batch: Seq<ProcessBlock>) -> Seq<PlannedStep> {
    if batch.len() == 0 {
        Seq::empty()
    } else if batch.len() < MIN_PARALLEL_CHUNK_GROUPS {
        seq![PlannedStep::Serial(QueueAction::ProcessBlock(batch[0]))]
    } else {
        seq![PlannedStep::Parallel(batch)]
    }
}

/// The keys of the roots in a batch.
pub open spec fn batch_keys(batch: Seq<ProcessBlock>) -> Set<Pair> {
    batch.map_values(|root: ProcessBlock| key_of(root)).to_set()
}

/// The steps that work off a batch that was begun and the actions after it. Roots that can be walked
/// side by side join the batch until one comes whose key is in it already, or another action.
pub open spec fn plan(
    infos: Map<CgiUkey, ChunkGroupInfo>,
    batch: Seq<ProcessBlock>,
    actions: Seq<QueueAction>,
) -> Seq<PlannedStep>
    decreases actions.len(),
{
    if actions.len() == 0 {
        batch_steps(batch)
    } else {
        let action = actions.first();
        let later = actions.drop_first();
        if !parallel_action(infos, action) {
            batch_steps(batch) + seq![PlannedStep::Serial(action)] + plan(
                infos,
                Seq::empty(),
                later,
            )
        } else {
            let root = action->ProcessBlock_0;
            if batch_keys(batch).contains(key_of(root)) {
                batch_steps(batch) + plan(infos, seq![root], later)
            } else {
                plan(infos, batch.push(root), later)
            }
        }
    }
}

/// The statistics after a batch was handed out.
pub open spec fn batch_counted(
    stats: ParallelCodeSplitterStats,
    batch: Seq<ProcessBlock>,
) -> ParallelCodeSplitterStats {
    if batch.len() == 0 {
        stats
    } else if batch.len() < MIN_PARALLEL_CHUNK_GROUPS {
        ParallelCodeSplitterStats {
            serial_actions: counter_sum(stats.serial_actions, batch.len() as int),
            ..stats
        }
    } else {
        let size = counter_sum(0, batch.len() as int);
        ParallelCodeSplitterStats {
            parallel_batches: counter_sum(stats.parallel_batches, 1),
            parallel_jobs: counter_sum(stats.parallel_jobs, batch.len() as int),
            max_batch_size: if stats.max_batch_size < size {
                size
            } else {
                stats.max_batch_size
            },
            ..stats
        }
    }
}

/// A splitter with other statistics.
pub open spec fn with_stats(
    splitter: CodeSplitter,
    stats: ParallelCodeSplitterStats,
) -> CodeSplitter {
    CodeSplitter {
        parallel_state: ParallelCodeSplitterState { stats, ..splitter.parallel_state },
        ..splitter
    }
}

/// Hands a batch out, and empties it: roots that are enough to be walked side by side, or a single
/// root to be processed by itself, or nothing.
pub fn flush_batch(splitter: &mut CodeSplitter, batch: &mut Vec<ProcessBlock>) -> (step: Option<
    DelayedStep,
>)
    ensures
        final(batch)@.len() == 0,
        match step {
            Some(step) => batch_steps(old(batch)@) == seq![step@],
            None => old(batch)@.len() == 0,
        },
        *final(splitter) == with_stats(
            *old(splitter),
            batch_counted(old(splitter).parallel_state.stats, old(batch)@),
        ),
{
    if batch.len() == 0 {
        return None;
    }
    let mut roots: Vec<ProcessBlock> = Vec::new();
    std::mem::swap(&mut roots, batch);
    let stats = &mut splitter.parallel_state.stats;
    if roots.len() < MIN_PARALLEL_CHUNK_GROUPS {
        stats.serial_actions = counter_add(stats.serial_actions, roots.len());
        let step = DelayedStep::Serial(QueueAction::ProcessBlock(roots[0]));
        assert(batch_steps(old(batch)@) =~= seq![step@]);
        return Some(step);
    }
    stats.parallel_batches = counter_add(stats.parallel_batches, 1);
    stats.parallel_jobs = counter_add(stats.parallel_jobs, roots.len());
    let size: u32 = count_of(roots.len());
    if stats.max_batch_size < size {
        stats.max_batch_size = size;
    }
    let step = DelayedStep::Parallel(roots);
    assert(batch_steps(old(batch)@) =~= seq![step@]);
    Some(step)
}

/// Whether `after` is a splitter with one more action on the queue of what is processed at once.
pub open spec fn action_queued(
    splitter: CodeSplitter,
    action: QueueAction,
    after: CodeSplitter,
) -> bool {
    &&& after.queue@ == splitter.queue@.push(action)
    &&& after == CodeSplitter { queue: after.queue, ..splitter }
}

/// Puts an action on the queue of what is processed at once. Whoever runs the queue then works it off.
pub fn process_serial_action(splitter: &mut CodeSplitter, action: QueueAction)
    ensures
        action_queued(*old(splitter), action, *final(splitter)),
{
    splitter.queue.push(action);
}

/// A delayed queue that is being worked off. What is done about a step may change the splitter before
/// the next one is taken.
pub struct DelayedQueue {
    actions: Vec<QueueAction>,
    next: usize,
    batch: Vec<ProcessBlock>,
    keys: FxHashSet<Pair>,
    waiting: Option<QueueAction>,
}

impl DelayedQueue {
    /// The batch holds no key twice, and the keys are those of the batch. An action that waits for a
    /// batch to be processed has an empty batch behind it.
    pub closed spec fn wf(&self) -> bool {
        &&& self.next <= self.actions@.len()
        &&& self.keys@ == batch_keys(self.batch@)
        &&& self.waiting is Some ==> self.batch@.len() == 0
    }

    /// The action that waits for a batch to be processed.
    pub closed spec fn waiting(&self) -> Option<QueueAction> {
        self.waiting
    }

    /// The roots that are in the batch.
    pub closed spec fn batch(&self) -> Seq<ProcessBlock> {
        self.batch@
    }

    /// The actions that were not looked at.
    pub closed spec fn rest(&self) -> Seq<QueueAction> {
        self.actions@.skip(self.next as int)
    }

    /// The steps that are left, as things stand.
    pub open spec fn planned(&self, infos: Map<CgiUkey, ChunkGroupInfo>) -> Seq<PlannedStep> {
        match self.waiting() {
            Some(action) => seq![PlannedStep::Serial(action)] + plan(
                infos,
                self.batch(),
                self.rest(),
            ),
            None => plan(infos, self.batch(), self.rest()),
        }
    }

    /// The batch that the next step processes: none where an action is processed that cannot join
    /// one.
    pub open spec fn next_batch(&self, infos: Map<CgiUkey, ChunkGroupInfo>) -> Seq<ProcessBlock> {
        if self.waiting() is Some {
            Seq::empty()
        } else {
            full_batch(infos, self.batch(), self.rest())
        }
    }

    /// The actions that were not handed out.
    pub open spec fn outstanding(&self) -> Seq<QueueAction> {
        (match self.waiting() {
            Some(action) => seq![action],
            None => Seq::empty(),
        }) + as_actions(self.batch()) + self.rest()
    }
}

/// A batch once all the roots have joined it that can.
pub open spec fn full_batch(
    infos: Map<CgiUkey, ChunkGroupInfo>,
    batch: Seq<ProcessBlock>,
    actions: Seq<QueueAction>,
) -> Seq<ProcessBlock>
    decreases actions.len(),
{
    if actions.len() == 0 || !parallel_action(infos, actions.first()) || batch_keys(batch).contains(
        key_of(actions.first()->ProcessBlock_0),
    ) {
        batch
    } else {
        full_batch(infos, batch.push(actions.first()->ProcessBlock_0), actions.drop_first())
    }
}

/// Whether there is a record of the chunk group of every root up to the action that ends the batch.
pub open spec fn known_up_to_step(
    infos: Map<CgiUkey, ChunkGroupInfo>,
    batch: Seq<ProcessBlock>,
    actions: Seq<QueueAction>,
) -> bool {
    forall|i: int|
        0 <= i < actions.len() && batch.len() + i <= full_batch(infos, batch, actions).len()
            ==> known_action(infos, #[trigger] actions[i])
}

/// A batch loses no root on the way.
pub(crate) proof fn lemma_full_batch_grows(
    infos: Map<CgiUkey, ChunkGroupInfo>,
    batch: Seq<ProcessBlock>,
    actions: Seq<QueueAction>,
)
    ensures
        full_batch(infos, batch, actions).len() >= batch.len(),
    decreases actions.len(),
{
    if actions.len() > 0 && parallel_action(infos, actions.first()) && !batch_keys(batch).contains(
        key_of(actions.first()->ProcessBlock_0),
    ) {
        lemma_full_batch_grows(
            infos,
            batch.push(actions.first()->ProcessBlock_0),
            actions.drop_first(),
        );
    }
}

/// Roots as actions.
pub open spec fn as_actions(batch: Seq<ProcessBlock>) -> Seq<QueueAction> {
    batch.map_values(|root: ProcessBlock| QueueAction::ProcessBlock(root))
}

/// The actions that a step processes.
pub open spec fn step_actions(step: PlannedStep) -> Seq<QueueAction> {
    match step {
        PlannedStep::Serial(action) => seq![action],
        PlannedStep::Parallel(roots) => as_actions(roots),
    }
}

/// Whether `after` is what a step leaves of a queue. An action that has waited is gone. Otherwise the
/// roots that join the batch are gone with it, and so is the action that ends it: a root that begins the
/// next batch, or an action that waits for the batch to be processed and is processed at once where there
/// is none. What comes after that was not looked at.
pub open spec fn left_behind(
    infos: Map<CgiUkey, ChunkGroupInfo>,
    queue: DelayedQueue,
    after: DelayedQueue,
) -> bool {
    let rest = queue.rest();
    let full = queue.next_batch(infos);
    let k = full.len() - queue.batch().len();
    if queue.waiting() is Some {
        &&& after.waiting() is None
        &&& after.batch() == queue.batch()
        &&& after.rest() == rest
    } else if k == rest.len() {
        &&& after.waiting() is None
        &&& after.batch() == Seq::<ProcessBlock>::empty()
        &&& after.rest() == Seq::<QueueAction>::empty()
    } else if parallel_action(infos, rest[k]) {
        &&& after.waiting() is None
        &&& after.batch() == seq![rest[k]->ProcessBlock_0]
        &&& after.rest() == rest.skip(k + 1)
    } else {
        &&& after.waiting() == if full.len() > 0 {
            Some(rest[k])
        } else {
            None
        }
        &&& after.batch() == Seq::<ProcessBlock>::empty()
        &&& after.rest() == rest.skip(k + 1)
    }
}

/// Whether `step` is the next step of a queue, where there is one, `after` the queue without it, and
/// `splitter_after` the splitter with the step counted.
pub open spec fn step_taken(
    splitter: CodeSplitter,
    queue: DelayedQueue,
    step: Option<DelayedStep>,
    after: DelayedQueue,
    splitter_after: CodeSplitter,
) -> bool {
    let infos = splitter.chunk_group_infos@;
    let planned = queue.planned(infos);
    &&& match step {
        Some(step) => {
            &&& planned.len() > 0
            &&& step@ == planned.first()
            &&& after.planned(infos) == planned.drop_first()
            &&& step_actions(step@) + after.outstanding() == queue.outstanding()
        },
        None => planned.len() == 0 && after.planned(infos).len() == 0 && queue.outstanding().len()
            == 0 && after.outstanding().len() == 0,
    }
    &&& left_behind(infos, queue, after)
    &&& splitter_after == with_stats(
        splitter,
        batch_counted(splitter.parallel_state.stats, queue.next_batch(infos)),
    )
}

proof fn lemma_batch_keys_push(batch: Seq<ProcessBlock>, root: ProcessBlock)
    ensures
        batch_keys(batch.push(root)) == batch_keys(batch).insert(key_of(root)),
        as_actions(batch.push(root)) == as_actions(batch).push(QueueAction::ProcessBlock(root)),
{
    broadcast use vstd::seq_lib::group_seq_properties;

    let keys = batch.map_values(|root: ProcessBlock| key_of(root));
    assert(batch.push(root).map_values(|root: ProcessBlock| key_of(root)) =~= keys.push(
        key_of(root),
    ));
    assert(keys.push(key_of(root)).to_set() =~= keys.to_set().insert(key_of(root)));
    assert(as_actions(batch.push(root)) =~= as_actions(batch).push(
        QueueAction::ProcessBlock(root),
    ));
}

proof fn lemma_batch_keys_empty()
    ensures
        batch_keys(Seq::empty()) == Set::<Pair>::empty(),
        as_actions(Seq::empty()) == Seq::<QueueAction>::empty(),
{
    assert(Seq::<ProcessBlock>::empty().map_values(|root: ProcessBlock| key_of(root))
        =~= Seq::empty());
    assert(batch_keys(Seq::empty()) =~= Set::<Pair>::empty());
    assert(as_actions(Seq::empty()) =~= Seq::empty());
}

/// The actions of the steps of a batch are its roots.
proof fn lemma_batch_steps_actions(batch: Seq<ProcessBlock>)
    ensures
        batch.len() > 0 ==> batch_steps(batch).len() == 1 && step_actions(batch_steps(batch)[0])
            == as_actions(batch),
{
    if batch.len() == 1 {
        assert(as_actions(batch) =~= seq![QueueAction::ProcessBlock(batch[0])]);
    }
}

impl DelayedQueue {
    /// Whether there is a record of the chunk group of every root that the next step looks at.
    pub fn knows_next(&self, splitter: &CodeSplitter) -> (r: bool)
        requires
            self.wf(),
        ensures
            r == (self.waiting() is None ==> known_up_to_step(
                splitter.chunk_group_infos@,
                self.batch(),
                self.rest(),
            )),
    {
        if self.waiting.is_some() {
            return true;
        }
        let ghost infos = splitter.chunk_group_infos@;
        let ghost rest = self.rest();
        let ghost mut grown = self.batch@;
        let mut keys: FxHashSet<Pair> = FxHashSet::default();
        let mut i: usize = 0;
        proof {
            lemma_batch_keys_empty();
            assert(self.batch@.take(0) =~= Seq::empty());
        }
        while i < self.batch.len()
            invariant
                i <= self.batch@.len(),
                keys@ == batch_keys(self.batch@.take(i as int)),
            decreases self.batch.len() - i,
        {
            let key = root_key(&self.batch[i]);
            fx::insert(&mut keys, key);
            proof {
                lemma_batch_keys_push(self.batch@.take(i as int), self.batch@[i as int]);
                assert(self.batch@.take(i + 1) =~= self.batch@.take(i as int).push(
                    self.batch@[i as int],
                ));
            }
            i = i + 1;
        }
        assert(self.batch@.take(i as int) =~= self.batch@);
        assert(rest.skip(0) =~= rest);
        let mut next: usize = self.next;
        while next < self.actions.len()
            invariant
                self.wf(),
                self.waiting is None,
                infos == splitter.chunk_group_infos@,
                rest == self.rest(),
                self.next <= next <= self.actions@.len(),
                keys@ == batch_keys(grown),
                grown.len() == self.batch@.len() + next - self.next,
                full_batch(infos, grown, rest.skip(next - self.next)) == full_batch(
                    infos,
                    self.batch@,
                    rest,
                ),
                forall|j: int|
                    0 <= j < next - self.next ==> known_action(infos, #[trigger] rest[j]),
            decreases self.actions.len() - next,
        {
            let action = self.actions[next];
            let ghost k = next - self.next;
            let ghost later = rest.skip(k);
            proof {
                assert(rest[k] == action);
                assert(later[0] == action);
                lemma_full_batch_grows(infos, grown, later);
            }
            if !is_known(splitter, &action) {
                assert(!known_action(infos, rest[k]));
                return false;
            }
            match action {
                QueueAction::ProcessBlock(root) if is_parallel_root(splitter, &root) => {
                    let key = root_key(&root);
                    if !fx::insert(&mut keys, key) {
                        return true;
                    }
                    proof {
                        lemma_batch_keys_push(grown, root);
                        grown = grown.push(root);
                        assert(later.drop_first() =~= rest.skip(k + 1));
                    }
                },
                _ => {
                    return true;
                },
            }
            next = next + 1;
        }
        true
    }

    /// Takes the next step out of the queue. There is none once everything was handed out.
    pub fn next_step(&mut self, splitter: &mut CodeSplitter) -> (step: Option<DelayedStep>)
        requires
            old(self).wf(),
            old(self).waiting() is None ==> known_up_to_step(
                old(splitter).chunk_group_infos@,
                old(self).batch(),
                old(self).rest(),
            ),
        ensures
            final(self).wf(),
            step_taken(*old(splitter), *old(self), step, *final(self), *final(splitter)),
    {
        let ghost infos = splitter.chunk_group_infos@;
        let ghost stats = splitter.parallel_state.stats;
        proof {
            lemma_batch_keys_empty();
        }
        if let Some(action) = self.waiting {
            self.waiting = None;
            let step = DelayedStep::Serial(action);
            assert(old(self).planned(infos).drop_first() =~= self.planned(infos));
            assert(step_actions(step@) + self.outstanding() =~= old(self).outstanding());
            return Some(step);
        }
        assert(self.rest() =~= old(self).rest().skip(0));
        while self.next < self.actions.len()
            invariant
                self.wf(),
                self.waiting is None,
                infos == splitter.chunk_group_infos@,
                *splitter == *old(splitter),
                stats == splitter.parallel_state.stats,
                known_up_to_step(infos, self.batch@, self.rest()),
                plan(infos, self.batch@, self.rest()) == old(self).planned(infos),
                full_batch(infos, self.batch@, self.rest()) == old(self).next_batch(infos),
                as_actions(self.batch@) + self.rest() == old(self).outstanding(),
                old(self).waiting() is None,
                self.batch@.len() >= old(self).batch().len(),
                self.batch@.len() - old(self).batch().len() <= old(self).rest().len(),
                self.rest() == old(self).rest().skip(
                    self.batch@.len() - old(self).batch().len(),
                ),
                batch_keys(Seq::empty()) == Set::<Pair>::empty(),
                as_actions(Seq::empty()) == Seq::<QueueAction>::empty(),
            decreases self.actions.len() - self.next,
        {
            let ghost batch = self.batch@;
            let ghost rest = self.rest();
            let action = self.actions[self.next];
            assert(rest[0] == action);
            self.next = self.next + 1;
            let ghost k = batch.len() - old(self).batch().len();
            assert(self.rest() =~= rest.drop_first());
            assert(self.rest() =~= old(self).rest().skip(k + 1));
            assert(old(self).rest()[k] == action);
            proof {
                lemma_full_batch_grows(infos, batch, rest);
                assert(known_action(infos, rest[0]));
            }
            match action {
                QueueAction::ProcessBlock(root) if is_parallel_root(splitter, &root) => {
                    let key = root_key(&root);
                    if fx::contains(&self.keys, key) {
                        let step = flush_batch(splitter, &mut self.batch);
                        self.keys.clear();
                        fx::insert(&mut self.keys, key);
                        self.batch.push(root);
                        proof {
                            assert(self.batch@ =~= seq![root]);
                            assert(Seq::empty().push(root) =~= seq![root]);
                            lemma_batch_keys_push(Seq::empty(), root);
                            lemma_batch_steps_actions(batch);
                            assert(batch_keys(batch).contains(key));
                            assert(batch.len() > 0);
                            assert(old(self).planned(infos).drop_first() =~= plan(
                                infos,
                                seq![root],
                                self.rest(),
                            ));
                            assert(as_actions(batch) + self.outstanding()
                                =~= old(self).outstanding());
                        }
                        return step;
                    }
                    fx::insert(&mut self.keys, key);
                    self.batch.push(root);
                    proof {
                        lemma_batch_keys_push(batch, root);
                        assert(as_actions(self.batch@) + self.rest() =~= as_actions(batch) + rest);
                        assert forall|i: int|
                            0 <= i < self.rest().len() && self.batch@.len() + i <= full_batch(
                                infos,
                                self.batch@,
                                self.rest(),
                            ).len() implies known_action(infos, #[trigger] self.rest()[i]) by {
                            assert(self.rest()[i] == rest[i + 1]);
                        }
                    }
                },
                _ => {
                    let step = flush_batch(splitter, &mut self.batch);
                    self.keys.clear();
                    proof {
                        assert(self.batch@ =~= Seq::empty());
                        lemma_batch_steps_actions(batch);
                    }
                    match step {
                        Some(step) => {
                            self.waiting = Some(action);
                            proof {
                                assert(old(self).planned(infos).drop_first()
                                    =~= self.planned(infos));
                                assert(as_actions(batch) + self.outstanding()
                                    =~= old(self).outstanding());
                            }
                            return Some(step);
                        },
                        None => {
                            let step = DelayedStep::Serial(action);
                            proof {
                                assert(batch =~= Seq::empty());
                                assert(old(self).planned(infos).drop_first()
                                    =~= self.planned(infos));
                                assert(step_actions(step@) + self.outstanding()
                                    =~= old(self).outstanding());
                            }
                            return Some(step);
                        },
                    }
                },
            }
        }
        let ghost batch = self.batch@;
        let step = flush_batch(splitter, &mut self.batch);
        self.keys.clear();
        proof {
            assert(self.rest() =~= Seq::empty());
            assert(self.batch@ =~= Seq::empty());
            lemma_batch_steps_actions(batch);
            assert(as_actions(batch) + Seq::<QueueAction>::empty() =~= as_actions(batch));
            if step is Some {
                assert(old(self).planned(infos).drop_first() =~= self.planned(infos));
                assert(as_actions(batch) + self.outstanding() =~= old(self).outstanding());
            }
        }
        step
    }
}

/// `rayon::current_num_threads`: how many threads the pool has that the calling thread belongs to, or
/// else the global pool, which this starts. The number is up to the machine and to how the pool was
/// set up, so nothing is claimed of it. Where the machine cannot start the global pool, the call panics.
pub assume_specification[ rayon::current_num_threads ]() -> (n: usize);

/// Takes the delayed queue, where that many threads can work it off with roots side by side: parallel
/// splitting is on, there is more than one thread, and the queue holds a batch. Otherwise nothing
/// changes. Only roots that are delayed already are taken: what processing them delays is left for
/// the next round.
pub fn take_delayed_queue(splitter: &mut CodeSplitter, num_threads: usize) -> (queue: Option<
    DelayedQueue,
>)
    requires
        old(splitter).parallel_state.enabled && num_threads > 1
            && old(splitter).queue_delayed@.len() >= MIN_PARALLEL_CHUNK_GROUPS
            ==> known_up_to_batch(
            old(splitter).chunk_group_infos@,
            old(splitter).queue_delayed@,
        ),
    ensures
        queue is Some <==> {
            &&& old(splitter).parallel_state.enabled
            &&& num_threads > 1
            &&& worth_a_batch(old(splitter).chunk_group_infos@, old(splitter).queue_delayed@)
        },
        match queue {
            Some(queue) => taken(*old(splitter), *final(splitter), queue),
            None => *final(splitter) == *old(splitter),
        },
{
    if !splitter.parallel_state.enabled || num_threads <= 1 || splitter.queue_delayed.len()
        < MIN_PARALLEL_CHUNK_GROUPS || !has_parallel_batch(splitter) {
        return None;
    }
    let mut actions: Vec<QueueAction> = Vec::new();
    std::mem::swap(&mut actions, &mut splitter.queue_delayed);
    let stats = &mut splitter.parallel_state.stats;
    stats.delayed_rounds = counter_add(stats.delayed_rounds, 1);
    stats.delayed_actions = counter_add(stats.delayed_actions, actions.len());
    let queue = DelayedQueue {
        actions,
        next: 0,
        batch: Vec::new(),
        keys: FxHashSet::default(),
        waiting: None,
    };
    proof {
        lemma_batch_keys_empty();
        assert(queue.batch@ =~= Seq::empty());
        assert(queue.rest() =~= old(splitter).queue_delayed@);
        assert(queue.outstanding() =~= old(splitter).queue_delayed@);
    }
    Some(queue)
}

/// Whether `queue` is the delayed queue of a splitter, from its beginning, and `after` the splitter
/// without it.
pub open spec fn taken(before: CodeSplitter, after: CodeSplitter, queue: DelayedQueue) -> bool {
    let stats = before.parallel_state.stats;
    &&& queue.wf()
    &&& queue.waiting() is None
    &&& queue.batch() == Seq::<ProcessBlock>::empty()
    &&& queue.rest() == before.queue_delayed@
    &&& queue.outstanding() == before.queue_delayed@
    &&& after.queue_delayed@ == Seq::<QueueAction>::empty()
    &&& after == with_stats(
        CodeSplitter { queue_delayed: after.queue_delayed, ..before },
        ParallelCodeSplitterStats {
            delayed_rounds: counter_sum(stats.delayed_rounds, 1),
            delayed_actions: counter_sum(
                stats.delayed_actions,
                before.queue_delayed@.len() as int,
            ),
            ..stats
        },
    )
}

/// Whether the pool can answer that it has more than one thread.
pub open spec fn may_have_threads() -> bool {
    exists|num_threads: usize|
        num_threads > 1 && #[trigger] call_ensures(rayon::current_num_threads, (), num_threads)
}

/// Takes the delayed queue, where the threads of the current pool can work it off with roots side by
/// side. How many threads there are is up to the pool, which is asked where parallel splitting is on; the
/// rest is as in `take_delayed_queue` with that number.
pub fn try_process_delayed_queue(splitter: &mut CodeSplitter) -> (queue: Option<DelayedQueue>)
    requires
        old(splitter).parallel_state.enabled && may_have_threads() && old(
            splitter,
        ).queue_delayed@.len() >= MIN_PARALLEL_CHUNK_GROUPS ==> known_up_to_batch(
            old(splitter).chunk_group_infos@,
            old(splitter).queue_delayed@,
        ),
    ensures
        queue is Some ==> {
            &&& old(splitter).parallel_state.enabled
            &&& worth_a_batch(old(splitter).chunk_group_infos@, old(splitter).queue_delayed@)
        },
        old(splitter).parallel_state.enabled ==> exists|num_threads: usize|
            {
                &&& #[trigger] call_ensures(rayon::current_num_threads, (), num_threads)
                &&& queue is Some <==> num_threads > 1 && worth_a_batch(
                    old(splitter).chunk_group_infos@,
                    old(splitter).queue_delayed@,
                )
            },
        match queue {
            Some(queue) => taken(*old(splitter), *final(splitter), queue),
            None => *final(splitter) == *old(splitter),
        },
{
    if !splitter.parallel_state.enabled {
        return None;
    }
    let count_threads = rayon::current_num_threads;
    let num_threads: usize = count_threads();
    take_delayed_queue(splitter, num_threads)
}

} // verus!
