use std::sync::Arc;

use parallel_code_splitter::graph::DependenciesBlockIdentifier;
use parallel_code_splitter::mask::OrdinalMask;
use parallel_code_splitter::queue::{ProcessBlock, QueueAction};
use parallel_code_splitter::schedule::{
    flush_batch, has_parallel_batch, is_parallel_root, knows_up_to_batch, process_serial_action,
    take_delayed_queue, try_process_delayed_queue, DelayedStep,
};
use parallel_code_splitter::splitter::{ChunkGroupInfo, CodeSplitter};

fn info(chunk_loading: bool, async_chunks: bool) -> ChunkGroupInfo {
    ChunkGroupInfo {
        chunk_group: 1,
        chunk_loading,
        async_chunks,
        runtime: 1,
        min_available_modules: Arc::new(OrdinalMask::new()),
        skipped_items: vec![],
        skipped_module_connections: vec![],
    }
}

fn root(chunk_group_info: u64, chunk: u64) -> ProcessBlock {
    ProcessBlock {
        block: DependenciesBlockIdentifier::AsyncDependenciesBlock(chunk),
        module: 1,
        chunk_group_info,
        chunk,
    }
}

fn block(chunk_group_info: u64, chunk: u64) -> QueueAction {
    QueueAction::ProcessBlock(root(chunk_group_info, chunk))
}

/// Groups 1 to 4 can be walked side by side, 8 and 9 cannot.
fn splitter(queue_delayed: Vec<QueueAction>) -> CodeSplitter {
    let mut splitter = CodeSplitter::default();
    splitter.parallel_state.enabled = true;
    for group in 1..5 {
        splitter.chunk_group_infos.insert(group, info(true, true));
    }
    splitter.chunk_group_infos.insert(8, info(true, false));
    splitter.chunk_group_infos.insert(9, info(false, true));
    splitter.queue_delayed = queue_delayed;
    splitter
}

/// The steps of a delayed queue: the actions of each, and whether they are walked side by side.
fn steps(splitter: &mut CodeSplitter) -> Vec<(bool, Vec<QueueAction>)> {
    let mut queue = take_delayed_queue(splitter, 2).unwrap();
    let mut steps = vec![];
    while let Some(step) = queue.next_step(splitter) {
        steps.push(match step {
            DelayedStep::Serial(action) => (false, vec![action]),
            DelayedStep::Parallel(roots) => {
                (true, roots.into_iter().map(QueueAction::ProcessBlock).collect())
            }
        });
    }
    assert!(queue.next_step(splitter).is_none());
    steps
}

#[test]
fn roots_of_groups_that_load_chunks_asynchronously_are_parallel() {
    let splitter = splitter(vec![]);
    assert!(is_parallel_root(&splitter, &root(1, 1)));
    assert!(!is_parallel_root(&splitter, &root(8, 1)));
    assert!(!is_parallel_root(&splitter, &root(9, 1)));
}

#[test]
fn two_roots_in_a_row_with_different_keys_are_a_batch() {
    assert!(has_parallel_batch(&splitter(vec![block(1, 1), block(2, 1)])));
    assert!(has_parallel_batch(&splitter(vec![block(1, 1), block(1, 2)])));
    assert!(has_parallel_batch(&splitter(vec![block(1, 1), block(1, 1), block(2, 2)])));
    assert!(has_parallel_batch(&splitter(vec![
        QueueAction::Other(5),
        block(8, 1),
        block(1, 1),
        block(2, 2),
    ])));
}

#[test]
fn other_actions_and_equal_keys_break_a_batch() {
    assert!(!has_parallel_batch(&splitter(vec![])));
    assert!(!has_parallel_batch(&splitter(vec![block(1, 1)])));
    assert!(!has_parallel_batch(&splitter(vec![block(1, 1), block(1, 1)])));
    assert!(!has_parallel_batch(&splitter(vec![
        block(1, 1),
        QueueAction::Other(5),
        block(2, 2),
        block(9, 9),
        block(3, 3),
        block(3, 3),
    ])));
}

#[test]
fn a_batch_is_found_before_a_root_without_a_record() {
    assert!(has_parallel_batch(&splitter(vec![block(1, 1), block(2, 2), block(77, 3)])));
}

#[test]
fn the_queue_is_left_alone_where_it_is_not_worth_it() {
    let batch = vec![block(1, 1), block(2, 2)];
    let mut off = splitter(batch.clone());
    off.parallel_state.enabled = false;
    assert!(take_delayed_queue(&mut off, 8).is_none());
    assert!(try_process_delayed_queue(&mut off).is_none());
    assert_eq!(off.queue_delayed, batch);
    let mut alone = splitter(batch.clone());
    assert!(take_delayed_queue(&mut alone, 1).is_none());
    assert!(take_delayed_queue(&mut alone, 0).is_none());
    assert_eq!(alone.queue_delayed, batch);
    assert_eq!(alone.parallel_state.stats.delayed_rounds, 0);
    let mut short = splitter(vec![block(1, 1)]);
    assert!(take_delayed_queue(&mut short, 8).is_none());
    let mut serial = splitter(vec![block(1, 1), block(1, 1)]);
    assert!(take_delayed_queue(&mut serial, 8).is_none());
    assert_eq!(serial.queue_delayed.len(), 2);
}

#[test]
fn taking_the_queue_empties_and_counts_it() {
    let mut splitter = splitter(vec![block(1, 1), block(2, 2), QueueAction::Other(3)]);
    assert!(take_delayed_queue(&mut splitter, 2).is_some());
    assert!(splitter.queue_delayed.is_empty());
    assert_eq!(splitter.parallel_state.stats.delayed_rounds, 1);
    assert_eq!(splitter.parallel_state.stats.delayed_actions, 3);
}

#[test]
fn the_threads_of_the_pool_decide() {
    let several = rayon::ThreadPoolBuilder::new().num_threads(3).build().unwrap();
    let taken = several.install(|| {
        let mut splitter = splitter(vec![block(1, 1), block(2, 2)]);
        try_process_delayed_queue(&mut splitter).is_some() && splitter.queue_delayed.is_empty()
    });
    assert!(taken);
    let single = rayon::ThreadPoolBuilder::new().num_threads(1).build().unwrap();
    let left = single.install(|| {
        let mut splitter = splitter(vec![block(1, 1), block(2, 2)]);
        try_process_delayed_queue(&mut splitter).is_none() && splitter.queue_delayed.len() == 2
    });
    assert!(left);
}

#[test]
fn roots_join_a_batch_until_a_key_comes_again() {
    let mut splitter = splitter(vec![
        block(1, 1),
        block(2, 2),
        block(3, 3),
        block(2, 2),
        block(1, 1),
        block(1, 1),
    ]);
    assert_eq!(
        steps(&mut splitter),
        vec![
            (true, vec![block(1, 1), block(2, 2), block(3, 3)]),
            (true, vec![block(2, 2), block(1, 1)]),
            (false, vec![block(1, 1)]),
        ]
    );
    let stats = &splitter.parallel_state.stats;
    assert_eq!(stats.parallel_batches, 2);
    assert_eq!(stats.parallel_jobs, 5);
    assert_eq!(stats.serial_actions, 1);
    assert_eq!(stats.max_batch_size, 3);
}

#[test]
fn other_actions_are_processed_in_their_place() {
    let actions = vec![
        QueueAction::Other(1),
        block(1, 1),
        block(8, 8),
        block(1, 1),
        block(2, 2),
        QueueAction::Other(2),
        QueueAction::Other(3),
        block(3, 3),
    ];
    let mut splitter = splitter(actions.clone());
    let steps = steps(&mut splitter);
    assert_eq!(
        steps,
        vec![
            (false, vec![QueueAction::Other(1)]),
            (false, vec![block(1, 1)]),
            (false, vec![block(8, 8)]),
            (true, vec![block(1, 1), block(2, 2)]),
            (false, vec![QueueAction::Other(2)]),
            (false, vec![QueueAction::Other(3)]),
            (false, vec![block(3, 3)]),
        ]
    );
    let processed: Vec<QueueAction> = steps.into_iter().flat_map(|(_, step)| step).collect();
    assert_eq!(processed, actions);
    assert_eq!(splitter.parallel_state.stats.serial_actions, 2);
    assert_eq!(splitter.parallel_state.stats.max_batch_size, 2);
}

#[test]
fn what_a_step_changes_counts_for_the_next() {
    let mut splitter = splitter(vec![
        block(1, 1),
        block(2, 2),
        QueueAction::Other(1),
        block(3, 3),
        block(4, 4),
    ]);
    let mut queue = take_delayed_queue(&mut splitter, 2).unwrap();
    assert!(matches!(queue.next_step(&mut splitter), Some(DelayedStep::Parallel(_))));
    splitter.chunk_group_infos.get_mut(&3).unwrap().async_chunks = false;
    assert!(matches!(
        queue.next_step(&mut splitter),
        Some(DelayedStep::Serial(QueueAction::Other(1)))
    ));
    let Some(DelayedStep::Serial(third)) = queue.next_step(&mut splitter) else {
        panic!("the third root is not parallel any more");
    };
    assert_eq!(third, block(3, 3));
    let Some(DelayedStep::Serial(fourth)) = queue.next_step(&mut splitter) else {
        panic!("the fourth root is alone");
    };
    assert_eq!(fourth, block(4, 4));
    assert!(queue.next_step(&mut splitter).is_none());
}

#[test]
fn a_serial_action_goes_onto_the_queue() {
    let mut splitter = splitter(vec![]);
    splitter.queue.push(QueueAction::Other(1));
    process_serial_action(&mut splitter, block(1, 1));
    assert_eq!(splitter.queue, vec![QueueAction::Other(1), block(1, 1)]);
}

#[test]
fn a_round_counts_batches_jobs_and_lone_roots() {
    let mut splitter = splitter(vec![
        block(1, 1),
        block(1, 1),
        block(2, 2),
        block(9, 3),
        block(1, 1),
    ]);
    assert_eq!(
        steps(&mut splitter),
        vec![
            (false, vec![block(1, 1)]),
            (true, vec![block(1, 1), block(2, 2)]),
            (false, vec![block(9, 3)]),
            (false, vec![block(1, 1)]),
        ]
    );
    let stats = &splitter.parallel_state.stats;
    assert_eq!(stats.delayed_rounds, 1);
    assert_eq!(stats.delayed_actions, 5);
    assert_eq!(stats.parallel_batches, 1);
    assert_eq!(stats.parallel_jobs, 2);
    assert_eq!(stats.max_batch_size, 2);
    assert_eq!(stats.serial_actions, 2);
}

#[test]
fn an_action_that_waits_is_processed_before_the_next_root_is_looked_at() {
    let mut splitter = splitter(vec![block(1, 1), block(2, 2), block(8, 8), block(3, 3)]);
    let mut queue = take_delayed_queue(&mut splitter, 2).unwrap();
    assert!(matches!(queue.next_step(&mut splitter), Some(DelayedStep::Parallel(_))));
    assert_eq!(splitter.parallel_state.stats.serial_actions, 0);
    assert!(matches!(queue.next_step(&mut splitter), Some(DelayedStep::Serial(_))));
    assert_eq!(splitter.parallel_state.stats.serial_actions, 0);
    splitter.chunk_group_infos.get_mut(&3).unwrap().chunk_loading = false;
    assert!(matches!(queue.next_step(&mut splitter), Some(DelayedStep::Serial(_))));
    assert_eq!(splitter.parallel_state.stats.serial_actions, 0);
    assert!(queue.next_step(&mut splitter).is_none());
}

#[test]
fn roots_without_a_record_are_noticed_where_they_are_looked_at() {
    assert!(knows_up_to_batch(&splitter(vec![])));
    assert!(knows_up_to_batch(&splitter(vec![QueueAction::Other(1), block(8, 8), block(1, 1)])));
    assert!(knows_up_to_batch(&splitter(vec![block(1, 1), block(2, 2), block(77, 3)])));
    assert!(!knows_up_to_batch(&splitter(vec![block(77, 3)])));
    assert!(!knows_up_to_batch(&splitter(vec![block(1, 1), block(1, 1), block(77, 3)])));

    let mut splitter =
        splitter(vec![block(1, 1), block(2, 2), block(1, 1), block(77, 3), block(3, 3)]);
    let mut queue = take_delayed_queue(&mut splitter, 2).unwrap();
    assert!(queue.knows_next(&splitter));
    assert!(matches!(queue.next_step(&mut splitter), Some(DelayedStep::Parallel(_))));
    assert!(!queue.knows_next(&splitter));
    splitter.chunk_group_infos.insert(77, info(true, false));
    assert!(queue.knows_next(&splitter));
    assert!(matches!(queue.next_step(&mut splitter), Some(DelayedStep::Serial(_))));
    splitter.chunk_group_infos.clear();
    assert!(queue.knows_next(&splitter));
    assert!(matches!(queue.next_step(&mut splitter), Some(DelayedStep::Serial(_))));
    assert!(!queue.knows_next(&splitter));
}

#[test]
fn a_batch_is_handed_out_by_its_size() {
    let mut splitter = splitter(vec![]);
    let mut batch = vec![];
    assert!(flush_batch(&mut splitter, &mut batch).is_none());
    batch.push(root(1, 1));
    let Some(DelayedStep::Serial(alone)) = flush_batch(&mut splitter, &mut batch) else {
        panic!("a single root is processed by itself");
    };
    assert_eq!(alone, block(1, 1));
    assert!(batch.is_empty());
    for size in [3, 2] {
        batch = (0..size).map(|chunk| root(1, chunk)).collect();
        let Some(DelayedStep::Parallel(roots)) = flush_batch(&mut splitter, &mut batch) else {
            panic!("several roots are walked side by side");
        };
        assert_eq!(roots.len() as u64, size);
        assert!(batch.is_empty());
    }
    let stats = &splitter.parallel_state.stats;
    assert_eq!((stats.parallel_batches, stats.parallel_jobs), (2, 5));
    assert_eq!((stats.serial_actions, stats.max_batch_size), (1, 3));
}

#[test]
fn a_root_may_become_known_before_it_is_looked_at() {
    let mut splitter =
        splitter(vec![block(1, 1), block(2, 2), QueueAction::Other(1), block(77, 3), block(3, 3)]);
    let mut queue = take_delayed_queue(&mut splitter, 2).unwrap();
    assert!(matches!(queue.next_step(&mut splitter), Some(DelayedStep::Parallel(_))));
    assert!(matches!(queue.next_step(&mut splitter), Some(DelayedStep::Serial(_))));
    splitter.chunk_group_infos.insert(77, info(true, true));
    assert!(matches!(queue.next_step(&mut splitter), Some(DelayedStep::Parallel(_))));
    assert!(queue.next_step(&mut splitter).is_none());
    let stats = &splitter.parallel_state.stats;
    assert_eq!((stats.parallel_batches, stats.parallel_jobs, stats.serial_actions), (2, 4, 0));
}
