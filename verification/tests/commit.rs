use std::cell::Cell;
use std::collections::HashMap;
use std::sync::Arc;

use parallel_code_splitter::batch::{parallel_walk_jobs, record_walks, walk_job};
use parallel_code_splitter::block_map::BlockMap;
use parallel_code_splitter::commit::{
    cache_block_modules, chunk_connection, commit_result, commit_results, finish_batch,
    finish_commit, is_committable, result_is_stale, CommitStep,
};
use parallel_code_splitter::graph::{BlockModule, ConnectionState, DependenciesBlockIdentifier};
use parallel_code_splitter::mask::OrdinalMask;
use parallel_code_splitter::order::ModuleGraphModule;
use parallel_code_splitter::queue::{ProcessBlock, QueueAction};
use parallel_code_splitter::splitter::{ChunkGroup, ChunkGroupInfo, CodeSplitter, Compilation};
use parallel_code_splitter::walk::ParallelWalkResult;
use parallel_code_splitter::walk_model::ExtractedBlocks;

fn mask_of(ordinals: &[u64]) -> OrdinalMask {
    let mut mask = OrdinalMask::new();
    for ordinal in ordinals {
        mask.set_bit(*ordinal);
    }
    mask
}

fn import(id: u64) -> DependenciesBlockIdentifier {
    DependenciesBlockIdentifier::AsyncDependenciesBlock(id)
}

fn target(module: u64, state: ConnectionState) -> BlockModule {
    (module, state, Arc::new(vec![module]))
}

fn root(chunk_group_info: u64, chunk: u64) -> ProcessBlock {
    ProcessBlock { block: import(chunk_group_info), module: 9, chunk_group_info, chunk }
}

fn info(chunk_group: u64) -> ChunkGroupInfo {
    ChunkGroupInfo {
        chunk_group,
        chunk_loading: true,
        async_chunks: true,
        runtime: 4,
        min_available_modules: Arc::new(mask_of(&[7])),
        skipped_items: vec![],
        skipped_module_connections: vec![],
    }
}

fn group() -> ChunkGroup {
    ChunkGroup {
        module_pre_order_indices: HashMap::new(),
        module_post_order_indices: HashMap::new(),
        next_pre_order_index: 0,
        next_post_order_index: 0,
    }
}

/// Two groups with a chunk each. Each module has its own number as its ordinal, and 7 is available.
fn splitter() -> CodeSplitter {
    let mut splitter = CodeSplitter::default();
    splitter.parallel_state.enabled = true;
    for id in 1..3 {
        splitter.chunk_group_infos.insert(id, info(id + 10));
        splitter.mask_by_chunk.insert(id, OrdinalMask::new());
    }
    splitter.ordinal_by_module = (0..10).map(|module| (module, module)).collect();
    splitter.prepared_blocks_map.insert(DependenciesBlockIdentifier::Module(2), vec![30]);
    splitter
}

fn compilation() -> Compilation {
    let module = ModuleGraphModule { pre_order_index: None, post_order_index: None };
    Compilation {
        module_graph: (0..10).map(|id| (id, module)).collect(),
        chunk_group_by_ukey: HashMap::from([(11, group()), (12, group())]),
    }
}

/// The first `import()` brings 1 and then 2, the second brings 3 and then 2.
fn extract(block: DependenciesBlockIdentifier) -> ExtractedBlocks {
    let targets = if block == import(1) {
        vec![
            target(1, ConnectionState::Active(true)),
            target(7, ConnectionState::Active(true)),
            target(5, ConnectionState::Active(false)),
        ]
    } else if block == import(2) {
        vec![target(3, ConnectionState::Active(true))]
    } else if block == DependenciesBlockIdentifier::Module(1)
        || block == DependenciesBlockIdentifier::Module(3)
    {
        vec![target(2, ConnectionState::Active(true))]
    } else {
        vec![]
    };
    vec![(block, Arc::new(targets))]
}

fn results(
    splitter: &CodeSplitter,
    compilation: &Compilation,
    roots: Vec<ProcessBlock>,
) -> Vec<ParallelWalkResult> {
    parallel_walk_jobs(splitter, roots)
        .into_iter()
        .map(|job| walk_job(splitter, compilation, job, &extract).unwrap())
        .collect()
}

fn no_clock() -> u64 {
    panic!("nothing is measured")
}

#[test]
fn jobs_take_what_is_known_of_their_roots() {
    let mut splitter = splitter();
    splitter.mask_by_chunk.insert(2, mask_of(&[6]));
    splitter.chunk_group_infos.get_mut(&1).unwrap().runtime = 5;
    let jobs = parallel_walk_jobs(&splitter, vec![root(2, 2), root(1, 1)]);
    assert_eq!(jobs.len(), 2);
    assert_eq!(jobs[0].root, root(2, 2));
    assert_eq!(jobs[0].runtime, 4);
    assert!(jobs[0].chunk_mask.same_as(&mask_of(&[6])));
    assert!(jobs[0].min_available_modules.same_as(&mask_of(&[7])));
    assert_eq!(jobs[1].root, root(1, 1));
    assert_eq!(jobs[1].runtime, 5);
    assert!(jobs[1].chunk_mask.same_as(&OrdinalMask::new()));
}

#[test]
fn a_walk_reads_the_cache_of_its_runtime() {
    let mut splitter = splitter();
    let mut cache = BlockMap::new();
    cache.insert(import(1), Arc::new(vec![target(8, ConnectionState::Active(true))]));
    splitter.block_modules_runtime_map.insert(4, cache);
    let walked = results(&splitter, &compilation(), vec![root(1, 1)]);
    assert_eq!(walked[0].modules, vec![8]);
    splitter.chunk_group_infos.get_mut(&1).unwrap().runtime = 5;
    let walked = results(&splitter, &compilation(), vec![root(1, 1)]);
    assert_eq!(walked[0].modules, vec![1, 2]);
}

#[test]
fn a_walk_job_tells_of_a_target_without_an_ordinal() {
    let mut splitter = splitter();
    splitter.ordinal_by_module.remove(&2);
    let job = parallel_walk_jobs(&splitter, vec![root(1, 1)]).pop().unwrap();
    assert_eq!(walk_job(&splitter, &compilation(), job, &extract).err(), Some(2));
}

#[test]
fn what_walks_have_counted_is_added_up() {
    let mut splitter = splitter();
    splitter.parallel_state.stats.committed_modules = u32::MAX;
    let walked = results(&splitter, &compilation(), vec![root(1, 1), root(2, 2)]);
    assert_eq!(walked[0].processed_queue_items, 5);
    assert_eq!(walked[0].processed_blocks, 3);
    record_walks(&mut splitter, &walked, Some(40), &|| 100);
    let stats = &splitter.parallel_state.stats;
    assert_eq!(stats.processed_queue_items, 10);
    assert_eq!(stats.processed_blocks, 6);
    assert_eq!(stats.committed_modules, 3);
    assert_eq!(stats.walk_time_ns, 60);
}

#[test]
fn results_are_not_stale_where_nothing_has_happened() {
    let splitter = splitter();
    for result in results(&splitter, &compilation(), vec![root(1, 1), root(2, 2)]) {
        assert!(!result_is_stale(&splitter, &result));
    }
}

#[test]
fn bookkeeping_does_not_make_a_result_stale() {
    let mut splitter = splitter();
    let result = results(&splitter, &compilation(), vec![root(1, 1)]).pop().unwrap();
    cache_block_modules(&mut splitter, &result);
    splitter.parallel_state.stats.stale_jobs = 3;
    splitter.queue.push(QueueAction::Other(1));
    assert!(!result_is_stale(&splitter, &result));
}

#[test]
fn a_result_is_stale_once_its_group_or_chunk_has_changed() {
    let mut splitter = splitter();
    let result = results(&splitter, &compilation(), vec![root(1, 1)]).pop().unwrap();
    splitter.mask_by_chunk.get_mut(&1).unwrap().set_bit(4);
    assert!(result_is_stale(&splitter, &result));
    splitter.mask_by_chunk.insert(1, OrdinalMask::new());
    assert!(!result_is_stale(&splitter, &result));
    splitter.chunk_group_infos.get_mut(&1).unwrap().runtime = 5;
    assert!(result_is_stale(&splitter, &result));
    splitter.mask_by_chunk.remove(&1);
    assert!(result_is_stale(&splitter, &result));
    splitter.mask_by_chunk.insert(1, OrdinalMask::new());
    let info = splitter.chunk_group_infos.get_mut(&1).unwrap();
    info.runtime = 4;
    info.min_available_modules = Arc::new(mask_of(&[7]));
    assert!(!result_is_stale(&splitter, &result));
    splitter.chunk_group_infos.get_mut(&1).unwrap().min_available_modules =
        Arc::new(mask_of(&[7, 8]));
    assert!(result_is_stale(&splitter, &result));
}

#[test]
fn caching_only_adds() {
    let mut splitter = splitter();
    let mut cache = BlockMap::new();
    let known = Arc::new(vec![target(2, ConnectionState::Active(true))]);
    cache.insert(DependenciesBlockIdentifier::Module(2), known.clone());
    let result = results(&splitter, &compilation(), vec![root(1, 1)]).pop().unwrap();
    splitter.block_modules_runtime_map.insert(4, cache);
    assert_eq!(cache_block_modules(&mut splitter, &result), (3, 2));
    let cache = &splitter.block_modules_runtime_map[&4];
    assert_eq!(cache.count(), 3);
    assert_eq!(cache.get(DependenciesBlockIdentifier::Module(2)), Some(&known));
    assert!(cache.get(import(1)).is_some());
    assert_eq!(cache_block_modules(&mut splitter, &result), (3, 0));
}

#[test]
fn nothing_is_cached_for_a_runtime_that_has_changed() {
    let mut splitter = splitter();
    let result = results(&splitter, &compilation(), vec![root(1, 1)]).pop().unwrap();
    splitter.chunk_group_infos.get_mut(&1).unwrap().runtime = 5;
    assert_eq!(cache_block_modules(&mut splitter, &result), (0, 0));
    assert!(splitter.block_modules_runtime_map.is_empty());
}

#[test]
fn committing_a_batch_begins_with_the_caches() {
    let mut splitter = splitter();
    splitter.parallel_state.stats_enabled = true;
    let walked = results(&splitter, &compilation(), vec![root(1, 1), root(2, 2)]);
    let now = Cell::new(0);
    let clock = || {
        now.set(now.get() + 3);
        now.get()
    };
    let mut commit = commit_results(&mut splitter, walked, &clock);
    let stats = &splitter.parallel_state.stats;
    assert_eq!(stats.local_cache_entries, 6);
    assert_eq!(stats.cached_block_entries, 5);
    assert_eq!(stats.cache_time_ns, 3);
    assert_eq!(splitter.block_modules_runtime_map[&4].count(), 5);
    for id in 1..3 {
        let Some(CommitStep::Commit(result)) = commit.next_step(&mut splitter) else {
            panic!("the result is not stale");
        };
        assert_eq!(result.job.root, root(id, id));
    }
    assert!(commit.next_step(&mut splitter).is_none());
    assert_eq!(splitter.parallel_state.stats.stale_jobs, 0);
    finish_batch(&mut splitter, Some(1), &clock);
    assert_eq!(splitter.parallel_state.stats.commit_time_ns, 8);
    finish_batch(&mut splitter, None, &clock);
    assert_eq!(splitter.parallel_state.stats.commit_time_ns, 8);
}

#[test]
fn a_stale_result_has_its_root_processed_again() {
    let mut splitter = splitter();
    let walked = results(&splitter, &compilation(), vec![root(1, 1), root(2, 2)]);
    let mut commit = commit_results(&mut splitter, walked, &no_clock);
    splitter.mask_by_chunk.get_mut(&1).unwrap().set_bit(4);
    let Some(CommitStep::Serial(action)) = commit.next_step(&mut splitter) else {
        panic!("the result is stale");
    };
    assert_eq!(action, QueueAction::ProcessBlock(root(1, 1)));
    assert_eq!(splitter.parallel_state.stats.stale_jobs, 1);
    assert!(matches!(commit.next_step(&mut splitter), Some(CommitStep::Commit(_))));
}

#[test]
fn a_commit_extends_the_orders() {
    let mut splitter = splitter();
    let mut compilation = compilation();
    let chunk_group = compilation.chunk_group_by_ukey.get_mut(&11).unwrap();
    chunk_group.module_pre_order_indices.insert(2, 0);
    chunk_group.next_pre_order_index = 1;
    compilation.module_graph.get_mut(&1).unwrap().post_order_index = Some(0);
    splitter.next_free_module_post_order_index = 1;
    let result = results(&splitter, &compilation, vec![root(1, 1)]).pop().unwrap();
    assert_eq!(result.modules, vec![1, 2]);
    assert_eq!(result.post_order_modules, vec![2, 1]);
    let pending = commit_result(&mut splitter, &mut compilation, result, None, &no_clock);

    assert!(splitter.mask_by_chunk[&1].same_as(&mask_of(&[1, 2])));
    assert!(splitter.mask_by_chunk[&2].same_as(&OrdinalMask::new()));
    let chunk_group = &compilation.chunk_group_by_ukey[&11];
    assert_eq!(chunk_group.module_pre_order_indices, HashMap::from([(2, 0), (1, 1)]));
    assert_eq!(chunk_group.next_pre_order_index, 2);
    assert_eq!(chunk_group.module_post_order_indices, HashMap::from([(2, 0), (1, 1)]));
    assert_eq!(chunk_group.next_post_order_index, 2);
    assert!(compilation.chunk_group_by_ukey[&12].module_pre_order_indices.is_empty());
    assert_eq!(
        compilation.module_graph[&1],
        ModuleGraphModule { pre_order_index: Some(0), post_order_index: Some(0) }
    );
    assert_eq!(
        compilation.module_graph[&2],
        ModuleGraphModule { pre_order_index: Some(1), post_order_index: Some(1) }
    );
    assert_eq!(splitter.next_free_module_pre_order_index, 2);
    assert_eq!(splitter.next_free_module_post_order_index, 2);
    assert_eq!(splitter.stat_processed_queue_items, 5);
    assert_eq!(splitter.stat_processed_blocks, 3);
    let stats = &splitter.parallel_state.stats;
    assert_eq!(stats.global_pre_order_candidates, 2);
    assert_eq!(stats.global_post_order_candidates, 1);
    assert_eq!(stats.global_pre_order_checks, 2);
    assert_eq!(stats.global_post_order_checks, 1);
    assert!(splitter.parallel_state.checked_pre_order_modules.contains(&1));
    assert!(!splitter.parallel_state.checked_post_order_modules.contains(&1));

    assert_eq!((pending.chunk_group_info, pending.chunk), (1, 1));
    assert_eq!(pending.async_blocks, vec![(30, 2)]);
    assert_eq!(pending.async_blocks_start, None);
}

#[test]
fn a_commit_ends_with_what_was_skipped() {
    let mut splitter = splitter();
    let mut compilation = compilation();
    splitter.chunk_group_infos.get_mut(&1).unwrap().skipped_items.push(0);
    let result = results(&splitter, &compilation, vec![root(1, 1)]).pop().unwrap();
    let pending = commit_result(&mut splitter, &mut compilation, result, None, &no_clock);
    finish_commit(&mut splitter, pending, &no_clock);
    let info = &splitter.chunk_group_infos[&1];
    assert_eq!(info.skipped_items, vec![0, 7]);
    assert_eq!(info.skipped_module_connections, vec![(5, Arc::new(vec![5]))]);
    assert_eq!(info.chunk_group, 11);
    assert!(splitter.chunk_group_infos[&2].skipped_items.is_empty());
}

#[test]
fn commits_are_timed_where_statistics_are_on() {
    let mut splitter = splitter();
    splitter.parallel_state.stats_enabled = true;
    let mut compilation = compilation();
    let result = results(&splitter, &compilation, vec![root(1, 1)]).pop().unwrap();
    let now = Cell::new(100);
    let clock = || {
        now.set(now.get() * 2);
        now.get()
    };
    let pending = commit_result(&mut splitter, &mut compilation, result, Some(100), &clock);
    assert_eq!(pending.async_blocks_start, Some(6400));
    finish_commit(&mut splitter, pending, &clock);
    let stats = &splitter.parallel_state.stats;
    assert_eq!(stats.chunk_graph_time_ns, 100);
    assert_eq!(stats.chunk_group_order_time_ns, 400);
    assert_eq!(stats.global_order_time_ns, 1600);
    assert_eq!(stats.async_blocks_time_ns, 6400);
    assert_eq!(stats.skipped_items_time_ns, 25600);
}

#[test]
fn a_commit_spares_results_for_other_chunks() {
    let mut splitter = splitter();
    let mut compilation = compilation();
    let mut walked = results(&splitter, &compilation, vec![root(1, 1), root(2, 2)]);
    let second = walked.pop().unwrap();
    let first = walked.pop().unwrap();
    commit_result(&mut splitter, &mut compilation, first, None, &no_clock);
    assert!(!result_is_stale(&splitter, &second));
    commit_result(&mut splitter, &mut compilation, second, None, &no_clock);

    // 2 was a candidate of both, and has kept the place that it got first.
    assert_eq!(compilation.module_graph[&1].pre_order_index, Some(0));
    assert_eq!(compilation.module_graph[&2].pre_order_index, Some(1));
    assert_eq!(compilation.module_graph[&3].pre_order_index, Some(2));
    assert_eq!(compilation.module_graph[&2].post_order_index, Some(0));
    assert_eq!(compilation.module_graph[&1].post_order_index, Some(1));
    assert_eq!(compilation.module_graph[&3].post_order_index, Some(2));
    assert_eq!(splitter.parallel_state.stats.global_pre_order_candidates, 4);
    assert_eq!(splitter.parallel_state.stats.global_pre_order_checks, 3);
    assert_eq!(
        compilation.chunk_group_by_ukey[&12].module_pre_order_indices,
        HashMap::from([(3, 0), (2, 1)])
    );
}

#[test]
fn a_commit_outdates_results_for_the_same_chunk() {
    let mut splitter = splitter();
    let mut compilation = compilation();
    let mut walked = results(&splitter, &compilation, vec![root(1, 1), root(2, 1)]);
    let second = walked.pop().unwrap();
    let first = walked.pop().unwrap();
    assert!(!result_is_stale(&splitter, &second));
    commit_result(&mut splitter, &mut compilation, first, None, &no_clock);
    assert!(result_is_stale(&splitter, &second));
}

#[test]
fn a_chunk_is_connected_with_the_modules_that_were_added() {
    let splitter = splitter();
    let result = results(&splitter, &compilation(), vec![root(2, 1)]).pop().unwrap();
    let (chunk, modules) = chunk_connection(&result);
    assert_eq!(chunk, 1);
    assert_eq!(*modules, vec![3, 2]);
}

#[test]
fn it_is_noticed_what_is_not_known_of_a_result() {
    let mut splitter = splitter();
    let walked = results(&splitter, &compilation(), vec![root(1, 1)]);
    let mut commit = commit_results(&mut splitter, walked, &no_clock);
    assert!(commit.knows_next(&splitter));
    let mask = splitter.mask_by_chunk.remove(&1).unwrap();
    assert!(!commit.knows_next(&splitter));
    splitter.chunk_group_infos.get_mut(&1).unwrap().runtime = 5;
    assert!(commit.knows_next(&splitter));
    let info = splitter.chunk_group_infos.remove(&1).unwrap();
    splitter.mask_by_chunk.insert(1, mask);
    assert!(!commit.knows_next(&splitter));
    splitter.chunk_group_infos.insert(1, info);
    assert!(matches!(commit.next_step(&mut splitter), Some(CommitStep::Serial(_))));
    assert!(commit.knows_next(&splitter));
}

/// Commits a batch whose walks end in the order that `order` gives. What is left is the mask and the
/// places, and what was counted.
fn batch_walked_in(order: [usize; 2]) -> (CodeSplitter, Compilation) {
    let mut splitter = splitter();
    let mut compilation = compilation();
    let mut jobs: Vec<_> =
        parallel_walk_jobs(&splitter, vec![root(1, 1), root(2, 1)]).into_iter().map(Some).collect();
    let mut walked = vec![None, None];
    for i in order {
        let job = jobs[i].take().unwrap();
        walked[i] = Some(walk_job(&splitter, &compilation, job, &extract).unwrap());
    }
    let walked: Vec<_> = walked.into_iter().flatten().collect();
    record_walks(&mut splitter, &walked, None, &no_clock);
    let mut commit = commit_results(&mut splitter, walked, &no_clock);
    while let Some(step) = commit.next_step(&mut splitter) {
        if let CommitStep::Commit(result) = step {
            let pending = commit_result(&mut splitter, &mut compilation, result, None, &no_clock);
            finish_commit(&mut splitter, pending, &no_clock);
        }
    }
    (splitter, compilation)
}

#[test]
fn the_order_in_which_walks_end_makes_no_difference() {
    let (splitter1, compilation1) = batch_walked_in([0, 1]);
    let (splitter2, compilation2) = batch_walked_in([1, 0]);
    assert_eq!(splitter1.parallel_state.stats, splitter2.parallel_state.stats);
    assert!(splitter1.mask_by_chunk[&1].same_as(&splitter2.mask_by_chunk[&1]));
    assert!(splitter1.mask_by_chunk[&1].same_as(&mask_of(&[1, 2])));
    assert_eq!(compilation1.module_graph, compilation2.module_graph);
    assert_eq!(compilation1.module_graph[&1].pre_order_index, Some(0));
    assert_eq!(compilation1.module_graph[&3].pre_order_index, None);
}

#[test]
fn no_batch_has_only_stale_jobs() {
    let (splitter, _) = batch_walked_in([0, 1]);
    let stats = &splitter.parallel_state.stats;
    assert_eq!(stats.stale_jobs, 1);
    assert_eq!(stats.local_cache_entries, 6);
    assert_eq!(stats.cached_block_entries, 5);
}

#[test]
fn a_result_can_be_committed_where_all_is_known_and_places_are_left() {
    let mut splitter = splitter();
    let mut compilation = compilation();
    let result = results(&splitter, &compilation, vec![root(1, 1)]).pop().unwrap();
    assert!(is_committable(&splitter, &compilation, &result));

    splitter.next_free_module_pre_order_index = u32::MAX - 2;
    assert!(is_committable(&splitter, &compilation, &result));
    splitter.next_free_module_pre_order_index = u32::MAX - 1;
    assert!(!is_committable(&splitter, &compilation, &result));
    splitter.parallel_state.checked_pre_order_modules.insert(1);
    assert!(is_committable(&splitter, &compilation, &result));
    splitter.next_free_module_pre_order_index = 0;

    let chunk_group = compilation.chunk_group_by_ukey.get_mut(&11).unwrap();
    chunk_group.next_post_order_index = usize::MAX - 1;
    assert!(!is_committable(&splitter, &compilation, &result));
    compilation
        .chunk_group_by_ukey
        .get_mut(&11)
        .unwrap()
        .module_post_order_indices
        .insert(2, 0);
    assert!(is_committable(&splitter, &compilation, &result));

    let module = compilation.module_graph.remove(&2).unwrap();
    assert!(!is_committable(&splitter, &compilation, &result));
    compilation.module_graph.insert(2, module);
    let chunk_group = compilation.chunk_group_by_ukey.remove(&11).unwrap();
    assert!(!is_committable(&splitter, &compilation, &result));
    compilation.chunk_group_by_ukey.insert(11, chunk_group);
    splitter.mask_by_chunk.remove(&1);
    assert!(!is_committable(&splitter, &compilation, &result));
    splitter.mask_by_chunk.insert(1, OrdinalMask::new());
    splitter.chunk_group_infos.remove(&1);
    assert!(!is_committable(&splitter, &compilation, &result));
}

#[test]
fn a_mask_agrees_with_the_modules_that_were_connected() {
    let mut splitter = splitter();
    let mut compilation = compilation();
    let mut connected = vec![];
    for id in [1, 2] {
        let result = results(&splitter, &compilation, vec![root(id, 1)]).pop().unwrap();
        connected.extend(chunk_connection(&result).1.iter().copied());
        commit_result(&mut splitter, &mut compilation, result, None, &no_clock);
        assert!(splitter.mask_by_chunk[&1].same_as(&mask_of(&connected)));
    }
    assert_eq!(connected, vec![1, 2, 3]);
    assert!(splitter.mask_by_chunk[&2].same_as(&OrdinalMask::new()));
}
