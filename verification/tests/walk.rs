use std::cell::RefCell;
use std::collections::HashMap;
use std::sync::Arc;

use parallel_code_splitter::block_map::BlockMap;
use parallel_code_splitter::graph::{
    BlockModule, ConnectionState, DependenciesBlockIdentifier, ModuleIdentifier,
};
use parallel_code_splitter::mask::OrdinalMask;
use parallel_code_splitter::order::{ModuleGraph, ModuleGraphModule};
use parallel_code_splitter::queue::ProcessBlock;
use parallel_code_splitter::walk::{
    get_block_modules, walk_root, BlockConnectionMap, ParallelWalkJob, ParallelWalkResult,
    PreparedBlocksMap, WalkInputs,
};
use parallel_code_splitter::walk_model::ExtractedBlocks;

const ROOT: DependenciesBlockIdentifier = DependenciesBlockIdentifier::AsyncDependenciesBlock(1);

fn body(module: u64) -> DependenciesBlockIdentifier {
    DependenciesBlockIdentifier::Module(module)
}

fn active(module: u64) -> BlockModule {
    (module, ConnectionState::Active(true), Arc::new(vec![module * 10]))
}

fn with_state(module: u64, state: ConnectionState) -> BlockModule {
    (module, state, Arc::new(vec![module * 10]))
}

fn mask_of(ordinals: &[u64]) -> OrdinalMask {
    let mut mask = OrdinalMask::new();
    for ordinal in ordinals {
        mask.set_bit(*ordinal);
    }
    mask
}

fn job(available: &[u64], held: &[u64]) -> ParallelWalkJob {
    ParallelWalkJob {
        root: ProcessBlock { block: ROOT, module: 100, chunk_group_info: 1, chunk: 1 },
        runtime: 1,
        min_available_modules: Arc::new(mask_of(available)),
        chunk_mask: mask_of(held),
    }
}

/// Each module has its own number, and one more, as its ordinal.
fn ordinals() -> HashMap<ModuleIdentifier, u64> {
    (0..8).map(|module| (module, module + 1)).collect()
}

fn walk_all(
    job: ParallelWalkJob,
    graph: &ModuleGraph,
    prepared: &PreparedBlocksMap,
    shared: Option<&BlockConnectionMap>,
    targets: &[(DependenciesBlockIdentifier, Vec<BlockModule>)],
) -> (Result<ParallelWalkResult, ModuleIdentifier>, Vec<DependenciesBlockIdentifier>) {
    let asked = RefCell::new(Vec::new());
    let ordinal_by_module = ordinals();
    let inputs = WalkInputs {
        prepared_blocks_map: prepared,
        ordinal_by_module: &ordinal_by_module,
        shared_block_modules: shared,
    };
    let extract = |block: DependenciesBlockIdentifier| -> ExtractedBlocks {
        asked.borrow_mut().push(block);
        targets
            .iter()
            .filter(|(known, _)| *known == block)
            .map(|(known, modules)| (*known, Arc::new(modules.clone())))
            .collect()
    };
    let result = walk_root(job, graph, &inputs, &extract);
    (result, asked.into_inner())
}

fn walked(
    job: ParallelWalkJob,
    targets: &[(DependenciesBlockIdentifier, Vec<BlockModule>)],
) -> ParallelWalkResult {
    walk_all(job, &HashMap::new(), &BlockMap::new(), None, targets).0.unwrap()
}

#[test]
fn a_walk_goes_depth_first() {
    let targets = [
        (ROOT, vec![active(1), active(2)]),
        (body(1), vec![active(3), active(2)]),
        (
            body(2),
            vec![
                with_state(3, ConnectionState::Active(false)),
                with_state(4, ConnectionState::TransitiveOnly),
            ],
        ),
        (body(3), vec![]),
        (body(4), vec![active(5), active(6)]),
    ];
    let mut prepared = BlockMap::new();
    prepared.insert(body(3), vec![50, 51]);
    prepared.insert(body(4), vec![60]);
    prepared.insert(body(6), vec![70]);
    let (result, asked) = walk_all(job(&[7], &[]), &HashMap::new(), &prepared, None, &targets);
    let result = result.unwrap();
    assert_eq!(result.modules, vec![1, 3, 2, 5]);
    assert_eq!(result.post_order_modules, vec![3, 5, 2, 1]);
    assert_eq!(result.async_blocks, vec![(50, 3), (51, 3), (60, 2)]);
    assert_eq!(result.skipped_items, vec![6]);
    assert_eq!(result.skipped_connections, vec![(4, Arc::new(vec![40]))]);
    assert_eq!(result.processed_queue_items, 11);
    assert_eq!(result.processed_blocks, 6);
    assert!(result.resulting_chunk_mask.same_as(&mask_of(&[2, 3, 4, 6])));
    assert!(result.job.chunk_mask.same_as(&OrdinalMask::new()));
    assert_eq!(asked, vec![ROOT, body(1), body(3), body(2), body(4), body(5)]);
    assert_eq!(result.block_modules_cache.count(), 5);
    assert!(result.block_modules_cache.get(body(5)).is_none());
}

#[test]
fn a_walk_of_nothing_brings_nothing() {
    let result = walked(job(&[], &[]), &[]);
    assert!(result.modules.is_empty() && result.post_order_modules.is_empty());
    assert!(result.async_blocks.is_empty());
    assert_eq!(result.processed_queue_items, 1);
    assert_eq!(result.processed_blocks, 1);
    assert!(result.resulting_chunk_mask.same_as(&OrdinalMask::new()));
}

#[test]
fn what_the_chunk_holds_is_passed_over() {
    let result = walked(
        job(&[2, 3], &[2]),
        &[(
            ROOT,
            vec![active(1), active(2), with_state(1, ConnectionState::Active(false)), active(3)],
        )],
    );
    assert_eq!(result.modules, vec![3]);
    assert_eq!(result.skipped_items, vec![2]);
    assert!(result.skipped_connections.is_empty());
    assert!(result.resulting_chunk_mask.same_as(&mask_of(&[2, 4])));
}

#[test]
fn inactive_targets_are_noted_and_not_followed() {
    let result = walked(
        job(&[], &[]),
        &[
            (ROOT, vec![with_state(1, ConnectionState::Active(false)), active(2)]),
            (body(1), vec![active(3)]),
        ],
    );
    assert_eq!(result.modules, vec![2]);
    assert_eq!(result.skipped_connections, vec![(1, Arc::new(vec![10]))]);
}

#[test]
fn skipped_targets_are_met_from_the_last_to_the_first() {
    let result = walked(
        job(&[2, 3], &[]),
        &[(
            ROOT,
            vec![
                active(1),
                with_state(3, ConnectionState::Active(false)),
                active(2),
                with_state(4, ConnectionState::Active(false)),
            ],
        )],
    );
    assert_eq!(result.skipped_items, vec![2, 1]);
    assert_eq!(
        result.skipped_connections,
        vec![(4, Arc::new(vec![40])), (3, Arc::new(vec![30]))]
    );
}

#[test]
fn cycles_are_walked_once() {
    let result = walked(
        job(&[], &[]),
        &[
            (ROOT, vec![active(1)]),
            (body(1), vec![active(2), with_state(3, ConnectionState::CircularConnection)]),
            (body(2), vec![active(1)]),
            (body(3), vec![with_state(3, ConnectionState::CircularConnection), active(2)]),
        ],
    );
    assert_eq!(result.modules, vec![1, 2]);
    assert_eq!(result.post_order_modules, vec![2, 1]);
    assert_eq!(
        result.skipped_connections,
        vec![(3, Arc::new(vec![30])), (3, Arc::new(vec![30]))]
    );
    assert_eq!(result.processed_queue_items, 7);
    assert_eq!(result.processed_blocks, 5);
}

#[test]
fn a_target_without_an_ordinal_is_the_error() {
    let targets = [(ROOT, vec![active(20), active(1), active(30), active(2)])];
    let (result, _) = walk_all(job(&[], &[]), &HashMap::new(), &BlockMap::new(), None, &targets);
    assert_eq!(result.err(), Some(30));
    let targets = [(ROOT, vec![active(1)]), (body(1), vec![active(40)])];
    let (result, _) = walk_all(job(&[], &[]), &HashMap::new(), &BlockMap::new(), None, &targets);
    assert_eq!(result.err(), Some(40));
}

#[test]
fn shared_targets_are_not_extracted_again() {
    let mut shared = BlockMap::new();
    shared.insert(ROOT, Arc::new(vec![active(1)]));
    let targets = [(ROOT, vec![active(2)]), (body(1), vec![active(3)])];
    let (result, asked) =
        walk_all(job(&[], &[]), &HashMap::new(), &BlockMap::new(), Some(&shared), &targets);
    let result = result.unwrap();
    assert_eq!(result.modules, vec![1, 3]);
    assert_eq!(asked, vec![body(1), body(3)]);
    assert!(result.block_modules_cache.get(ROOT).is_none());
    assert_eq!(result.block_modules_cache.count(), 1);
}

#[test]
fn modules_without_global_places_are_candidates() {
    let graph = HashMap::from([
        (1, ModuleGraphModule { pre_order_index: Some(0), post_order_index: None }),
        (2, ModuleGraphModule { pre_order_index: None, post_order_index: Some(0) }),
    ]);
    let targets = [(ROOT, vec![active(1), active(2), active(3)])];
    let (result, _) = walk_all(job(&[], &[]), &graph, &BlockMap::new(), None, &targets);
    let result = result.unwrap();
    assert_eq!(result.modules, vec![1, 2, 3]);
    assert_eq!(result.global_pre_order_candidates, vec![2, 3]);
    assert_eq!(result.global_post_order_candidates, vec![1, 3]);
}

#[test]
fn walks_that_read_the_same_bring_the_same() {
    let targets = [
        (ROOT, vec![active(1), active(4)]),
        (body(1), vec![active(2), active(3)]),
        (body(3), vec![active(4)]),
    ];
    let once = walked(job(&[3], &[]), &targets);
    let again = walked(job(&[3], &[]), &targets);
    assert_eq!(once.modules, vec![1, 3, 4]);
    assert_eq!(once.modules, again.modules);
    assert_eq!(once.post_order_modules, again.post_order_modules);
    assert_eq!(once.skipped_items, again.skipped_items);
    assert!(once.resulting_chunk_mask.same_as(&again.resulting_chunk_mask));
}

#[test]
fn a_module_is_left_after_all_that_were_added_since() {
    let result = walked(
        job(&[], &[]),
        &[
            (ROOT, vec![active(1), active(5)]),
            (body(1), vec![active(2)]),
            (body(2), vec![active(3), active(4)]),
        ],
    );
    assert_eq!(result.modules, vec![1, 2, 3, 4, 5]);
    assert_eq!(result.post_order_modules, vec![3, 4, 2, 1, 5]);
}

#[test]
fn only_what_is_in_reach_is_walked() {
    let result = walked(
        job(&[], &[]),
        &[(ROOT, vec![active(1)]), (body(1), vec![]), (body(2), vec![active(3)])],
    );
    assert_eq!(result.modules, vec![1]);
}

#[test]
fn targets_are_looked_up_in_the_own_cache_first() {
    let mut cache = BlockMap::new();
    cache.insert(body(1), Arc::new(vec![active(2)]));
    let mut shared = BlockMap::new();
    shared.insert(body(1), Arc::new(vec![active(3)]));
    shared.insert(body(2), Arc::new(vec![active(4)]));
    let extract = |block: DependenciesBlockIdentifier| -> ExtractedBlocks {
        vec![
            (block, Arc::new(vec![active(5)])),
            (body(7), Arc::new(vec![])),
            (block, Arc::new(vec![active(6)])),
        ]
    };
    assert_eq!(*get_block_modules(body(1), &extract, Some(&shared), &mut cache), vec![active(2)]);
    assert_eq!(*get_block_modules(body(2), &extract, Some(&shared), &mut cache), vec![active(4)]);
    assert_eq!(cache.count(), 1);
    assert_eq!(*get_block_modules(body(3), &extract, Some(&shared), &mut cache), vec![active(6)]);
    assert_eq!(cache.count(), 3);
    assert!(cache.get(body(7)).is_some());
    let none = |_: DependenciesBlockIdentifier| -> ExtractedBlocks { vec![] };
    assert!(get_block_modules(body(4), &none, None, &mut cache).is_empty());
    assert!(cache.get(body(4)).is_none());
}

#[test]
fn imports_are_reported_in_the_order_of_the_visits() {
    let targets = [
        (ROOT, vec![active(1), with_state(2, ConnectionState::TransitiveOnly), active(1)]),
        (body(1), vec![with_state(2, ConnectionState::TransitiveOnly), active(3)]),
    ];
    let mut prepared = BlockMap::new();
    prepared.insert(ROOT, vec![90]);
    prepared.insert(body(1), vec![10, 11]);
    prepared.insert(body(2), vec![20]);
    prepared.insert(body(3), vec![30]);
    let (result, _) = walk_all(job(&[], &[]), &HashMap::new(), &prepared, None, &targets);
    let result = result.unwrap();
    assert_eq!(result.async_blocks, vec![(90, 100), (10, 1), (11, 1), (20, 1), (30, 3)]);
    assert_eq!(result.modules, vec![1, 3]);
    assert_eq!(result.processed_blocks, 5);
    assert_eq!(result.processed_queue_items, 8);
}

#[test]
fn nothing_is_walked_behind_what_is_held_or_available() {
    let (result, asked) = walk_all(
        job(&[3], &[2]),
        &HashMap::new(),
        &BlockMap::new(),
        None,
        &[
            (ROOT, vec![active(1), with_state(1, ConnectionState::TransitiveOnly), active(2)]),
            (body(1), vec![active(4)]),
            (body(2), vec![active(5)]),
        ],
    );
    assert!(result.unwrap().modules.is_empty());
    assert_eq!(asked, vec![ROOT]);
}
