use std::collections::{HashMap, HashSet};

use parallel_code_splitter::order::{
    assign_global_places, assign_places, count_unplaced, count_without_place, order_candidates,
    ModuleGraph, ModuleGraphModule, TraversalOrder,
};

fn module(pre: Option<u32>, post: Option<u32>) -> ModuleGraphModule {
    ModuleGraphModule { pre_order_index: pre, post_order_index: post }
}

fn graph() -> ModuleGraph {
    HashMap::from([
        (1, module(Some(0), None)),
        (2, module(None, Some(0))),
        (3, module(None, None)),
        (4, module(None, None)),
    ])
}

#[test]
fn candidates_have_no_place_yet() {
    let modules = vec![4, 1, 9, 2, 3];
    assert_eq!(order_candidates(&graph(), TraversalOrder::Pre, &modules), vec![4, 9, 2, 3]);
    assert_eq!(order_candidates(&graph(), TraversalOrder::Post, &modules), vec![4, 1, 9, 3]);
    assert!(order_candidates(&graph(), TraversalOrder::Pre, &vec![]).is_empty());
}

#[test]
fn places_are_given_in_order_and_only_once() {
    let mut indices = HashMap::from([(10, 4)]);
    assert_eq!(assign_places(&mut indices, 5, &vec![20, 10, 30, 20]), 7);
    assert_eq!(indices, HashMap::from([(10, 4), (20, 5), (30, 6)]));
    assert_eq!(assign_places(&mut indices, 7, &vec![30, 10]), 7);
    assert_eq!(indices.len(), 3);
}

#[test]
fn places_in_a_chunk_group_stay_distinct() {
    let mut indices = HashMap::new();
    let mut next = 0;
    for modules in [vec![5, 3, 5], vec![3, 8], vec![1, 8, 2]] {
        next = assign_places(&mut indices, next, &modules);
    }
    let places: HashSet<usize> = indices.values().copied().collect();
    assert_eq!(places, HashSet::from([0, 1, 2, 3, 4]));
    assert_eq!(next, 5);
}

#[test]
fn global_places_go_to_candidates_without_one() {
    let mut graph = graph();
    let mut checked = HashSet::new();
    let after = assign_global_places(
        &mut graph,
        TraversalOrder::Pre,
        &mut checked,
        1,
        10,
        &vec![4, 1, 4, 3],
    );
    assert_eq!(after, (3, 13));
    assert_eq!(graph[&4], module(Some(1), None));
    assert_eq!(graph[&1], module(Some(0), None));
    assert_eq!(graph[&3], module(Some(2), None));
    assert_eq!(graph[&2], module(None, Some(0)));
    assert_eq!(checked, HashSet::from([1, 3, 4]));
}

#[test]
fn checked_modules_are_not_looked_at_again() {
    let mut graph = graph();
    let mut checked = HashSet::from([3, 99]);
    let after = assign_global_places(
        &mut graph,
        TraversalOrder::Post,
        &mut checked,
        1,
        u32::MAX,
        &vec![99, 3, 4],
    );
    assert_eq!(after, (2, 0));
    assert_eq!(graph[&3], module(None, None));
    assert_eq!(graph[&4], module(None, Some(1)));
    assert_eq!(graph.len(), 4);
}

#[test]
fn the_two_global_orders_are_independent() {
    let mut graph = graph();
    let modules = vec![1, 2, 3, 4];
    assign_global_places(&mut graph, TraversalOrder::Pre, &mut HashSet::new(), 1, 0, &modules);
    assert_eq!(graph[&1].post_order_index, None);
    assert_eq!(graph[&2].post_order_index, Some(0));
    assign_global_places(&mut graph, TraversalOrder::Post, &mut HashSet::new(), 1, 0, &modules);
    assert_eq!(
        graph,
        HashMap::from([
            (1, module(Some(0), Some(1))),
            (2, module(Some(1), Some(0))),
            (3, module(Some(2), Some(2))),
            (4, module(Some(3), Some(3))),
        ])
    );
}

#[test]
fn looking_at_candidates_alone_suffices() {
    let modules = vec![2, 1, 4, 3];
    let candidates = order_candidates(&graph(), TraversalOrder::Pre, &modules);
    let mut few = graph();
    let mut all = graph();
    let few_next =
        assign_global_places(&mut few, TraversalOrder::Pre, &mut HashSet::new(), 1, 0, &candidates).0;
    let all_next =
        assign_global_places(&mut all, TraversalOrder::Pre, &mut HashSet::new(), 1, 0, &modules).0;
    assert_eq!(few, all);
    assert_eq!(few_next, all_next);
}

#[test]
fn places_that_will_be_given_are_counted() {
    let indices = HashMap::from([(10, 4)]);
    assert_eq!(count_without_place(&indices, &vec![20, 10, 30, 20]), 2);
    assert_eq!(count_without_place(&indices, &vec![10]), 0);

    let checked = HashSet::from([3, 99]);
    assert_eq!(
        count_unplaced(&graph(), TraversalOrder::Pre, &checked, &vec![99, 3, 4, 1, 4, 2]),
        Some(2)
    );
    assert_eq!(count_unplaced(&graph(), TraversalOrder::Pre, &checked, &vec![4, 98]), None);
}
