use std::sync::Arc;

use parallel_code_splitter::block_map::BlockMap;
use parallel_code_splitter::counter::{count_of, counter_add};
use parallel_code_splitter::graph::{ConnectionState, DependenciesBlockIdentifier};

#[test]
fn kinds_of_blocks_do_not_mix() {
    let mut map = BlockMap::new();
    map.insert(DependenciesBlockIdentifier::Module(7), "module");
    assert_eq!(map.get(DependenciesBlockIdentifier::Module(7)), Some(&"module"));
    assert_eq!(map.get(DependenciesBlockIdentifier::AsyncDependenciesBlock(7)), None);
    map.insert(DependenciesBlockIdentifier::AsyncDependenciesBlock(7), "async");
    assert_eq!(map.get(DependenciesBlockIdentifier::Module(7)), Some(&"module"));
    assert_eq!(map.count(), 2);
    map.insert(DependenciesBlockIdentifier::Module(7), "other");
    assert_eq!(map.get(DependenciesBlockIdentifier::Module(7)), Some(&"other"));
    assert_eq!(map.count(), 2);
}

#[test]
fn merging_keeps_what_was_there() {
    let first = DependenciesBlockIdentifier::Module(1);
    let second = DependenciesBlockIdentifier::AsyncDependenciesBlock(1);
    let third = DependenciesBlockIdentifier::Module(3);
    let mut target = BlockMap::new();
    target.insert(first, Arc::new(10));
    let mut source = BlockMap::new();
    source.insert(first, Arc::new(20));
    source.insert(second, Arc::new(30));
    source.insert(third, Arc::new(40));
    assert_eq!(target.merge_missing(&source), 2);
    assert_eq!(target.get(first), Some(&Arc::new(10)));
    assert_eq!(target.get(second), Some(&Arc::new(30)));
    assert_eq!(target.get(third), Some(&Arc::new(40)));
    assert_eq!(target.merge_missing(&source), 0);
    assert_eq!(source.count(), 3);
}

#[test]
fn counters_start_over_from_zero() {
    assert_eq!(count_of(5), 5);
    assert_eq!(counter_add(7, 5), 12);
    assert_eq!(counter_add(u32::MAX, 1), 0);
    assert_eq!(counter_add(u32::MAX - 1, 4), 2);
}

#[test]
fn connection_states_are_told_apart() {
    assert!(ConnectionState::Active(true).is_true());
    assert!(!ConnectionState::Active(true).is_false());
    assert!(ConnectionState::Active(false).is_false());
    assert!(!ConnectionState::Active(false).is_true());
    for state in [ConnectionState::CircularConnection, ConnectionState::TransitiveOnly] {
        assert!(!state.is_true() && !state.is_false());
    }
}
