use std::cell::Cell;

use parallel_code_splitter::report::log_stats;
use parallel_code_splitter::splitter::{
    CodeSplitter, ParallelCodeSplitterState, PARALLEL_CODE_SPLITTING_ENV,
    PARALLEL_CODE_SPLITTING_STATS_ENV,
};
use parallel_code_splitter::stats::{start_timer, stop_timer, ParallelCodeSplitterStats};

fn switches(code_splitting: Option<&[u8]>, stats: Option<&[u8]>) -> (bool, bool) {
    let mut state = ParallelCodeSplitterState::default();
    state.configure_from_env(code_splitting, stats);
    (state.enabled, state.stats_enabled)
}

#[test]
fn splitting_is_on_and_statistics_are_off_where_nothing_is_set() {
    let state = ParallelCodeSplitterState::default();
    assert!(!state.enabled && !state.stats_enabled);
    assert_eq!(switches(None, None), (true, false));
}

#[test]
fn switches_are_off_where_they_are_empty_or_zero() {
    assert_eq!(switches(Some(b""), Some(b"")), (false, false));
    assert_eq!(switches(Some(b"0"), Some(b"0")), (false, false));
}

#[test]
fn switches_are_on_for_any_other_value() {
    for value in ["1", "00", "false", " ", "0 "] {
        assert_eq!(switches(Some(value.as_bytes()), Some(value.as_bytes())), (true, true));
    }
    assert_eq!(switches(Some(&[0xff]), Some(&[0])), (true, true));
}

#[test]
fn configuring_forgets_what_was_counted_and_checked() {
    let mut state = ParallelCodeSplitterState::default();
    state.stats.delayed_rounds = 3;
    state.stats.walk_time_ns = 9;
    state.checked_pre_order_modules.insert(1);
    state.checked_post_order_modules.insert(2);
    state.configure_from_env(None, None);
    assert_eq!(state.stats, ParallelCodeSplitterStats::default());
    assert!(state.checked_pre_order_modules.is_empty());
    assert!(state.checked_post_order_modules.is_empty());
}

#[test]
fn the_switches_have_their_names() {
    assert_eq!(PARALLEL_CODE_SPLITTING_ENV, "RSPACK_EXPERIMENTAL_PARALLEL_CODE_SPLITTING");
    assert_eq!(
        PARALLEL_CODE_SPLITTING_STATS_ENV,
        "RSPACK_EXPERIMENTAL_PARALLEL_CODE_SPLITTING_STATS"
    );
}

#[test]
fn nothing_is_logged_where_statistics_are_off() {
    assert!(log_stats(&CodeSplitter::default()).is_none());
}

#[test]
fn statistics_are_logged_under_their_labels() {
    let mut splitter = CodeSplitter::default();
    splitter.parallel_state.stats_enabled = true;
    splitter.parallel_state.stats = ParallelCodeSplitterStats {
        delayed_rounds: 1,
        delayed_actions: 2,
        parallel_batches: 3,
        parallel_jobs: 4,
        serial_actions: 5,
        stale_jobs: 6,
        processed_queue_items: 7,
        processed_blocks: 8,
        committed_modules: 9,
        global_pre_order_candidates: 10,
        global_post_order_candidates: 11,
        global_pre_order_checks: 12,
        global_post_order_checks: 13,
        local_cache_entries: 14,
        cached_block_entries: 15,
        max_batch_size: 16,
        walk_time_ns: 17,
        commit_time_ns: 18,
        cache_time_ns: 19,
        chunk_graph_time_ns: 20,
        chunk_group_order_time_ns: 21,
        global_order_time_ns: 22,
        async_blocks_time_ns: 23,
        skipped_items_time_ns: 24,
    };
    let report = log_stats(&splitter).unwrap();
    assert_eq!(
        report.counters,
        vec![
            ("delayed_rounds", 1),
            ("delayed_actions", 2),
            ("parallel_batches", 3),
            ("parallel_jobs", 4),
            ("serial_actions", 5),
            ("stale_jobs", 6),
            ("processed_queue_items", 7),
            ("processed_blocks", 8),
            ("committed_modules", 9),
            ("global_pre_candidates", 10),
            ("global_post_candidates", 11),
            ("global_pre_checks", 12),
            ("global_post_checks", 13),
            ("local_cache_entries", 14),
            ("cached_block_entries", 15),
            ("max_batch_size", 16),
        ]
    );
    assert_eq!(
        report.times_ns,
        vec![
            ("walk_ms", 17),
            ("commit_ms", 18),
            ("cache_ms", 19),
            ("chunk_graph_ms", 20),
            ("chunk_group_order_ms", 21),
            ("global_order_ms", 22),
            ("async_blocks_ms", 23),
            ("skipped_items_ms", 24),
        ]
    );
}

#[test]
fn timers_only_run_where_something_is_measured() {
    let now = Cell::new(100);
    let clock = || {
        now.set(now.get() + 5);
        now.get()
    };
    assert_eq!(start_timer(false, &clock), None);
    assert_eq!(stop_timer(7, None, &clock), 7);
    assert_eq!(now.get(), 100);
    let start = start_timer(true, &clock);
    assert_eq!(start, Some(105));
    assert_eq!(stop_timer(7, start, &clock), 12);
    assert_eq!(stop_timer(u64::MAX, Some(110), &clock), 4);
}
