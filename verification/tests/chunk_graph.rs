use parallel_code_splitter::chunk_graph::{
    build_chunk_graph, recorded_phase, BuildEvent, BuildStep, BuildTask, CodeSplitterStatsPhase,
    ENABLE_INCREMENTAL,
};

fn tasks_of(enable_incremental: bool, no_chunk_groups: bool) -> Vec<BuildTask> {
    let mut tasks = Vec::new();
    let mut event = BuildEvent::Started;
    loop {
        match build_chunk_graph(enable_incremental, no_chunk_groups, event) {
            BuildStep::Run(task) => {
                tasks.push(task);
                event = BuildEvent::Done(task);
            }
            BuildStep::Finish => return tasks,
            BuildStep::Abort => panic!("no task has failed"),
        }
    }
}

#[test]
fn a_build_goes_through_its_tasks() {
    let tasks = vec![
        BuildTask::NewSplitter,
        BuildTask::ConfigureStats,
        BuildTask::CollectModules,
        BuildTask::Prepare,
        BuildTask::UpdateWithCompilation,
        BuildTask::PrepareInput,
        BuildTask::PrepareEntries,
        BuildTask::Split,
        BuildTask::RemoveOrphan,
        BuildTask::EnsureModules,
        BuildTask::RecordTotal,
        BuildTask::LogStats,
        BuildTask::StoreSplitter,
    ];
    assert!(!ENABLE_INCREMENTAL);
    assert_eq!(tasks_of(ENABLE_INCREMENTAL, true), tasks);
    assert_eq!(tasks_of(ENABLE_INCREMENTAL, false), tasks);
}

#[test]
fn an_incremental_build_goes_on_from_the_stored_splitter() {
    let fresh = tasks_of(true, true);
    assert_eq!(fresh[0], BuildTask::TakeStoredSplitter);
    assert!(fresh.contains(&BuildTask::PrepareInput) && fresh.contains(&BuildTask::PrepareEntries));
    let again = tasks_of(true, false);
    assert_eq!(again[0], BuildTask::TakeStoredSplitter);
    assert!(!again.contains(&BuildTask::PrepareInput) && !again.contains(&BuildTask::PrepareEntries));
    assert_eq!(again.len(), 11);
}

#[test]
fn the_first_task_that_fails_ends_a_build() {
    for task in tasks_of(false, true) {
        assert_eq!(build_chunk_graph(false, true, BuildEvent::Failed(task)), BuildStep::Abort);
    }
}

#[test]
fn phases_are_recorded_after_their_tasks() {
    let phases: Vec<_> = tasks_of(false, true).into_iter().filter_map(recorded_phase).collect();
    assert_eq!(
        phases,
        vec![
            CodeSplitterStatsPhase::CollectModules,
            CodeSplitterStatsPhase::UpdateWithCompilation,
            CodeSplitterStatsPhase::PrepareInput,
            CodeSplitterStatsPhase::PrepareEntries,
            CodeSplitterStatsPhase::RemoveOrphan,
            CodeSplitterStatsPhase::EnsureModules,
            CodeSplitterStatsPhase::Total,
        ]
    );
    assert_eq!(recorded_phase(BuildTask::Prepare), None);
    assert_eq!(recorded_phase(BuildTask::Split), None);
}
