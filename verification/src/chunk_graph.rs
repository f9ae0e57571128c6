use vstd::prelude::*;

verus! {

/// Whether a build goes on from the splitter that the last one has stored. Updating it by heuristics is
/// disabled for the time being.
pub const ENABLE_INCREMENTAL: bool = false;

/// What building a chunk graph consists of.
#[derive(Clone, Copy, Debug, PartialEq, Eq, Structural)]
pub enum BuildTask {
    /// Take the splitter that the last build has stored.
    TakeStoredSplitter,
    /// Begin with a splitter that knows nothing.
    NewSplitter,
    /// Configure the statistics, and begin to measure the whole.
    ConfigureStats,
    /// Collect the modules of the module graph.
    CollectModules,
    /// Prepare the splitter for these modules.
    Prepare,
    /// Bring the splitter up to date with the compilation.
    UpdateWithCompilation,
    /// Collect the entrypoints and their modules.
    PrepareInput,
    /// Make chunk groups for the entrypoints.
    PrepareEntries,
    /// Split the code.
    Split,
    /// Remove the chunk groups that are empty.
    RemoveOrphan,
    /// Make sure that every module is in the chunk graph, those with weak dependencies in particular.
    EnsureModules,
    /// Record the time of the whole.
    RecordTotal,
    /// Log the statistics.
    LogStats,
    /// Store the splitter for the next build.
    StoreSplitter,
}

/// The phases of a build whose times are recorded.
#[derive(Clone, Copy, Debug, PartialEq, Eq, Structural)]
pub enum CodeSplitterStatsPhase {
    CollectModules,
    UpdateWithCompilation,
    PrepareInput,
    PrepareEntries,
    RemoveOrphan,
    EnsureModules,
    Total,
}

/// What has happened in a build.
#[derive(Clone, Copy, Debug, PartialEq, Eq, Structural)]
pub enum BuildEvent {
    Started,
    Done(BuildTask),
    Failed(BuildTask),
}

/// What a build does next.
#[derive(Clone, Copy, Debug, PartialEq, Eq, Structural)]
pub enum BuildStep {
    Run(BuildTask),
    /// The build has succeeded.
    Finish,
    /// The build has failed, with the error of the task that did.
    Abort,
}

/// Whether the entrypoints are prepared: not where a splitter is used again that has chunk groups.
pub open spec fn prepares_entries(enable_incremental: bool, no_chunk_groups: bool) -> bool {
    !enable_incremental || no_chunk_groups
}

/// The task that a build begins with.
pub open spec fn first_task(enable_incremental: bool) -> BuildTask {
    if enable_incremental {
        BuildTask::TakeStoredSplitter
    } else {
        BuildTask::NewSplitter
    }
}

/// The task that follows on another one, where it is not the last.
pub open spec fn task_after(
    enable_incremental: bool,
    no_chunk_groups: bool,
    done: BuildTask,
) -> Option<BuildTask> {
    match done {
        BuildTask::TakeStoredSplitter => Some(BuildTask::ConfigureStats),
        BuildTask::NewSplitter => Some(BuildTask::ConfigureStats),
        BuildTask::ConfigureStats => Some(BuildTask::CollectModules),
        BuildTask::CollectModules => Some(BuildTask::Prepare),
        BuildTask::Prepare => Some(BuildTask::UpdateWithCompilation),
        BuildTask::UpdateWithCompilation => if prepares_entries(
            enable_incremental,
            no_chunk_groups,
        ) {
            Some(BuildTask::PrepareInput)
        } else {
            Some(BuildTask::Split)
        },
        BuildTask::PrepareInput => Some(BuildTask::PrepareEntries),
        BuildTask::PrepareEntries => Some(BuildTask::Split),
        BuildTask::Split => Some(BuildTask::RemoveOrphan),
        BuildTask::RemoveOrphan => Some(BuildTask::EnsureModules),
        BuildTask::EnsureModules => Some(BuildTask::RecordTotal),
        BuildTask::RecordTotal => Some(BuildTask::LogStats),
        BuildTask::LogStats => Some(BuildTask::StoreSplitter),
        BuildTask::StoreSplitter => None,
    }
}

/// Decides what a build does next: each task follows on the one before it, and the first that fails
/// ends the build. `no_chunk_groups` tells whether the splitter has no chunk groups, as of now.
pub fn build_chunk_graph(
    enable_incremental: bool,
    no_chunk_groups: bool,
    event: BuildEvent,
) -> (step: BuildStep)
    ensures
        match event {
            BuildEvent::Started => step == BuildStep::Run(first_task(enable_incremental)),
            BuildEvent::Failed(_) => step == BuildStep::Abort,
            BuildEvent::Done(done) => match task_after(enable_incremental, no_chunk_groups, done) {
                Some(task) => step == BuildStep::Run(task),
                None => step == BuildStep::Finish,
            },
        },
{
    let done = match event {
        BuildEvent::Started => {
            return BuildStep::Run(
                if enable_incremental {
                    BuildTask::TakeStoredSplitter
                } else {
                    BuildTask::NewSplitter
                },
            );
        },
        BuildEvent::Failed(_) => {
            return BuildStep::Abort;
        },
        BuildEvent::Done(done) => done,
    };
    match done {
        BuildTask::TakeStoredSplitter => BuildStep::Run(BuildTask::ConfigureStats),
        BuildTask::NewSplitter => BuildStep::Run(BuildTask::ConfigureStats),
        BuildTask::ConfigureStats => BuildStep::Run(BuildTask::CollectModules),
        BuildTask::CollectModules => BuildStep::Run(BuildTask::Prepare),
        BuildTask::Prepare => BuildStep::Run(BuildTask::UpdateWithCompilation),
        BuildTask::UpdateWithCompilation => if !enable_incremental || no_chunk_groups {
            BuildStep::Run(BuildTask::PrepareInput)
        } else {
            BuildStep::Run(BuildTask::Split)
        },
        BuildTask::PrepareInput => BuildStep::Run(BuildTask::PrepareEntries),
        BuildTask::PrepareEntries => BuildStep::Run(BuildTask::Split),
        BuildTask::Split => BuildStep::Run(BuildTask::RemoveOrphan),
        BuildTask::RemoveOrphan => BuildStep::Run(BuildTask::EnsureModules),
        BuildTask::EnsureModules => BuildStep::Run(BuildTask::RecordTotal),
        BuildTask::RecordTotal => BuildStep::Run(BuildTask::LogStats),
        BuildTask::LogStats => BuildStep::Run(BuildTask::StoreSplitter),
        BuildTask::StoreSplitter => BuildStep::Finish,
    }
}

/// The phase whose time is recorded once a task is done, where there is one.
pub open spec fn recorded(task: BuildTask) -> Option<CodeSplitterStatsPhase> {
    match task {
        BuildTask::CollectModules => Some(CodeSplitterStatsPhase::CollectModules),
        BuildTask::UpdateWithCompilation => Some(CodeSplitterStatsPhase::UpdateWithCompilation),
        BuildTask::PrepareInput => Some(CodeSplitterStatsPhase::PrepareInput),
        BuildTask::PrepareEntries => Some(CodeSplitterStatsPhase::PrepareEntries),
        BuildTask::RemoveOrphan => Some(CodeSplitterStatsPhase::RemoveOrphan),
        BuildTask::EnsureModules => Some(CodeSplitterStatsPhase::EnsureModules),
        BuildTask::RecordTotal => Some(CodeSplitterStatsPhase::Total),
        _ => None,
    }
}

/// The phase whose time is to be recorded once a task is done, where there is one.
pub fn recorded_phase(task: BuildTask) -> (phase: Option<CodeSplitterStatsPhase>)
    ensures
        phase == recorded(task),
{
    match task {
        BuildTask::CollectModules => Some(CodeSplitterStatsPhase::CollectModules),
        BuildTask::UpdateWithCompilation => Some(CodeSplitterStatsPhase::UpdateWithCompilation),
        BuildTask::PrepareInput => Some(CodeSplitterStatsPhase::PrepareInput),
        BuildTask::PrepareEntries => Some(CodeSplitterStatsPhase::PrepareEntries),
        BuildTask::RemoveOrphan => Some(CodeSplitterStatsPhase::RemoveOrphan),
        BuildTask::EnsureModules => Some(CodeSplitterStatsPhase::EnsureModules),
        BuildTask::RecordTotal => Some(CodeSplitterStatsPhase::Total),
        _ => None,
    }
}

/// The tasks of a build, in order, with or without those for the entrypoints.
pub open spec fn build_tasks(enable_incremental: bool, with_entries: bool) -> Seq<BuildTask> {
    if with_entries {
        seq![
            first_task(enable_incremental),
            BuildTask::ConfigureStats,
            BuildTask::CollectModules,
            BuildTask::Prepare,
            BuildTask::UpdateWithCompilation,
            BuildTask::PrepareInput,
            BuildTask::PrepareEntries,
            BuildTask::Split,
            BuildTask::RemoveOrphan,
            BuildTask::EnsureModules,
            BuildTask::RecordTotal,
            BuildTask::LogStats,
            BuildTask::StoreSplitter,
        ]
    } else {
        seq![
            first_task(enable_incremental),
            BuildTask::ConfigureStats,
            BuildTask::CollectModules,
            BuildTask::Prepare,
            BuildTask::UpdateWithCompilation,
            BuildTask::Split,
            BuildTask::RemoveOrphan,
            BuildTask::EnsureModules,
            BuildTask::RecordTotal,
            BuildTask::LogStats,
            BuildTask::StoreSplitter,
        ]
    }
}

/// A build in which no task fails goes through all of its tasks in their order, and ends once the
/// splitter is stored. Whether the entrypoints are prepared is settled once the splitter is up to
/// date, by whether it has no chunk groups then; what becomes of the chunk groups after that makes no
/// difference.
pub proof fn law_build_goes_through_its_tasks(
    enable_incremental: bool,
    no_chunk_groups: spec_fn(BuildTask) -> bool,
    i: int,
)
    requires
        0 <= i < build_tasks(
            enable_incremental,
            prepares_entries(enable_incremental, no_chunk_groups(BuildTask::UpdateWithCompilation)),
        ).len(),
    ensures
        ({
            let tasks = build_tasks(
                enable_incremental,
                prepares_entries(
                    enable_incremental,
                    no_chunk_groups(BuildTask::UpdateWithCompilation),
                ),
            );
            &&& tasks[0] == first_task(enable_incremental)
            &&& task_after(enable_incremental, no_chunk_groups(tasks[i]), tasks[i]) == if i + 1
                < tasks.len() {
                Some(tasks[i + 1])
            } else {
                None
            }
        }),
{
    assert(i == 0 || i == 1 || i == 2 || i == 3 || i == 4 || i == 5 || i == 6 || i == 7 || i == 8 || i
        == 9 || i == 10 || i == 11 || i == 12);
}

} // verus!
