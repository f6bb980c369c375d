//! The build pipeline as a stage machine: fetch, extract, build and
//! publish, failing fast, with the scratch workspace always cleaned up
//! before the run finishes.
use vstd::prelude::*;
use crate::extract::ExtractError;

verus! {

/// Why the archive could not be fetched.
#[derive(Debug, Clone, Copy, PartialEq, Eq)]
pub enum FetchError {
    /// The connection failed or timed out.
    Transport,
    /// The remote answered with this non-success status.
    Status(u16),
}

/// Why the documentation tool did not succeed.
#[derive(Debug, Clone, Copy, PartialEq, Eq)]
pub enum BuildError {
    /// The tool could not be started.
    SpawnFailed,
    /// The tool ran and reported failure.
    ToolFailed,
}

/// Why the output could not be copied into the content directory.
#[derive(Debug, Clone, Copy, PartialEq, Eq)]
pub enum PublishError {
    Io,
}

/// The failure of one step.
#[derive(Debug, Clone, Copy, PartialEq, Eq)]
pub enum StageError {
    /// The scratch workspace could not be created.
    Workspace,
    Fetch(FetchError),
    Extract(ExtractError),
    Build(BuildError),
    Publish(PublishError),
}

/// The steps of a run.
#[derive(Debug, Clone, Copy, PartialEq, Eq, Structural)]
pub enum Stage {
    Workspace,
    Fetch,
    Extract,
    Build,
    Publish,
}

/// A failed run: the step that failed and why.
#[derive(Debug, Clone, Copy, PartialEq, Eq)]
pub struct PipelineError {
    pub stage: Stage,
    pub cause: StageError,
}

/// The name of a stage, as reported to the requester.
pub open spec fn stage_name_of(s: Stage) -> Seq<char> {
    match s {
        Stage::Workspace => "workspace"@,
        Stage::Fetch => "fetch"@,
        Stage::Extract => "extract"@,
        Stage::Build => "build"@,
        Stage::Publish => "publish"@,
    }
}

impl Stage {
    pub fn name(&self) -> (r: String)
        ensures
            r@ == stage_name_of(*self),
    {
        match self {
            Stage::Workspace => String::from_str("workspace"),
            Stage::Fetch => String::from_str("fetch"),
            Stage::Extract => String::from_str("extract"),
            Stage::Build => String::from_str("build"),
            Stage::Publish => String::from_str("publish"),
        }
    }
}

/// Where a run stands.
#[derive(Debug, Clone, Copy, PartialEq, Eq)]
pub enum RunState {
    Fetching,
    Extracting,
    Building,
    Publishing,
    /// The workspace is being removed; the run's result is already known.
    CleaningUp(Result<(), PipelineError>),
    /// The workspace is gone (or was never made) and the run is over.
    Finished(Result<(), PipelineError>),
}

/// The run holds a scratch workspace in this state.
pub open spec fn holds_workspace(s: RunState) -> bool {
    !(s is Finished)
}

/// The step that a working state performs.
pub open spec fn stage_of(s: RunState) -> Option<Stage> {
    match s {
        RunState::Fetching => Some(Stage::Fetch),
        RunState::Extracting => Some(Stage::Extract),
        RunState::Building => Some(Stage::Build),
        RunState::Publishing => Some(Stage::Publish),
        _ => None,
    }
}

/// The state after the current step reported `step`.
pub open spec fn next_state(s: RunState, step: Result<(), StageError>) -> RunState {
    match s {
        RunState::CleaningUp(res) => RunState::Finished(res),
        RunState::Finished(res) => RunState::Finished(res),
        _ => match step {
            Err(e) => RunState::CleaningUp(Err(PipelineError { stage: stage_of(s)->0, cause: e })),
            Ok(()) => match s {
                RunState::Fetching => RunState::Extracting,
                RunState::Extracting => RunState::Building,
                RunState::Building => RunState::Publishing,
                _ => RunState::CleaningUp(Ok(())),
            },
        },
    }
}

/// The state reached after the steps report `steps`, one after another.
pub open spec fn run_from(s: RunState, steps: Seq<Result<(), StageError>>) -> RunState
    decreases steps.len(),
{
    if steps.len() == 0 {
        s
    } else {
        run_from(next_state(s, steps[0]), steps.drop_first())
    }
}

/// How many more steps the run takes before it finishes.
pub open spec fn steps_left(s: RunState) -> nat {
    match s {
        RunState::Fetching => 5,
        RunState::Extracting => 4,
        RunState::Building => 3,
        RunState::Publishing => 2,
        RunState::CleaningUp(_) => 1,
        RunState::Finished(_) => 0,
    }
}

impl RunState {
    /// The first state of a run: fetching once the workspace exists,
    /// finished with a workspace failure otherwise.
    pub fn begin(workspace_created: bool) -> (r: RunState)
        ensures
            workspace_created ==> r == RunState::Fetching,
            !workspace_created ==> r == RunState::Finished(
                Err(PipelineError { stage: Stage::Workspace, cause: StageError::Workspace }),
            ),
    {
        if workspace_created {
            RunState::Fetching
        } else {
            RunState::Finished(
                Err(PipelineError { stage: Stage::Workspace, cause: StageError::Workspace }),
            )
        }
    }

    /// Moves on once the current step has reported `step`. A failure is
    /// tagged with the stage it came from; the cleanup's own outcome does
    /// not change the run's result.
    pub fn advance(self, step: Result<(), StageError>) -> (r: RunState)
        ensures
            r == next_state(self, step),
    {
        match self {
            RunState::CleaningUp(res) => RunState::Finished(res),
            RunState::Finished(res) => RunState::Finished(res),
            _ => {
                let stage = match self {
                    RunState::Fetching => Stage::Fetch,
                    RunState::Extracting => Stage::Extract,
                    RunState::Building => Stage::Build,
                    _ => Stage::Publish,
                };
                match step {
                    Err(e) => RunState::CleaningUp(Err(PipelineError { stage, cause: e })),
                    Ok(()) => match self {
                        RunState::Fetching => RunState::Extracting,
                        RunState::Extracting => RunState::Building,
                        RunState::Building => RunState::Publishing,
                        _ => RunState::CleaningUp(Ok(())),
                    },
                }
            },
        }
    }

    /// The run is over.
    pub fn is_finished(&self) -> (r: bool)
        ensures
            r == (*self is Finished),
    {
        match self {
            RunState::Finished(_) => true,
            _ => false,
        }
    }
}

/// Maps an HTTP status to the fetch step's result: any 2xx is success.
pub fn fetch_status(code: u16) -> (r: Result<(), FetchError>)
    ensures
        200 <= code <= 299 ==> r is Ok,
        !(200 <= code <= 299) ==> r == Err::<(), FetchError>(FetchError::Status(code)),
{
    if 200 <= code && code <= 299 {
        Ok(())
    } else {
        Err(FetchError::Status(code))
    }
}

/// Maps how the documentation tool ended to the build step's result.
pub fn build_status(spawned: bool, exit_success: bool) -> (r: Result<(), BuildError>)
    ensures
        !spawned ==> r == Err::<(), BuildError>(BuildError::SpawnFailed),
        spawned && !exit_success ==> r == Err::<(), BuildError>(BuildError::ToolFailed),
        spawned && exit_success ==> r is Ok,
{
    if !spawned {
        Err(BuildError::SpawnFailed)
    } else if !exit_success {
        Err(BuildError::ToolFailed)
    } else {
        Ok(())
    }
}

/// The workspace is only ever released by the cleanup step: from a state
/// that holds it, one step leads to the finished state only out of
/// cleanup, and every step of a working state either moves on or fails
/// into cleanup.
pub proof fn lemma_cleanup_before_finish(s: RunState, step: Result<(), StageError>)
    requires
        holds_workspace(s),
    ensures
        next_state(s, step) is Finished ==> s is CleaningUp,
        !(s is CleaningUp) ==> holds_workspace(next_state(s, step)),
        step is Err && stage_of(s) is Some ==> next_state(s, step) == RunState::CleaningUp(
            Err(PipelineError { stage: stage_of(s)->0, cause: step->Err_0 }),
        ),
{
}

/// Every run finishes: each step brings it closer, and after as many steps
/// as `steps_left` it is over, whatever the steps reported, with the result
/// that the cleanup step carried.
pub proof fn lemma_run_finishes(s: RunState, steps: Seq<Result<(), StageError>>)
    requires
        steps.len() >= steps_left(s),
    ensures
        run_from(s, steps) is Finished,
        s matches RunState::CleaningUp(res) ==> run_from(s, steps) == RunState::Finished(res),
        s is Finished ==> run_from(s, steps) == s,
    decreases steps.len(),
{
    if steps.len() > 0 {
        let n = next_state(s, steps[0]);
        match s {
            RunState::Finished(_) => {},
            RunState::CleaningUp(_) => {},
            _ => {
                assert(steps_left(n) < steps_left(s)) by {
                    match steps[0] {
                        Ok(_) => {},
                        Err(_) => {},
                    }
                }
            },
        }
        lemma_run_finishes(n, steps.drop_first());
    }
}

/// The workspace is cleaned up on every path: whatever the steps report,
/// a run that started holding it and has finished went through the cleanup
/// state, carrying the very result it finished with.
pub proof fn lemma_finished_run_cleaned_up(s: RunState, steps: Seq<Result<(), StageError>>)
    requires
        holds_workspace(s),
        run_from(s, steps) is Finished,
    ensures
        exists|k: int|
            0 <= k < steps.len() && #[trigger] run_from(s, steps.take(k)) == RunState::CleaningUp(
                run_from(s, steps)->Finished_0,
            ),
    decreases steps.len(),
{
    if steps.len() == 0 {
        assert(run_from(s, steps) == s);
    } else {
        let n = next_state(s, steps[0]);
        let rest = steps.drop_first();
        if let RunState::CleaningUp(res) = s {
            lemma_run_finishes(n, rest);
            assert(steps.take(0) =~= Seq::<Result<(), StageError>>::empty());
            assert(run_from(s, steps.take(0)) == s);
        } else {
            lemma_finished_run_cleaned_up(n, rest);
            let k = choose|k: int|
                0 <= k < rest.len() && #[trigger] run_from(n, rest.take(k)) == RunState::CleaningUp(
                    run_from(n, rest)->Finished_0,
                );
            assert(steps.take(k + 1).drop_first() =~= rest.take(k));
            assert(steps.take(k + 1)[0] == steps[0]);
            assert(run_from(s, steps.take(k + 1)) == run_from(n, rest.take(k)));
        }
    }
}

} // verus!
