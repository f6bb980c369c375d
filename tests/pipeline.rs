use rustdoc_server::extract::ExtractError;
use rustdoc_server::gate::{outcome_of_run, Outcome};
use rustdoc_server::pipeline::{
    build_status, fetch_status, BuildError, FetchError, PipelineError, PublishError, RunState, Stage,
    StageError,
};

#[test]
fn successful_run_passes_every_stage_then_cleans_up() {
    let mut s = RunState::begin(true);
    assert_eq!(s, RunState::Fetching);
    let expected = [RunState::Extracting, RunState::Building, RunState::Publishing, RunState::CleaningUp(Ok(()))];
    for e in expected.iter() {
        s = s.advance(Ok(()));
        assert_eq!(s, *e);
    }
    assert!(!s.is_finished());
    s = s.advance(Err(StageError::Workspace));
    assert_eq!(s, RunState::Finished(Ok(())));
    assert!(s.is_finished());
    assert_eq!(outcome_of_run(s), Some(Outcome::Built));
}

#[test]
fn tool_failure_fails_the_build_stage() {
    let mut s = RunState::begin(true);
    s = s.advance(Ok(()));
    s = s.advance(Ok(()));
    let step = build_status(true, false).map_err(StageError::Build);
    s = s.advance(step);
    let err = PipelineError { stage: Stage::Build, cause: StageError::Build(BuildError::ToolFailed) };
    assert_eq!(s, RunState::CleaningUp(Err(err)));
    s = s.advance(Ok(()));
    assert_eq!(outcome_of_run(s), Some(Outcome::Failed(err)));
    assert_eq!(err.stage.name(), "build");
}

#[test]
fn every_failure_goes_through_cleanup() {
    let working = [RunState::Fetching, RunState::Extracting, RunState::Building, RunState::Publishing];
    let stages = [Stage::Fetch, Stage::Extract, Stage::Build, Stage::Publish];
    let causes = [
        StageError::Fetch(FetchError::Transport),
        StageError::Extract(ExtractError::CorruptArchive),
        StageError::Build(BuildError::SpawnFailed),
        StageError::Publish(PublishError::Io),
    ];
    for i in 0..4 {
        let next = working[i].advance(Err(causes[i]));
        let err = PipelineError { stage: stages[i], cause: causes[i] };
        assert_eq!(next, RunState::CleaningUp(Err(err)));
        assert_eq!(next.advance(Ok(())), RunState::Finished(Err(err)));
    }
}

#[test]
fn workspace_failure_finishes_at_once() {
    let s = RunState::begin(false);
    let err = PipelineError { stage: Stage::Workspace, cause: StageError::Workspace };
    assert_eq!(s, RunState::Finished(Err(err)));
    assert_eq!(s.advance(Ok(())), s);
    assert_eq!(outcome_of_run(RunState::Building), None);
}

#[test]
fn status_mappings() {
    assert_eq!(fetch_status(200), Ok(()));
    assert_eq!(fetch_status(299), Ok(()));
    assert_eq!(fetch_status(404), Err(FetchError::Status(404)));
    assert_eq!(fetch_status(199), Err(FetchError::Status(199)));
    assert_eq!(build_status(false, true), Err(BuildError::SpawnFailed));
    assert_eq!(build_status(true, false), Err(BuildError::ToolFailed));
    assert_eq!(build_status(true, true), Ok(()));
}

#[test]
fn stage_names() {
    assert_eq!(Stage::Workspace.name(), "workspace");
    assert_eq!(Stage::Fetch.name(), "fetch");
    assert_eq!(Stage::Extract.name(), "extract");
    assert_eq!(Stage::Publish.name(), "publish");
}
