use rustdoc_server::coordinate::GithubProject;
use rustdoc_server::extract::{plan_extraction, EntryAction};
use rustdoc_server::gate::{outcome_of_run, Decision, Outcome, PublicationGate};
use rustdoc_server::pipeline::{BuildError, PipelineError, RunState, Stage, StageError};
use rustdoc_server::publish::{child_path, CopyWork};

#[test]
fn second_request_is_already_published() {
    let mut g = PublicationGate::new();
    assert_eq!(g.request("acme/widget", false), Decision::Build);
    assert_eq!(g.last_outcome("acme/widget"), None);
    g.finish("acme/widget", Outcome::Built);
    assert!(!g.is_building("acme/widget"));
    assert_eq!(g.last_outcome("acme/widget"), Some(Outcome::Built));
    assert_eq!(g.request("acme/widget", true), Decision::AlreadyPublished);
    assert!(!g.is_building("acme/widget"));
}

#[test]
fn concurrent_requests_start_one_build() {
    let mut g = PublicationGate::new();
    let mut builds = 0;
    for _ in 0..8 {
        match g.request("acme/widget", false) {
            Decision::Build => builds += 1,
            Decision::Wait => {}
            Decision::AlreadyPublished => panic!("nothing is published"),
        }
    }
    assert_eq!(builds, 1);
    assert!(g.is_building("acme/widget"));
    assert_eq!(g.request("acme/other", false), Decision::Build);
    let failed = PipelineError { stage: Stage::Build, cause: StageError::Build(BuildError::ToolFailed) };
    g.finish("acme/widget", Outcome::Failed(failed));
    assert!(!g.is_building("acme/widget"));
    assert!(g.is_building("acme/other"));
    g.finish("acme/other", Outcome::Built);
    assert_eq!(g.last_outcome("acme/widget"), Some(Outcome::Failed(failed)));
    assert_eq!(g.last_outcome("acme/other"), Some(Outcome::Built));
    assert_eq!(g.request("acme/widget", false), Decision::Build);
    g.finish("acme/widget", Outcome::Built);
    assert_eq!(g.last_outcome("acme/widget"), Some(Outcome::Built));
}

#[test]
fn finishing_an_unknown_key_changes_nothing() {
    let mut g = PublicationGate::new();
    g.finish("x/y", Outcome::Built);
    assert!(!g.is_building("x/y"));
    assert_eq!(g.last_outcome("x/y"), Some(Outcome::Built));
    assert_eq!(g.last_outcome("x/z"), None);
}

#[test]
fn worklist_visits_directory_before_its_entries() {
    assert_eq!(child_path("", "doc"), "doc");
    assert_eq!(child_path("doc", "index.html"), "doc/index.html");
    let mut w = CopyWork::new();
    assert_eq!(w.next(), Some(String::new()));
    assert!(w.is_done());
    w.push_children("", &vec!["doc".to_string(), "src".to_string()]);
    assert_eq!(w.next(), Some("src".to_string()));
    w.push_children("src", &vec!["lib.html".to_string()]);
    assert_eq!(w.next(), Some("src/lib.html".to_string()));
    assert_eq!(w.next(), Some("doc".to_string()));
    assert_eq!(w.next(), None);
}

#[test]
fn acme_widget_is_built_once_and_published_under_its_key() {
    let p = GithubProject::new("acme", "widget").unwrap();
    let key = p.content_key();
    assert_eq!(key, "acme/widget");
    assert_eq!(p.archive_url(), "https://github.com/acme/widget/archive/master.zip");

    let mut g = PublicationGate::new();
    assert_eq!(g.request(&key, false), Decision::Build);

    let names = vec!["widget-master/".to_string(), "widget-master/src/lib.x".to_string()];
    assert_eq!(
        plan_extraction(&names),
        Ok(vec![EntryAction::Skip, EntryAction::WriteFile("src/lib.x".to_string())])
    );

    let mut w = CopyWork::new();
    assert_eq!(w.next(), Some(String::new()));
    w.push_children("", &vec!["doc".to_string()]);
    assert_eq!(w.next(), Some("doc".to_string()));
    w.push_children("doc", &vec!["index.html".to_string()]);
    assert_eq!(w.next(), Some("doc/index.html".to_string()));
    assert!(w.is_done());

    let mut s = RunState::begin(true);
    while !s.is_finished() {
        s = s.advance(Ok(()));
    }
    assert_eq!(outcome_of_run(s), Some(Outcome::Built));
    g.finish(&key, Outcome::Built);
    assert_eq!(g.request(&key, true), Decision::AlreadyPublished);
}
