use rustdoc_server::coordinate::{is_valid_segment, CoordinateError, GithubProject};

#[test]
fn valid_coordinate_derives_url_and_key() {
    let p = GithubProject::new("acme", "widget").unwrap();
    assert_eq!(p.username(), "acme");
    assert_eq!(p.repo(), "widget");
    assert_eq!(p.archive_url(), "https://github.com/acme/widget/archive/master.zip");
    assert_eq!(p.content_key(), "acme/widget");
}

#[test]
fn allowed_characters_are_accepted() {
    let p = GithubProject::new("A-b_c.9", "serde.rs").unwrap();
    assert_eq!(p.content_key(), "A-b_c.9/serde.rs");
}

#[test]
fn separator_is_rejected() {
    assert_eq!(GithubProject::new("ac/me", "widget").unwrap_err(), CoordinateError::InvalidOwner);
    assert_eq!(GithubProject::new("acme", "wid/get").unwrap_err(), CoordinateError::InvalidName);
}

#[test]
fn parent_sequence_is_rejected() {
    assert_eq!(GithubProject::new("..", "widget").unwrap_err(), CoordinateError::InvalidOwner);
    assert_eq!(GithubProject::new("acme", "a..b").unwrap_err(), CoordinateError::InvalidName);
    assert!(is_valid_segment("a.b.c"));
    assert!(!is_valid_segment("a.b..c"));
    assert_eq!(GithubProject::new(".", "widget").unwrap_err(), CoordinateError::InvalidOwner);
    assert_eq!(GithubProject::new("acme", ".").unwrap_err(), CoordinateError::InvalidName);
    assert!(is_valid_segment(".a"));
}

#[test]
fn nul_and_empty_are_rejected() {
    assert_eq!(GithubProject::new("ac\0me", "widget").unwrap_err(), CoordinateError::InvalidOwner);
    assert_eq!(GithubProject::new("", "widget").unwrap_err(), CoordinateError::InvalidOwner);
    assert_eq!(GithubProject::new("acme", "").unwrap_err(), CoordinateError::InvalidName);
    assert_eq!(GithubProject::new("acme", "wid get").unwrap_err(), CoordinateError::InvalidName);
}

#[test]
fn owner_is_checked_first() {
    assert_eq!(GithubProject::new("a/b", "c/d").unwrap_err(), CoordinateError::InvalidOwner);
}
