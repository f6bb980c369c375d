use rustdoc_server::entry_path::{drop_dots_from, join_from, keep_nonempty, remove_leading_component, resolve_from, split_parts};
use rustdoc_server::extract::{plan_entry, plan_extraction, EntryAction, ExtractError};

fn strings(v: &[&str]) -> Vec<String> {
    v.iter().map(|s| s.to_string()).collect()
}

#[test]
fn split_keeps_empty_pieces() {
    assert_eq!(split_parts("a//b/"), strings(&["a", "", "b", ""]));
    assert_eq!(split_parts(""), strings(&[""]));
    assert_eq!(keep_nonempty(&split_parts("/a//b/")), strings(&["a", "b"]));
}

#[test]
fn join_and_resolve() {
    assert_eq!(join_from(&strings(&["a", "b", "c"]), 1), "b/c");
    assert_eq!(join_from(&strings(&["a"]), 1), "");
    assert_eq!(resolve_from(&strings(&["a", ".", "b", "..", "c"]), 0), Some(strings(&["a", "c"])));
    assert_eq!(resolve_from(&strings(&["a", "..", ".."]), 0), None);
}

#[test]
fn leading_component_is_removed() {
    assert_eq!(remove_leading_component("proj-master/src/lib.x"), "src/lib.x");
    assert_eq!(remove_leading_component("proj-master/"), "");
    assert_eq!(remove_leading_component("proj-master"), "");
    assert_eq!(remove_leading_component("a//b/c/"), "b/c");
}

#[test]
fn dot_pieces_after_the_first_are_dropped() {
    assert_eq!(remove_leading_component("a/./b"), "b");
    assert_eq!(remove_leading_component("a/b/."), "b");
    assert_eq!(remove_leading_component("./a/b"), "a/b");
    assert_eq!(remove_leading_component("/./a"), "a");
    assert_eq!(remove_leading_component("a/../b"), "../b");
    assert_eq!(drop_dots_from(&strings(&["x", ".", "y", "."]), 1), strings(&["y"]));
}

#[test]
fn absolute_path_loses_only_its_root() {
    assert_eq!(remove_leading_component("/etc/passwd"), "etc/passwd");
    assert_eq!(remove_leading_component("//etc//passwd/"), "etc/passwd");
    assert_eq!(remove_leading_component("/"), "");
}

#[test]
fn traversal_entry_is_unsafe() {
    assert_eq!(plan_entry("../../etc/passwd"), Err(ExtractError::UnsafePath));
    assert_eq!(plan_entry("proj-master/../../x"), Err(ExtractError::UnsafePath));
}

#[test]
fn absolute_entry_is_unsafe() {
    assert_eq!(plan_entry("/etc/passwd"), Err(ExtractError::UnsafePath));
}

#[test]
fn prefix_only_entry_is_skipped() {
    assert_eq!(plan_entry("proj-master/"), Ok(EntryAction::Skip));
    assert_eq!(plan_entry("proj-master"), Ok(EntryAction::Skip));
}

#[test]
fn remainder_resolving_to_the_root_is_unsafe() {
    assert_eq!(plan_entry("proj-master/a/.."), Err(ExtractError::UnsafePath));
    assert_eq!(plan_entry("proj-master/a/../"), Err(ExtractError::UnsafePath));
    assert_eq!(plan_entry("proj-master/."), Err(ExtractError::UnsafePath));
}

#[test]
fn entries_are_planned_below_the_root() {
    assert_eq!(plan_entry("proj-master/src/"), Ok(EntryAction::CreateDir("src".to_string())));
    assert_eq!(plan_entry("proj-master/src/lib.x"), Ok(EntryAction::WriteFile("src/lib.x".to_string())));
    assert_eq!(plan_entry("proj-master/a/../b"), Ok(EntryAction::WriteFile("b".to_string())));
    assert_eq!(plan_entry("proj-master/./a//b"), Ok(EntryAction::WriteFile("a/b".to_string())));
}

#[test]
fn whole_archive_is_planned_with_prefix_removed() {
    let names = strings(&["widget-master/", "widget-master/src/", "widget-master/src/lib.x"]);
    assert_eq!(
        plan_extraction(&names),
        Ok(vec![
            EntryAction::Skip,
            EntryAction::CreateDir("src".to_string()),
            EntryAction::WriteFile("src/lib.x".to_string()),
        ])
    );
}

#[test]
fn one_unsafe_entry_refuses_the_archive() {
    let names = strings(&["proj-master/ok.txt", "../../etc/passwd", "proj-master/later.txt"]);
    assert_eq!(plan_extraction(&names), Err(ExtractError::UnsafePath));
    assert_eq!(plan_extraction(&Vec::new()), Ok(Vec::new()));
}
