//! Tests of the task record and the per-invocation command choice.

use task_link_cli::commands::{choose_command, Command};
use task_link_cli::task::Task;

#[test]
fn new_task_is_initialized_with_no_optional_fields() {
    let t = Task::new("Write report".to_string());
    assert_eq!(t.description, "Write report");
    assert_eq!(t.status, "Initialized");
    assert!(t.dependencies.is_none());
    assert!(t.linked_files.is_none());
    assert!(t.linked_urls.is_none());
}

#[test]
fn add_linked_files_initializes_an_unset_list() {
    let mut t = Task::new("a".to_string());
    t.add_linked_files(vec!["/x/1".to_string(), "/x/2".to_string()]);
    assert_eq!(t.linked_files, Some(vec!["/x/1".to_string(), "/x/2".to_string()]));
}

#[test]
fn add_linked_files_appends_without_deduplication() {
    let mut t = Task::new("a".to_string());
    t.add_linked_files(vec!["/x/1".to_string()]);
    t.add_linked_files(vec!["/x/1".to_string(), "/x/2".to_string()]);
    assert_eq!(
        t.linked_files,
        Some(vec!["/x/1".to_string(), "/x/1".to_string(), "/x/2".to_string()])
    );
}

#[test]
fn mark_completed_sets_only_the_status() {
    let mut t = Task::new("a".to_string());
    t.add_linked_files(vec!["/x/1".to_string()]);
    t.mark_completed();
    assert_eq!(t.status, "Completed");
    assert_eq!(t.description, "a");
    assert_eq!(t.linked_files, Some(vec!["/x/1".to_string()]));
    assert!(t.dependencies.is_none());
    assert!(t.linked_urls.is_none());
}

#[test]
fn mark_completed_twice_is_idempotent() {
    let mut t = Task::new("a".to_string());
    t.mark_completed();
    let once = t.clone();
    t.mark_completed();
    assert_eq!(t, once);
    assert_eq!(t.status, "Completed");
}

#[test]
fn first_present_flag_wins_in_order() {
    match choose_command(Some("c".to_string()), Some("u".to_string()), Some("m".to_string())) {
        Command::Create(d) => assert_eq!(d, "c"),
        _ => panic!("create must win"),
    }
    match choose_command(None, Some("u".to_string()), Some("m".to_string())) {
        Command::Update(d) => assert_eq!(d, "u"),
        _ => panic!("update must win over mark-complete"),
    }
    match choose_command(None, None, Some("m".to_string())) {
        Command::MarkComplete(d) => assert_eq!(d, "m"),
        _ => panic!("mark-complete must be chosen"),
    }
    assert!(matches!(choose_command(None, None, None), Command::NoCommand));
}
