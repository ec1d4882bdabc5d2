//! Tests of the commands on the task list, including the end-to-end
//! course of one task through create, update and mark-complete.

use task_link_cli::codec::{load_tasks, tasks_to_json};
use task_link_cli::commands::{add_task, find_task, mark_task_completed, update_task};
use task_link_cli::linker::matching_paths;
use task_link_cli::task::Task;

#[test]
fn create_appends_at_the_end() {
    let mut tasks = vec![Task::new("a".to_string()), Task::new("b".to_string())];
    add_task(&mut tasks, Task::new("c".to_string()));
    assert_eq!(tasks.len(), 3);
    assert_eq!(tasks[0].description, "a");
    assert_eq!(tasks[1].description, "b");
    assert_eq!(tasks[2].description, "c");
    assert_eq!(tasks[2].status, "Initialized");
    assert!(tasks[2].dependencies.is_none());
    assert!(tasks[2].linked_files.is_none());
    assert!(tasks[2].linked_urls.is_none());
}

#[test]
fn create_never_checks_for_duplicates() {
    let mut tasks = vec![Task::new("a".to_string())];
    add_task(&mut tasks, Task::new("a".to_string()));
    assert_eq!(tasks.len(), 2);
    assert_eq!(tasks[0].description, "a");
    assert_eq!(tasks[1].description, "a");
}

#[test]
fn lookup_finds_the_first_match_only() {
    let mut first = Task::new("dup".to_string());
    first.mark_completed();
    let tasks = vec![
        Task::new("other".to_string()),
        first,
        Task::new("dup".to_string()),
    ];
    assert_eq!(find_task(&tasks, &"dup".to_string()), Some(1));
    assert_eq!(find_task(&tasks, &"other".to_string()), Some(0));
    assert_eq!(find_task(&tasks, &"missing".to_string()), None);
}

#[test]
fn update_attaches_files_to_the_first_match() {
    let mut tasks = vec![
        Task::new("a".to_string()),
        Task::new("dup".to_string()),
        Task::new("dup".to_string()),
    ];
    let found = update_task(
        &mut tasks,
        &"dup".to_string(),
        vec!["/d/[dup] 1".to_string(), "/d/[dup] 2".to_string()],
    );
    assert!(found);
    assert_eq!(
        tasks[1].linked_files,
        Some(vec!["/d/[dup] 1".to_string(), "/d/[dup] 2".to_string()])
    );
    assert!(tasks[0].linked_files.is_none());
    assert!(tasks[2].linked_files.is_none());
}

#[test]
fn repeated_update_accumulates_duplicates() {
    let mut tasks = vec![Task::new("a".to_string())];
    update_task(&mut tasks, &"a".to_string(), vec!["/d/[a] 1".to_string()]);
    update_task(&mut tasks, &"a".to_string(), vec!["/d/[a] 1".to_string()]);
    assert_eq!(
        tasks[0].linked_files,
        Some(vec!["/d/[a] 1".to_string(), "/d/[a] 1".to_string()])
    );
}

#[test]
fn mark_complete_changes_only_the_status() {
    let mut tasks = vec![Task::new("a".to_string()), Task::new("b".to_string())];
    let found = mark_task_completed(&mut tasks, &"b".to_string());
    assert!(found);
    assert_eq!(tasks[1].status, "Completed");
    assert_eq!(tasks[0].status, "Initialized");
}

#[test]
fn mark_complete_twice_keeps_the_list_as_after_once() {
    let mut tasks = vec![Task::new("a".to_string()), Task::new("b".to_string())];
    mark_task_completed(&mut tasks, &"a".to_string());
    let once = tasks.clone();
    let found = mark_task_completed(&mut tasks, &"a".to_string());
    assert!(found);
    assert_eq!(tasks, once);
    assert_eq!(tasks[0].status, "Completed");
}

#[test]
fn lookup_miss_leaves_the_stored_document_byte_for_byte() {
    let mut a = Task::new("a".to_string());
    a.add_linked_files(vec!["/d/[a] 1".to_string()]);
    let mut tasks = vec![a, Task::new("b".to_string())];
    let before = tasks_to_json(&tasks);
    let found_u = update_task(&mut tasks, &"missing".to_string(), vec!["/d/x".to_string()]);
    let found_m = mark_task_completed(&mut tasks, &"missing".to_string());
    assert!(!found_u);
    assert!(!found_m);
    assert_eq!(tasks_to_json(&tasks), before);
}

#[test]
fn one_task_from_creation_to_completion() {
    // no storage file yet
    let mut tasks = load_tasks(None);
    assert!(tasks.is_empty());

    // create "Write report" and save
    add_task(&mut tasks, Task::new("Write report".to_string()));
    let stored = tasks_to_json(&tasks);
    assert_eq!(
        stored,
        "[{\"description\":\"Write report\",\"status\":\"Initialized\",\
         \"dependencies\":null,\"linked_files\":null,\"linked_urls\":null}]"
    );

    // update: one matching file sits under the scanned directory
    let mut tasks = load_tasks(Some(&stored));
    let entries = vec![
        (
            "report-draft.txt".to_string(),
            "/home/user/Documents/report-draft.txt".to_string(),
        ),
        (
            "[Write report] notes.txt".to_string(),
            "/home/user/Documents/[Write report] notes.txt".to_string(),
        ),
    ];
    let files = matching_paths(&entries, "Write report");
    let found = update_task(&mut tasks, &"Write report".to_string(), files);
    assert!(found);
    assert_eq!(
        tasks[0].linked_files,
        Some(vec!["/home/user/Documents/[Write report] notes.txt".to_string()])
    );

    // mark complete: status changes, linked files stay
    let stored = tasks_to_json(&tasks);
    let mut tasks = load_tasks(Some(&stored));
    let found = mark_task_completed(&mut tasks, &"Write report".to_string());
    assert!(found);
    assert_eq!(tasks[0].status, "Completed");
    assert_eq!(
        tasks[0].linked_files,
        Some(vec!["/home/user/Documents/[Write report] notes.txt".to_string()])
    );
}
