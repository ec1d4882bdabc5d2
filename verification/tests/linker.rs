//! Tests of the filename convention that links files to tasks.

use task_link_cli::linker::{is_task_file_name, matching_paths};

#[test]
fn a_name_is_linked_when_it_starts_with_the_tag() {
    assert!(is_task_file_name("[Write report] notes.txt", "Write report"));
    assert!(is_task_file_name("[Write report]", "Write report"));
    assert!(is_task_file_name("[a]b", "a"));
}

#[test]
fn the_tag_is_exact_and_case_sensitive() {
    assert!(!is_task_file_name("Write report notes.txt", "Write report"));
    assert!(!is_task_file_name("[write report] notes.txt", "Write report"));
    assert!(!is_task_file_name("[Write repor", "Write report"));
    assert!(!is_task_file_name("x[Write report] notes.txt", "Write report"));
    assert!(!is_task_file_name("[Write report notes.txt", "Write report"));
    assert!(!is_task_file_name("", "Write report"));
}

#[test]
fn matching_paths_keeps_traversal_order_and_duplicates() {
    let entries = vec![
        ("[a] one.txt".to_string(), "/d/[a] one.txt".to_string()),
        ("other.txt".to_string(), "/d/other.txt".to_string()),
        ("[a] two.txt".to_string(), "/d/sub/[a] two.txt".to_string()),
        ("[b] three.txt".to_string(), "/d/[b] three.txt".to_string()),
        ("[a] one.txt".to_string(), "/d/sub/[a] one.txt".to_string()),
    ];
    assert_eq!(
        matching_paths(&entries, "a"),
        vec![
            "/d/[a] one.txt".to_string(),
            "/d/sub/[a] two.txt".to_string(),
            "/d/sub/[a] one.txt".to_string(),
        ]
    );
    assert_eq!(matching_paths(&entries, "b"), vec!["/d/[b] three.txt".to_string()]);
    assert_eq!(matching_paths(&entries, "c"), Vec::<String>::new());
}

#[test]
fn no_entries_means_no_matches() {
    let entries: Vec<(String, String)> = Vec::new();
    assert!(matching_paths(&entries, "a").is_empty());
}
