//! Tests of the storage codec: exact document text, round trips, the
//! loader's handling of missing and unreadable content, and that the
//! emitted document is plain JSON as other readers see it.

use task_link_cli::codec::{load_tasks, tasks_from_json, tasks_to_json};
use task_link_cli::task::Task;

#[test]
fn one_fresh_task_serializes_to_the_exact_document() {
    let tasks = vec![Task::new("Write report".to_string())];
    assert_eq!(
        tasks_to_json(&tasks),
        "[{\"description\":\"Write report\",\"status\":\"Initialized\",\
         \"dependencies\":null,\"linked_files\":null,\"linked_urls\":null}]"
    );
}

#[test]
fn empty_list_serializes_to_empty_array() {
    let tasks: Vec<Task> = Vec::new();
    assert_eq!(tasks_to_json(&tasks), "[]");
    assert_eq!(tasks_from_json("[]").unwrap(), Vec::new());
}

#[test]
fn linked_files_serialize_as_a_string_array() {
    let mut t = Task::new("a".to_string());
    t.add_linked_files(vec!["/d/[a] x.txt".to_string(), "/d/[a] y.txt".to_string()]);
    t.mark_completed();
    let text = tasks_to_json(&vec![t]);
    assert_eq!(
        text,
        "[{\"description\":\"a\",\"status\":\"Completed\",\"dependencies\":null,\
         \"linked_files\":[\"/d/[a] x.txt\",\"/d/[a] y.txt\"],\"linked_urls\":null}]"
    );
}

#[test]
fn special_characters_are_escaped() {
    let t = Task::new("say \"hi\"\\\nnow\tor\rnever".to_string());
    let text = tasks_to_json(&vec![t]);
    assert_eq!(
        text,
        "[{\"description\":\"say \\\"hi\\\"\\\\\\nnow\\tor\\rnever\",\
         \"status\":\"Initialized\",\"dependencies\":null,\"linked_files\":null,\
         \"linked_urls\":null}]"
    );
}

#[test]
fn save_then_load_round_trips() {
    let mut a = Task::new("say \"hi\"\\ now".to_string());
    a.add_linked_files(vec!["/d/[a] notes.txt".to_string()]);
    let mut b = Task::new("b".to_string());
    b.mark_completed();
    let tasks = vec![a, b];
    let text = tasks_to_json(&tasks);
    let loaded = tasks_from_json(&text).unwrap();
    assert_eq!(loaded, tasks);
    let reloaded = load_tasks(Some(&text));
    assert_eq!(reloaded, tasks);
}

#[test]
fn empty_description_round_trips() {
    let tasks = vec![Task::new(String::new())];
    let text = tasks_to_json(&tasks);
    assert_eq!(
        text,
        "[{\"description\":\"\",\"status\":\"Initialized\",\
         \"dependencies\":null,\"linked_files\":null,\"linked_urls\":null}]"
    );
    assert_eq!(tasks_from_json(&text).unwrap(), tasks);
}

#[test]
fn a_description_that_looks_like_json_round_trips() {
    let tasks = vec![Task::new("[{\"description\":\"x\"}]".to_string())];
    let text = tasks_to_json(&tasks);
    assert_eq!(tasks_from_json(&text).unwrap(), tasks);
}

#[test]
fn missing_file_loads_as_empty_list() {
    assert_eq!(load_tasks(None), Vec::new());
}

#[test]
fn unreadable_content_loads_as_empty_list() {
    assert_eq!(load_tasks(Some("this is not json")), Vec::new());
    assert_eq!(load_tasks(Some("")), Vec::new());
    assert_eq!(load_tasks(Some("[")), Vec::new());
    assert_eq!(load_tasks(Some("[{}]")), Vec::new());
    assert_eq!(load_tasks(Some("[{\"description\":\"a\"}]")), Vec::new());
    assert_eq!(load_tasks(Some("{\"description\":\"a\"}")), Vec::new());
}

#[test]
fn whitespace_between_tokens_is_insignificant() {
    let text = " [ {\t\"description\" : \"a\" ,\n\"status\" : \"Initialized\" ,\
                \"dependencies\" : null , \"linked_files\" : [ \"x\" , \"y\" ] ,\
                \"linked_urls\" : [ ] } ]\n";
    let tasks = tasks_from_json(text).unwrap();
    assert_eq!(tasks.len(), 1);
    assert_eq!(tasks[0].description, "a");
    assert_eq!(tasks[0].status, "Initialized");
    assert!(tasks[0].dependencies.is_none());
    assert_eq!(
        tasks[0].linked_files,
        Some(vec!["x".to_string(), "y".to_string()])
    );
    assert_eq!(tasks[0].linked_urls, Some(Vec::new()));
    assert_eq!(tasks_from_json("[ ]").unwrap(), Vec::new());
}

#[test]
fn fields_are_read_in_any_order() {
    let text = "[{\"status\":\"Completed\",\"linked_files\":[\"x\"],\"description\":\"a\",\
                \"linked_urls\":null,\"dependencies\":null}]";
    let tasks = tasks_from_json(text).unwrap();
    assert_eq!(tasks[0].description, "a");
    assert_eq!(tasks[0].status, "Completed");
    assert_eq!(tasks[0].linked_files, Some(vec!["x".to_string()]));
}

#[test]
fn missing_optional_fields_are_unset() {
    let text = "[{\"description\":\"a\",\"status\":\"Initialized\"}]";
    let tasks = tasks_from_json(text).unwrap();
    assert_eq!(tasks[0].description, "a");
    assert!(tasks[0].dependencies.is_none());
    assert!(tasks[0].linked_files.is_none());
    assert!(tasks[0].linked_urls.is_none());
    // the two required fields must both be present
    assert!(tasks_from_json("[{\"description\":\"a\"}]").is_none());
    assert!(tasks_from_json("[{\"status\":\"Initialized\"}]").is_none());
}

#[test]
fn unknown_and_repeated_fields_are_rejected() {
    assert!(
        tasks_from_json(
            "[{\"description\":\"a\",\"status\":\"x\",\"extra\":null}]"
        )
        .is_none()
    );
    assert!(
        tasks_from_json(
            "[{\"description\":\"a\",\"description\":\"b\",\"status\":\"x\"}]"
        )
        .is_none()
    );
}

#[test]
fn standard_escapes_are_decoded() {
    let text = "[{\"description\":\"\\u0041\\n\\/\\b\\f\\t\\r\\\" \\uD83D\\uDE00\",\
                \"status\":\"s\"}]";
    let tasks = tasks_from_json(text).unwrap();
    assert_eq!(
        tasks[0].description,
        "A\n/\u{8}\u{c}\t\r\" \u{1F600}"
    );
}

#[test]
fn trailing_text_is_rejected_but_trailing_whitespace_is_not() {
    assert!(tasks_from_json("[]x").is_none());
    assert!(tasks_from_json("[] []").is_none());
    assert_eq!(tasks_from_json(" [] \n").unwrap(), Vec::new());
}

#[test]
fn bad_strings_are_rejected() {
    // an escape that JSON does not define
    assert!(
        tasks_from_json("[{\"description\":\"a\\q\",\"status\":\"s\"}]").is_none()
    );
    // a lone surrogate escape
    assert!(
        tasks_from_json("[{\"description\":\"\\uD800\",\"status\":\"s\"}]").is_none()
    );
    // a raw control character inside a string
    assert!(
        tasks_from_json("[{\"description\":\"a\u{1}b\",\"status\":\"s\"}]").is_none()
    );
}

#[test]
fn control_characters_are_written_as_unicode_escapes() {
    let t = Task::new("a\u{1}b\u{1f}c".to_string());
    let text = tasks_to_json(&vec![t.clone()]);
    assert_eq!(
        text,
        "[{\"description\":\"a\\u0001b\\u001fc\",\"status\":\"Initialized\",\
         \"dependencies\":null,\"linked_files\":null,\"linked_urls\":null}]"
    );
    // the emitted document is JSON other readers accept, and it round-trips
    let v: serde_json::Value = serde_json::from_str(&text).unwrap();
    assert_eq!(v[0]["description"], "a\u{1}b\u{1f}c");
    assert_eq!(tasks_from_json(&text).unwrap(), vec![t]);
}

#[test]
fn reads_back_a_document_with_every_field_set() {
    let text = "[{\"description\":\"a\",\"status\":\"Completed\",\
                \"dependencies\":[\"b\"],\"linked_files\":[\"/d/[a] x\",\"/d/[a] x\"],\
                \"linked_urls\":[]},{\"description\":\"b\",\"status\":\"Initialized\",\
                \"dependencies\":null,\"linked_files\":null,\"linked_urls\":null}]";
    let tasks = tasks_from_json(text).unwrap();
    assert_eq!(tasks.len(), 2);
    assert_eq!(tasks[0].description, "a");
    assert_eq!(tasks[0].status, "Completed");
    assert_eq!(tasks[0].dependencies, Some(vec!["b".to_string()]));
    assert_eq!(
        tasks[0].linked_files,
        Some(vec!["/d/[a] x".to_string(), "/d/[a] x".to_string()])
    );
    assert_eq!(tasks[0].linked_urls, Some(Vec::new()));
    assert_eq!(tasks[1].description, "b");
    // writing the parsed list reproduces the document exactly
    assert_eq!(tasks_to_json(&tasks), text);
}

#[test]
fn emitted_document_is_plain_json_for_other_readers() {
    let mut t = Task::new("say \"hi\"\\\nnow".to_string());
    t.add_linked_files(vec!["/d/[x] 1".to_string()]);
    let text = tasks_to_json(&vec![t]);
    let v: serde_json::Value = serde_json::from_str(&text).unwrap();
    assert_eq!(v[0]["description"], "say \"hi\"\\\nnow");
    assert_eq!(v[0]["status"], "Initialized");
    assert!(v[0]["dependencies"].is_null());
    assert_eq!(v[0]["linked_files"][0], "/d/[x] 1");
    assert!(v[0]["linked_urls"].is_null());
}
