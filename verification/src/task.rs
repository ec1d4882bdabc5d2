//! The task record: a description, a status string, and three optional
//! string lists (dependencies, linked files, linked URLs).

use vstd::prelude::*;
use vstd::string::StringExecFns;

verus! {

/// Mathematical model of a task: every field as a sequence of characters.
#[verifier::ext_equal]
pub ghost struct TaskV {
    pub description: Seq<char>,
    pub status: Seq<char>,
    pub dependencies: Option<Seq<Seq<char>>>,
    pub linked_files: Option<Seq<Seq<char>>>,
    pub linked_urls: Option<Seq<Seq<char>>>,
}

/// One unit of work. The description doubles as the task's informal
/// identifier: lookups match the first task whose description is equal to
/// the query, character for character.
#[derive(Debug, Clone, PartialEq)]
pub struct Task {
    pub description: String,
    pub status: String,
    pub dependencies: Option<Vec<String>>,
    pub linked_files: Option<Vec<String>>,
    pub linked_urls: Option<Vec<String>>,
}

impl View for Task {
    type V = TaskV;

    open spec fn view(&self) -> TaskV {
        TaskV {
            description: self.description@,
            status: self.status@,
            dependencies: self.dependencies.deep_view(),
            linked_files: self.linked_files.deep_view(),
            linked_urls: self.linked_urls.deep_view(),
        }
    }
}

/// The models of a sequence of tasks, in order.
pub open spec fn task_views(ts: Seq<Task>) -> Seq<TaskV> {
    ts.map_values(|t: Task| t@)
}

/// The status a task carries from creation until it is completed.
pub open spec fn status_initialized() -> Seq<char> {
    "Initialized"@
}

/// The status of a completed task.
pub open spec fn status_completed() -> Seq<char> {
    "Completed"@
}

/// The model of a freshly created task: initialized status, no optional
/// field set.
pub open spec fn new_task_view(description: Seq<char>) -> TaskV {
    TaskV {
        description: description,
        status: status_initialized(),
        dependencies: None,
        linked_files: None,
        linked_urls: None,
    }
}

/// The model of `t` after `files` were linked to it: the new paths are
/// appended to the existing ones (duplicates included), and an unset list
/// becomes exactly `files`.
pub open spec fn with_linked_files(t: TaskV, files: Seq<Seq<char>>) -> TaskV {
    TaskV {
        linked_files: match t.linked_files {
            Some(existing) => Some(existing + files),
            None => Some(files),
        },
        ..t
    }
}

/// The model of `t` after completion: only the status changes.
pub open spec fn completed(t: TaskV) -> TaskV {
    TaskV { status: status_completed(), ..t }
}

impl Task {
    /// Builds a new task for `description`: status `"Initialized"`, no
    /// dependencies, linked files or linked URLs.
    pub fn new(description: String) -> (t: Task)
        ensures
            t@ == new_task_view(description@),
    {
        Task {
            description,
            status: String::from_str("Initialized"),
            dependencies: None,
            linked_files: None,
            linked_urls: None,
        }
    }

    /// Appends `files` to the task's linked files, initializing the list if
    /// it was unset. Nothing is deduplicated: linking the same path twice
    /// records it twice.
    pub fn add_linked_files(&mut self, files: Vec<String>)
        ensures
            final(self)@ == with_linked_files(old(self)@, files.deep_view()),
    {
        let ghost files_view = files.deep_view();
        if let Some(linked_files) = &mut self.linked_files {
            let mut files = files;
            linked_files.append(&mut files);
        } else {
            self.linked_files = Some(files);
        }
        assert(self@ =~= with_linked_files(old(self)@, files_view));
    }

    /// Sets the status to `"Completed"`. Calling it on an already completed
    /// task leaves the task as it is.
    pub fn mark_completed(&mut self)
        ensures
            final(self)@ == completed(old(self)@),
    {
        self.status = String::from_str("Completed");
        assert(self@ =~= completed(old(self)@));
    }
}

} // verus!
