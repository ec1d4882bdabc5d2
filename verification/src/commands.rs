//! The three commands on a task list: create, update (attach linked files)
//! and mark-complete. Each command works on the in-memory list; the caller
//! loads the list from storage before a command and saves it afterwards
//! (and skips the save when a lookup misses, so storage stays untouched).

use vstd::prelude::*;

use crate::task::{completed, task_views, with_linked_files, new_task_view, Task, TaskV};

verus! {

/// The position of the first task whose description equals `d`, if any.
/// Later tasks with the same description are not reachable by lookup.
pub open spec fn find_index(ts: Seq<TaskV>, d: Seq<char>) -> Option<int>
    decreases ts.len(),
{
    if ts.len() == 0 {
        None
    } else if ts[0].description == d {
        Some(0int)
    } else {
        match find_index(ts.skip(1), d) {
            None => None,
            Some(i) => Some(i + 1),
        }
    }
}

/// What `find_index` returns: the first match, or nothing when no
/// description equals `d`.
pub proof fn lemma_find_index(ts: Seq<TaskV>, d: Seq<char>)
    ensures
        match find_index(ts, d) {
            Some(i) => 0 <= i < ts.len() && ts[i].description == d && (forall|j: int|
                0 <= j < i ==> ts[j].description != d),
            None => forall|j: int| 0 <= j < ts.len() ==> ts[j].description != d,
        },
    decreases ts.len(),
{
    if ts.len() == 0 {
    } else if ts[0].description == d {
    } else {
        lemma_find_index(ts.skip(1), d);
        match find_index(ts.skip(1), d) {
            None => {
                assert forall|j: int| 0 <= j < ts.len() implies ts[j].description != d by {
                    if j >= 1 {
                        assert(ts[j] == ts.skip(1)[j - 1]);
                    }
                }
            },
            Some(i) => {
                assert(ts[i + 1] == ts.skip(1)[i]);
                assert forall|j: int| 0 <= j < i + 1 implies ts[j].description != d by {
                    if j >= 1 {
                        assert(ts[j] == ts.skip(1)[j - 1]);
                    }
                }
            },
        }
    }
}

/// `find_index` returns exactly the first match.
pub proof fn lemma_find_index_at(ts: Seq<TaskV>, d: Seq<char>, i: int)
    requires
        0 <= i < ts.len(),
        ts[i].description == d,
        forall|j: int| 0 <= j < i ==> ts[j].description != d,
    ensures
        find_index(ts, d) == Some(i),
    decreases ts.len(),
{
    if i == 0 {
    } else {
        assert(forall|j: int| 0 <= j < ts.len() - 1 ==> ts.skip(1)[j] == ts[j + 1]);
        lemma_find_index_at(ts.skip(1), d, i - 1);
    }
}

/// `find_index` misses exactly when no description equals `d`.
pub proof fn lemma_find_index_none(ts: Seq<TaskV>, d: Seq<char>)
    requires
        forall|j: int| 0 <= j < ts.len() ==> ts[j].description != d,
    ensures
        find_index(ts, d) is None,
    decreases ts.len(),
{
    if ts.len() > 0 {
        assert(forall|j: int| 0 <= j < ts.len() - 1 ==> ts.skip(1)[j] == ts[j + 1]);
        lemma_find_index_none(ts.skip(1), d);
    }
}

/// The list after create(`d`): the new task is appended at the end.
pub open spec fn created_tasks(ts: Seq<TaskV>, d: Seq<char>) -> Seq<TaskV> {
    ts.push(new_task_view(d))
}

/// The list after update(`d`, `files`): the first task whose description is
/// `d` has `files` appended to its linked files; a miss changes nothing.
pub open spec fn updated_tasks(ts: Seq<TaskV>, d: Seq<char>, files: Seq<Seq<char>>) -> Seq<TaskV> {
    match find_index(ts, d) {
        None => ts,
        Some(i) => ts.update(i, with_linked_files(ts[i], files)),
    }
}

/// The list after mark-complete(`d`): the first task whose description is
/// `d` becomes completed; a miss changes nothing.
pub open spec fn completed_tasks(ts: Seq<TaskV>, d: Seq<char>) -> Seq<TaskV> {
    match find_index(ts, d) {
        None => ts,
        Some(i) => ts.update(i, completed(ts[i])),
    }
}

/// Finds the first task whose description equals `description`.
pub fn find_task(tasks: &Vec<Task>, description: &String) -> (r: Option<usize>)
    ensures
        match r {
            Some(i) => i < tasks.len() && find_index(task_views(tasks@), description@) == Some(
                i as int,
            ),
            None => find_index(task_views(tasks@), description@) is None,
        },
{
    let ghost views = task_views(tasks@);
    let mut i: usize = 0;
    while i < tasks.len()
        invariant
            i <= tasks.len(),
            views == task_views(tasks@),
            forall|j: int| 0 <= j < i ==> views[j].description != description@,
        decreases tasks.len() - i,
    {
        if tasks[i].description == *description {
            proof {
                lemma_find_index_at(views, description@, i as int);
            }
            return Some(i);
        }
        i = i + 1;
    }
    proof {
        lemma_find_index_none(views, description@);
    }
    None
}

/// Appends `task` to the list. Creation never fails and never checks for a
/// duplicate description.
pub fn add_task(tasks: &mut Vec<Task>, task: Task)
    ensures
        final(tasks)@ == old(tasks)@.push(task),
        task_views(final(tasks)@) == task_views(old(tasks)@).push(task@),
{
    proof {
        assert(task_views(tasks@.push(task)) =~= task_views(tasks@).push(task@));
    }
    tasks.push(task);
}

/// Attaches `files` to the first task whose description equals
/// `description`, returning whether such a task exists. On a miss the list
/// is exactly what it was.
pub fn update_task(tasks: &mut Vec<Task>, description: &String, files: Vec<String>) -> (found:
    bool)
    ensures
        found == (find_index(task_views(old(tasks)@), description@) is Some),
        task_views(final(tasks)@) == updated_tasks(
            task_views(old(tasks)@),
            description@,
            files.deep_view(),
        ),
        !found ==> final(tasks)@ == old(tasks)@,
{
    let ghost views = task_views(old(tasks)@);
    match find_task(tasks, description) {
        Some(i) => {
            let mut task = tasks.remove(i);
            task.add_linked_files(files);
            tasks.insert(i, task);
            proof {
                assert(tasks@ =~= old(tasks)@.update(
                    i as int,
                    tasks@[i as int],
                ));
                assert(task_views(tasks@) =~= updated_tasks(
                    views,
                    description@,
                    files.deep_view(),
                ));
            }
            true
        },
        None => {
            false
        },
    }
}

/// Marks the first task whose description equals `description` completed,
/// returning whether such a task exists. On a miss the list is exactly what
/// it was; on a hit only that task's status changes.
pub fn mark_task_completed(tasks: &mut Vec<Task>, description: &String) -> (found: bool)
    ensures
        found == (find_index(task_views(old(tasks)@), description@) is Some),
        task_views(final(tasks)@) == completed_tasks(task_views(old(tasks)@), description@),
        !found ==> final(tasks)@ == old(tasks)@,
{
    let ghost views = task_views(old(tasks)@);
    match find_task(tasks, description) {
        Some(i) => {
            let mut task = tasks.remove(i);
            task.mark_completed();
            tasks.insert(i, task);
            proof {
                assert(tasks@ =~= old(tasks)@.update(i as int, tasks@[i as int]));
                assert(task_views(tasks@) =~= completed_tasks(views, description@));
            }
            true
        },
        None => {
            false
        },
    }
}

/// What one invocation does: exactly one of the three commands, or
/// nothing when no flag was given.
pub enum Command {
    Create(String),
    Update(String),
    MarkComplete(String),
    NoCommand,
}

/// Picks the command for one invocation from the three flag values. The
/// commands are mutually exclusive and the first present flag wins, in
/// the order create, update, mark-complete.
pub fn choose_command(
    create: Option<String>,
    update: Option<String>,
    complete: Option<String>,
) -> (r: Command)
    ensures
        create matches Some(d) ==> r == Command::Create(d),
        create is None ==> (update matches Some(d) ==> r == Command::Update(d)),
        create is None && update is None ==> (complete matches Some(d) ==> r
            == Command::MarkComplete(d)),
        create is None && update is None && complete is None ==> r == Command::NoCommand,
{
    match create {
        Some(d) => Command::Create(d),
        None => match update {
            Some(d) => Command::Update(d),
            None => match complete {
                Some(d) => Command::MarkComplete(d),
                None => Command::NoCommand,
            },
        },
    }
}

/// Creation always appends: after create(`d`) the list is one longer, the
/// earlier tasks stand unchanged, and the new last task carries `d`, the
/// initialized status and no optional field.
pub proof fn lemma_create_appends(ts: Seq<TaskV>, d: Seq<char>)
    ensures
        created_tasks(ts, d).len() == ts.len() + 1,
        created_tasks(ts, d).last() == new_task_view(d),
        forall|j: int| 0 <= j < ts.len() ==> created_tasks(ts, d)[j] == ts[j],
{
}

/// Completing a task is idempotent: marking the same description complete a
/// second time changes nothing.
pub proof fn lemma_mark_complete_idempotent(ts: Seq<TaskV>, d: Seq<char>)
    ensures
        completed_tasks(completed_tasks(ts, d), d) == completed_tasks(ts, d),
{
    lemma_find_index(ts, d);
    match find_index(ts, d) {
        None => {
            lemma_find_index_none(completed_tasks(ts, d), d);
        },
        Some(i) => {
            let ts1 = ts.update(i, completed(ts[i]));
            assert(forall|j: int| 0 <= j < i ==> ts1[j].description != d);
            lemma_find_index_at(ts1, d, i);
            assert(completed(ts1[i]) == completed(ts[i]));
            assert(ts1.update(i, completed(ts1[i])) =~= ts1);
        },
    }
}

/// A lookup miss is a no-op: when no task's description equals `d`, update
/// and mark-complete leave the list exactly as it was.
pub proof fn lemma_missing_description_is_no_op(ts: Seq<TaskV>, d: Seq<char>, files: Seq<Seq<char>>)
    requires
        forall|j: int| 0 <= j < ts.len() ==> ts[j].description != d,
    ensures
        updated_tasks(ts, d, files) == ts,
        completed_tasks(ts, d) == ts,
{
    lemma_find_index_none(ts, d);
}

} // verus!
