//! The filename convention that links files to a task: an entry is linked
//! to a task when its base name starts with the tag `[<description>]`,
//! square brackets literal, description verbatim. The directory walk itself
//! is the caller's job; it hands in the entries it saw, as pairs of base
//! name and full path, in traversal order.

use vstd::prelude::*;

use crate::chars::str_to_chars;

verus! {

/// The tag that marks a file as linked to the task named `name`.
pub open spec fn tag_of(name: Seq<char>) -> Seq<char> {
    seq!['['] + name + seq![']']
}

/// Whether a file whose base name is `file_name` is linked to the task
/// named `task_name`.
pub open spec fn is_linked_name(file_name: Seq<char>, task_name: Seq<char>) -> bool {
    tag_of(task_name).is_prefix_of(file_name)
}

/// The paths of the entries linked to `task_name`, in the order the entries
/// were handed in. Each entry is a pair of base name and full path.
pub open spec fn linked_paths(entries: Seq<(Seq<char>, Seq<char>)>, task_name: Seq<char>) -> Seq<
    Seq<char>,
>
    decreases entries.len(),
{
    if entries.len() == 0 {
        Seq::empty()
    } else {
        (if is_linked_name(entries[0].0, task_name) {
            seq![entries[0].1]
        } else {
            Seq::empty()
        }) + linked_paths(entries.skip(1), task_name)
    }
}

/// Whether `tag` is a prefix of `file`.
fn is_prefix(file: &Vec<char>, tag: &Vec<char>) -> (r: bool)
    ensures
        r == tag@.is_prefix_of(file@),
{
    if tag.len() > file.len() {
        return false;
    }
    let mut i: usize = 0;
    while i < tag.len()
        invariant
            i <= tag@.len() <= file@.len(),
            forall|j: int| 0 <= j < i ==> file@[j] == tag@[j],
        decreases tag@.len() - i,
    {
        if file[i] != tag[i] {
            proof {
                assert(file@.subrange(0, tag@.len() as int)[i as int] != tag@[i as int]);
            }
            return false;
        }
        i = i + 1;
    }
    proof {
        assert(file@.subrange(0, tag@.len() as int) =~= tag@);
    }
    true
}

/// The tag `[<task_name>]` as a character vector.
fn tag_chars(task_name: &str) -> (r: Vec<char>)
    ensures
        r@ == tag_of(task_name@),
{
    let mut r: Vec<char> = Vec::new();
    r.push('[');
    let mut mid = str_to_chars(task_name);
    r.append(&mut mid);
    r.push(']');
    assert(r@ =~= tag_of(task_name@));
    r
}

/// Whether the base name `file_name` marks a file as linked to the task
/// named `task_name`: it starts with the literal tag `[<task_name>]`.
pub fn is_task_file_name(file_name: &str, task_name: &str) -> (r: bool)
    ensures
        r == is_linked_name(file_name@, task_name@),
{
    let file = str_to_chars(file_name);
    let tag = tag_chars(task_name);
    is_prefix(&file, &tag)
}

/// Appending one entry extends the linked paths by that entry's path
/// exactly when its base name carries the tag.
proof fn lemma_linked_paths_snoc(
    entries: Seq<(Seq<char>, Seq<char>)>,
    e: (Seq<char>, Seq<char>),
    task_name: Seq<char>,
)
    ensures
        linked_paths(entries.push(e), task_name) == linked_paths(entries, task_name) + (
        if is_linked_name(e.0, task_name) {
            seq![e.1]
        } else {
            Seq::<Seq<char>>::empty()
        }),
    decreases entries.len(),
{
    if entries.len() == 0 {
        assert(entries.push(e).skip(1) =~= entries);
        assert(linked_paths(entries.push(e), task_name) =~= linked_paths(entries, task_name) + (
        if is_linked_name(e.0, task_name) {
            seq![e.1]
        } else {
            Seq::<Seq<char>>::empty()
        }));
    } else {
        assert(entries.push(e).skip(1) =~= entries.skip(1).push(e));
        lemma_linked_paths_snoc(entries.skip(1), e, task_name);
        assert(linked_paths(entries.push(e), task_name) =~= linked_paths(entries, task_name) + (
        if is_linked_name(e.0, task_name) {
            seq![e.1]
        } else {
            Seq::<Seq<char>>::empty()
        }));
    }
}

/// Collects, in order, the full paths of the entries whose base name starts
/// with the tag `[<task_name>]`. Each entry is a pair of base name and full
/// path; nothing is deduplicated or sorted.
pub fn matching_paths(entries: &Vec<(String, String)>, task_name: &str) -> (r: Vec<String>)
    ensures
        r.deep_view() == linked_paths(entries.deep_view(), task_name@),
{
    let ghost dv = entries.deep_view();
    let mut r: Vec<String> = Vec::new();
    let mut i: usize = 0;
    while i < entries.len()
        invariant
            i <= entries.len(),
            dv == entries.deep_view(),
            dv.len() == entries@.len(),
            forall|j: int| 0 <= j < dv.len() ==> dv[j] == (entries@[j].0@, entries@[j].1@),
            r.deep_view() == linked_paths(dv.take(i as int), task_name@),
        decreases entries.len() - i,
    {
        let ghost r0 = r.deep_view();
        if is_task_file_name(entries[i].0.as_str(), task_name) {
            r.push(entries[i].1.clone());
            assert(r.deep_view() =~= r0.push(dv[i as int].1));
        }
        proof {
            lemma_linked_paths_snoc(dv.take(i as int), dv[i as int], task_name@);
            assert(dv.take(i as int).push(dv[i as int]) =~= dv.take(i as int + 1));
            assert(r.deep_view() =~= linked_paths(dv.take(i as int + 1), task_name@));
        }
        i = i + 1;
    }
    assert(dv.take(entries@.len() as int) =~= dv);
    r
}

} // verus!
