//! A small task tracker library: an in-memory task list, commands that
//! create, update and complete tasks, a filename convention for linking
//! files to tasks, and a JSON codec for persisting the list. All logic is
//! verified; reading and writing the storage file, walking directories and
//! parsing command-line arguments are left to the surrounding application.

pub mod chars;
pub mod codec;
pub mod commands;
pub mod linker;
pub mod task;
