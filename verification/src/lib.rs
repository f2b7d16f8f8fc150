//! The decisions of `ut`, a task runner for uv workspaces.
//!
//! Every function here works on plain values. Reading files, expanding globs and running
//! commands is left to the program around the library, which hands in what it found and
//! carries out what comes back.

pub mod command;
pub mod discover;
pub mod error;
pub mod graph;
pub mod list;
pub mod load;
pub mod names;
pub mod order;
pub mod package;
pub mod paths;
pub mod pyproject;
pub mod run;
pub mod schedule;
pub mod shell;
pub mod style;
pub mod tasks;
pub mod text;
pub mod workspace;
