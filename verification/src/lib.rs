//! A verified reconciliation engine for managing dotfiles: it replaces
//! entries of a home directory with symlinks into a repository, never
//! deleting anything that has not first been backed up and proven
//! equivalent to its backup copy.
//!
//! The engine works on an in-memory model of the filesystem tree
//! ([`fs_model::FsNode`]); a thin unverified shell performs the actual
//! disk operations that the engine decides on.

use vstd::prelude::*;

pub mod equiv;
pub mod fs_model;
pub mod install;
pub mod paths;
pub mod scripts;

verus! {

/// The kind of an on-disk entry, determined without following symlinks.
/// A dangling symlink is `Symlink`, not `Absent`.
#[derive(Clone, Copy, Debug, PartialEq, Eq, Structural)]
pub enum EntryKind {
    Absent,
    File,
    Symlink,
    Dir,
    Other,
}

/// An unrecoverable condition. Every such condition aborts a whole run;
/// the shell around the library logs it and terminates with a failure
/// exit code.
#[derive(Clone, Copy, Debug, PartialEq, Eq, Structural)]
pub enum InstallError {
    /// An entry that should exist was absent (metadata or read on a
    /// missing path).
    Missing,
    /// An entry of a kind the engine refuses to reason about.
    UnknownKind,
    /// A live entry could not be proven equivalent to its backup copy.
    NotBackedUp,
    /// A copy, directory creation or symlink creation ran into a
    /// conflicting entry.
    Conflict,
}

} // verus!
