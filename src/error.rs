//! Failures that the engine reports to its callers.
use vstd::prelude::*;

verus! {

/// Why an operation of the engine failed.
#[derive(Clone, Copy, Debug, PartialEq, Eq, Structural)]
pub enum FluxError {
    /// No repository metadata where one was expected.
    NotARepository,
    /// A repository already exists and no forced re-initialisation was asked for.
    AlreadyInitialized,
    /// No object is stored under the given name.
    ObjectNotFound,
    /// Stored bytes that are not a compressed stream.
    CorruptObject,
    /// An envelope without a NUL, with a bad header, unknown kind or wrong size.
    MalformedObject,
    /// A tree payload that is cut short or lacks a delimiter.
    MalformedTree,
    /// An object of another kind than the operation needs.
    WrongObjectType,
    /// The index file is not JSON.
    MalformedIndex,
    /// The author's name or address is not configured.
    ConfigIncomplete,
    /// The staging index is empty.
    NothingToCommit,
    /// A branch of that name exists already.
    BranchExists,
    /// No branch of that name exists.
    BranchNotFound,
    /// Staged changes would be lost by switching branches.
    UncommittedChanges,
    /// A path that is not valid text, or lies outside the working tree.
    NonUtf8Path,
    /// HEAD names a commit instead of a branch.
    DetachedHeadUnsupported,
}

impl FluxError {
    /// A sentence describing the failure.
    pub fn message(&self) -> (r: String) {
        let s = match self {
            FluxError::NotARepository => "Not a repository",
            FluxError::AlreadyInitialized => "Repository already initialized",
            FluxError::ObjectNotFound => "Object not found",
            FluxError::CorruptObject => "Object data is not a valid compressed stream",
            FluxError::MalformedObject => "Invalid object",
            FluxError::MalformedTree => "Invalid tree format",
            FluxError::WrongObjectType => "Unexpected object type",
            FluxError::MalformedIndex => "Failed to parse the index file",
            FluxError::ConfigIncomplete => "The user_name and user_email fields need to be set",
            FluxError::NothingToCommit => "Nothing to commit",
            FluxError::BranchExists => "Branch already exists",
            FluxError::BranchNotFound => "Branch does not exist",
            FluxError::UncommittedChanges => "The current branch has uncommited changes",
            FluxError::NonUtf8Path => "Path is not valid UTF-8 or lies outside the work tree",
            FluxError::DetachedHeadUnsupported => "Detached HEAD not supported",
        };
        s.to_string()
    }
}

} // verus!
