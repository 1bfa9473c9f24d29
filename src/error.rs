//! Failures of the stack persistence engine.

use vstd::prelude::*;

verus! {

/// What went wrong while loading, checking or writing a stack.
#[derive(Debug, PartialEq, Eq)]
pub enum StackError {
    /// `HEAD` does not name a branch.
    HeadDetached,
    /// The branch shorthand is not valid text.
    NonTextBranchName,
    /// The branch already has a stack reference.
    StackAlreadyInitialized(String),
    /// The branch has no stack reference.
    StackNotInitialized(String),
    /// The snapshot tree has no `stack.json`.
    StackMetadataMissing,
    /// The persisted version, as written, is not 5.
    UnsupportedStackVersion(String),
    /// The persisted document does not have the expected shape.
    MalformedPersistedState(String),
    /// A patch name breaks the naming rules: the name and why.
    InvalidPatchName(String, String),
    /// A patch of this name is already in the stack.
    PatchAlreadyExists(String),
}

} // verus!
