//! The errors of the engine.

use vstd::prelude::*;

verus! {

/// Why an operation failed.
#[derive(Debug, Clone, Copy, PartialEq, Eq, Structural)]
pub enum SkillError {
    /// A remote address or a manifest is malformed.
    InvalidSpec,
    /// A skill, a group or a profile is absent.
    NotFound,
    /// The destination exists and overwriting was not asked for.
    Conflict,
    /// A manifest rule fails a safety check.
    ValidationError,
    /// An operation on the file system failed, or cannot succeed.
    IoFailure,
    /// A fetch failed, or what it brought or what was recorded of it is unusable.
    RemoteFailure,
    /// What was named is installed, but not from a remote origin, so it
    /// cannot be updated.
    NotUpdatable,
    /// The options of a command contradict each other, or one is missing.
    Usage,
}

} // verus!
