//! The errors that the operations on a tree of stacked branches report.

use vstd::prelude::*;

verus! {

/// What can go wrong while tracking, restacking or submitting branches.
#[derive(Debug, Clone, PartialEq, Eq)]
pub enum StError {
    /// The branch named as parent is not tracked.
    ParentNotTracked,
    /// The named branch is not tracked.
    BranchNotTracked(String),
    /// The named branch is tracked already and cannot be tracked a second time.
    BranchAlreadyTracked(String),
    /// The trunk cannot be deleted.
    CannotDeleteTrunk,
    /// Rebasing the named branch onto its parent stopped at a conflict.
    RebaseConflict(String),
    /// The working tree holds changes that are not committed.
    WorkingTreeDirty,
    /// The named branch is stale with respect to its parent.
    NeedsRestack(String),
    /// The pull request that a branch records does not exist on the remote.
    RemotePRNotFound,
    /// The remote could not be reached.
    RemoteUnavailable,
    /// The persisted tree does not describe a valid tree.
    StoreCorrupt,
}

} // verus!
