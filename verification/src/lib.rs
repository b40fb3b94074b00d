//! Stacked branches: a tree of dependent git branches, the stack that is
//! checked out, the branches of it that are stale, and the pull requests that
//! mirror it.

pub mod actions;
pub mod compare;
pub mod display;
pub mod errors;
pub mod listing;
pub mod model;
pub mod paint;
pub mod prune;
pub mod pull_request;
pub mod remote_url;
pub mod restack;
pub mod stack;
pub mod store;
pub mod submit;
pub mod text;
pub mod tree;

pub use actions::Action;
pub use display::DisplayBranch;
pub use paint::Tint;
pub use errors::StError;
pub use model::RemoteMetadata;
pub use pull_request::{label_rgb, parse_assignees, select_label, PRCreationMetadata, SelectLabel};
pub use remote_url::org_and_repository;
pub use restack::{BranchTip, RebaseOutcome, RebaseStep, RepoTips};
pub use store::{StoreDocument, StoredBranch, StoredEntry, StoredLocal};
pub use submit::{PullLookup, PullState, RemotePull, SubmitCmd};
pub use tree::{LocalMetadata, StackTree, TrackedBranch};
