//! What the library asks its caller to do to the repository and to the
//! remote: the library decides, the caller acts and reports back.

use crate::model::Name;
use vstd::prelude::*;

verus! {

/// One operation on the local repository or on the remote.
#[derive(Debug, Clone, PartialEq, Eq)]
pub enum Action {
    /// Check out `branch`.
    Checkout { branch: String },
    /// Delete the local branch `branch`.
    DeleteBranch { branch: String },
    /// Push `branch` to the remote, overwriting the remote branch if `force`.
    Push { branch: String, force: bool },
    /// Open a pull request that merges `head` into `base`.
    CreatePull { head: String, base: String },
    /// Make `base` the base of the pull request `number`.
    UpdatePullBase { number: u64, base: String },
    /// Add a comment with the text `body` to the pull request `number`.
    CreateComment { number: u64, body: String },
    /// Replace the text of the comment `comment_id` by `body`.
    UpdateComment { comment_id: u64, body: String },
}

/// An operation, as a value.
pub enum ActionView {
    Checkout { branch: Name },
    DeleteBranch { branch: Name },
    Push { branch: Name, force: bool },
    CreatePull { head: Name, base: Name },
    UpdatePullBase { number: u64, base: Name },
    CreateComment { number: u64, body: Seq<char> },
    UpdateComment { comment_id: u64, body: Seq<char> },
}

impl View for Action {
    type V = ActionView;

    open spec fn view(&self) -> ActionView {
        match *self {
            Action::Checkout { branch } => ActionView::Checkout { branch: branch@ },
            Action::DeleteBranch { branch } => ActionView::DeleteBranch { branch: branch@ },
            Action::Push { branch, force } => ActionView::Push { branch: branch@, force },
            Action::CreatePull { head, base } => ActionView::CreatePull { head: head@, base: base@ },
            Action::UpdatePullBase { number, base } => ActionView::UpdatePullBase {
                number,
                base: base@,
            },
            Action::CreateComment { number, body } => ActionView::CreateComment {
                number,
                body: body@,
            },
            Action::UpdateComment { comment_id, body } => ActionView::UpdateComment {
                comment_id,
                body: body@,
            },
        }
    }
}

/// The operations that a list holds, in its order.
pub open spec fn action_views(v: Seq<Action>) -> Seq<ActionView> {
    Seq::new(v.len(), |i: int| v[i]@)
}

} // verus!
