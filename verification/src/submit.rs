//! Submission of a stack: the checks before anything is sent, what is to be
//! pushed, opened and updated for each branch, and the navigation comment that
//! each pull request carries.

use crate::actions::{action_views, Action, ActionView};
use crate::errors::StError;
use crate::model::{lemma_depth, lemma_set_metadata_wf, Name, RemoteMetadata, TreeView};
use crate::restack::{needs_restack, RepoTips};
use crate::text::{decimal, str_eq, u64_to_string};
use crate::tree::{names, StackTree};
use vstd::prelude::*;
use vstd::string::*;

verus! {

/// Whether a pull request is still open.
#[derive(Debug, Clone, Copy, PartialEq, Eq)]
pub enum PullState {
    /// The pull request is open.
    Open,
    /// The pull request was closed or merged.
    Closed,
}

/// What the remote says of a pull request.
#[derive(Debug, Clone, PartialEq, Eq)]
pub struct RemotePull {
    /// Whether it is open.
    pub state: PullState,
    /// The name of the branch that it is to be merged into.
    pub base_ref: String,
    /// The commit at the tip of the branch that it offers.
    pub head_sha: String,
}

/// What came of asking the remote for a pull request.
#[derive(Debug, Clone, PartialEq, Eq)]
pub enum PullLookup {
    /// The remote has the pull request.
    Found(RemotePull),
    /// The remote has no such pull request.
    NotFound,
    /// The remote could not be reached.
    Unavailable,
}

/// The submission of a stack, with the options that the command carries.
#[derive(Debug, Clone, Copy, PartialEq, Eq)]
pub struct SubmitCmd {
    /// Whether a push may overwrite the remote branch.
    pub force: bool,
}

/// Whether the branch at position `i` of `stack` is tracked and needs a rebase.
pub open spec fn stale_at(t: TreeView, tips: Map<Name, Seq<char>>, stack: Seq<Name>, i: int) -> bool {
    t.contains(stack[i]) && needs_restack(t, tips, stack[i])
}

/// What is to be done in the repository when a branch is deleted: the trunk
/// is checked out, and the local branch is deleted.
pub open spec fn delete_plan(trunk: Name, branch: Name) -> Seq<ActionView> {
    seq![ActionView::Checkout { branch: trunk }, ActionView::DeleteBranch { branch }]
}

/// What is to be done for a branch that has no pull request yet: push it, and
/// open a pull request into its parent.
pub open spec fn create_plan(branch: Name, parent: Name, force: bool) -> Seq<ActionView> {
    seq![ActionView::Push { branch, force }, ActionView::CreatePull { head: branch, base: parent }]
}

/// What is to be done for a branch whose pull request `number` has the base
/// `base_ref` and the head `head_sha` on the remote: the base is set to the
/// parent if it is another branch, and the branch is pushed unless its tip is
/// the head already.
pub open spec fn update_plan(
    branch: Name,
    parent: Name,
    force: bool,
    number: u64,
    tip: Option<Seq<char>>,
    base_ref: Seq<char>,
    head_sha: Seq<char>,
) -> Seq<ActionView> {
    (if base_ref != parent {
        seq![ActionView::UpdatePullBase { number, base: parent }]
    } else {
        Seq::empty()
    }) + (if tip == Some(head_sha) {
        Seq::empty()
    } else {
        seq![ActionView::Push { branch, force }]
    })
}

/// The line of the navigation comment for `branch`: its pull request, marked
/// if the comment is rendered for this branch; nothing if it has none.
pub open spec fn comment_entry(t: TreeView, current: Name, branch: Name) -> Seq<char> {
    match t.branches[branch].remote {
        Some(remote) => "* #"@ + decimal(remote.pr_number as nat) + (if branch == current {
            " 👈"@
        } else {
            Seq::empty()
        }) + "\n"@,
        None => Seq::empty(),
    }
}

/// The lines for the branches of `stack` before position `upto`, the trunk at
/// position 0 left out, the last of them first.
pub open spec fn comment_entries(t: TreeView, current: Name, stack: Seq<Name>, upto: int) -> Seq<char>
    decreases upto,
{
    if upto <= 1 {
        Seq::empty()
    } else {
        comment_entry(t, current, stack[upto - 1]) + comment_entries(t, current, stack, upto - 1)
    }
}

/// The navigation comment of the pull request of `current` in `stack`: a
/// heading, the pull requests of the stack from its tip to the trunk, the
/// trunk, and a closing line.
pub open spec fn comment_body(t: TreeView, current: Name, stack: Seq<Name>) -> Seq<char> {
    "## 📚 $\\text{Stack Overview}$\n\n"@ + "Pulls submitted in this stack:\n"@ + comment_entries(
        t,
        current,
        stack,
        stack.len() as int,
    ) + "* `"@ + t.trunk_name + "`\n"@
        + "\n_This comment was automatically generated by [`st`](https://github.com/clabby/st)._"@
}

impl StackTree {
    /// Whether the stack `branches` may be submitted: fails with `NeedsRestack`
    /// and the first tracked branch of it that needs a rebase, if there is one;
    /// else with `WorkingTreeDirty` if the working tree is not clean.
    pub fn check_cleanliness(
        &self,
        tips: &RepoTips,
        branches: &Vec<String>,
        working_tree_clean: bool,
    ) -> (r: Result<(), StError>)
        requires
            self.wf(),
        ensures
            match r {
                Ok(()) => working_tree_clean && forall|i: int|
                    0 <= i < branches.len() ==> !stale_at(self@, tips@, names(branches@), i),
                Err(StError::NeedsRestack(n)) => exists|at: int|
                    {
                        &&& 0 <= at < branches.len()
                        &&& forall|i: int| 0 <= i < at ==> !stale_at(self@, tips@, names(branches@), i)
                        &&& stale_at(self@, tips@, names(branches@), at)
                        &&& n@ == #[trigger] names(branches@)[at]
                    },
                Err(StError::WorkingTreeDirty) => !working_tree_clean && forall|i: int|
                    0 <= i < branches.len() ==> !stale_at(self@, tips@, names(branches@), i),
                Err(_) => false,
            },
    {
        let mut i: usize = 0;
        while i < branches.len()
            invariant
                self.wf(),
                i <= branches.len(),
                forall|j: int| 0 <= j < i ==> !stale_at(self@, tips@, names(branches@), j),
            decreases branches.len() - i,
        {
            match self.needs_restack(tips, branches[i].as_str()) {
                Ok(true) => {
                    assert(stale_at(self@, tips@, names(branches@), i as int));
                    assert(names(branches@)[i as int] == branches[i as int]@);
                    return Err(StError::NeedsRestack(branches[i].clone()));
                },
                _ => {},
            }
            i += 1;
        }
        if !working_tree_clean {
            return Err(StError::WorkingTreeDirty);
        }
        Ok(())
    }

    /// Deletes `branch_name` once the user has answered: if `confirmed`, the
    /// branch is untracked, and the caller is to check out the trunk and delete
    /// the local branch; if not, the branch is untracked only where
    /// `must_delete_from_tree` asks for it, and nothing else is done. Fails, and
    /// changes nothing, for the trunk and for a branch that is not tracked.
    pub fn delete_branch(
        &mut self,
        branch_name: &str,
        confirmed: bool,
        must_delete_from_tree: bool,
    ) -> (r: Result<Vec<Action>, StError>)
        requires
            old(self).wf(),
        ensures
            final(self).wf(),
            r is Ok <==> old(self)@.contains(branch_name@) && branch_name@ != old(self)@.trunk_name,
            r matches Ok(actions) ==> {
                &&& final(self)@ == if confirmed || must_delete_from_tree {
                    old(self)@.delete(branch_name@)
                } else {
                    old(self)@
                }
                &&& action_views(actions@) == if confirmed {
                    delete_plan(old(self)@.trunk_name, branch_name@)
                } else {
                    Seq::empty()
                }
            },
            r is Err ==> *final(self) == *old(self),
            r matches Err(e) ==> if branch_name@ == old(self)@.trunk_name {
                e is CannotDeleteTrunk
            } else {
                e matches StError::BranchNotTracked(n) && n@ == branch_name@
            },
    {
        if str_eq(branch_name, self.trunk_name.as_str()) {
            return Err(StError::CannotDeleteTrunk);
        }
        if self.find_index(branch_name).is_none() {
            return Err(StError::BranchNotTracked(branch_name.to_owned()));
        }
        let mut actions: Vec<Action> = Vec::new();
        if confirmed {
            actions.push(Action::Checkout { branch: self.trunk_name.clone() });
            actions.push(Action::DeleteBranch { branch: branch_name.to_owned() });
            assert(action_views(actions@) =~= delete_plan(old(self)@.trunk_name, branch_name@));
        } else {
            assert(action_views(actions@) =~= Seq::<ActionView>::empty());
        }
        if confirmed || must_delete_from_tree {
            let gone = self.delete(branch_name);
            assert(gone is Ok);
        }
        Ok(actions)
    }

    /// Records that the pull request `pr_number` was opened for `branch_name`. It
    /// has no navigation comment yet. Fails, and changes nothing, if the branch
    /// is not tracked.
    pub fn record_pull(&mut self, branch_name: &str, pr_number: u64) -> (r: Result<(), StError>)
        requires
            old(self).wf(),
        ensures
            final(self).wf(),
            r is Ok <==> old(self)@.contains(branch_name@),
            r is Ok ==> final(self)@ == old(self)@.set_remote(
                branch_name@,
                Some(RemoteMetadata { pr_number, comment_id: None }),
            ),
            r is Err ==> *final(self) == *old(self),
            r matches Err(e) ==> e matches StError::BranchNotTracked(n) && n@ == branch_name@,
    {
        let at: usize = match self.find_index(branch_name) {
            Some(i) => i,
            None => {
                return Err(StError::BranchNotTracked(branch_name.to_owned()));
            },
        };
        let ghost before = *self;
        let remote = Some(RemoteMetadata::new(pr_number));
        self.branches[at].remote = remote;
        proof {
            before.lemma_at(at as int);
            self.lemma_changed_at(before, at as int, before@.set_remote(branch_name@, remote));
            lemma_set_metadata_wf(before@, branch_name@, None, remote);
        }
        Ok(())
    }

    /// Records that the navigation comment of the pull request of `branch_name`
    /// is the comment `comment_id`. Fails, and changes nothing, if the branch is
    /// not tracked, or has no pull request.
    pub fn record_comment(&mut self, branch_name: &str, comment_id: u64) -> (r: Result<(), StError>)
        requires
            old(self).wf(),
        ensures
            final(self).wf(),
            r is Ok <==> old(self)@.contains(branch_name@) && old(self)@.branches[branch_name@].remote
                is Some,
            r is Ok ==> final(self)@ == old(self)@.set_remote(
                branch_name@,
                Some(
                    RemoteMetadata {
                        pr_number: old(self)@.branches[branch_name@].remote.unwrap().pr_number,
                        comment_id: Some(comment_id),
                    },
                ),
            ),
            r is Err ==> *final(self) == *old(self),
            r matches Err(e) ==> if old(self)@.contains(branch_name@) {
                e is RemotePRNotFound
            } else {
                e matches StError::BranchNotTracked(n) && n@ == branch_name@
            },
    {
        let at: usize = match self.find_index(branch_name) {
            Some(i) => i,
            None => {
                return Err(StError::BranchNotTracked(branch_name.to_owned()));
            },
        };
        proof {
            self.lemma_at(at as int);
        }
        let pr_number: u64 = match self.branches[at].remote {
            Some(remote) => remote.pr_number,
            None => {
                return Err(StError::RemotePRNotFound);
            },
        };
        let ghost before = *self;
        let remote = Some(RemoteMetadata { pr_number, comment_id: Some(comment_id) });
        self.branches[at].remote = remote;
        proof {
            self.lemma_changed_at(before, at as int, before@.set_remote(branch_name@, remote));
            lemma_set_metadata_wf(before@, branch_name@, None, remote);
        }
        Ok(())
    }

    /// The text of the navigation comment on the pull request of
    /// `current_branch`: the pull requests of the branches of `stack`, from its
    /// last branch to its second, that of `current_branch` marked, and then the
    /// trunk. Fails if a branch of the stack other than its first is not tracked,
    /// with the last such branch.
    pub fn render_pr_comment(
        &self,
        current_branch: &str,
        stack: &Vec<String>,
    ) -> (r: Result<String, StError>)
        requires
            self.wf(),
        ensures
            r is Ok <==> forall|i: int| 1 <= i < stack.len() ==> self@.contains(#[trigger] names(stack@)[i]),
            r matches Ok(body) ==> body@ == comment_body(self@, current_branch@, names(stack@)),
            r matches Err(e) ==> exists|at: int|
                {
                    &&& 1 <= at < stack.len()
                    &&& forall|i: int| at < i < stack.len() ==> self@.contains(#[trigger] names(stack@)[i])
                    &&& !self@.contains(#[trigger] names(stack@)[at])
                    &&& e matches StError::BranchNotTracked(n)
                    &&& n@ == names(stack@)[at]
                },
    {
        let ghost t = self@;
        let ghost lines = names(stack@);
        let ghost head = "## 📚 $\\text{Stack Overview}$\n\n"@ + "Pulls submitted in this stack:\n"@;
        let mut comment = String::new();
        comment.append("## 📚 $\\text{Stack Overview}$\n\n");
        comment.append("Pulls submitted in this stack:\n");
        assert(comment@ =~= head);
        let mut i: usize = stack.len();
        proof {
            assert(comment@ + comment_entries(t, current_branch@, lines, i as int) =~= head
                + comment_entries(t, current_branch@, lines, lines.len() as int));
        }
        while i > 1
            invariant
                self.wf(),
                t == self@,
                lines == names(stack@),
                i <= stack.len(),
                forall|j: int| i <= j < stack.len() && 1 <= j ==> t.contains(#[trigger] lines[j]),
                comment@ + comment_entries(t, current_branch@, lines, i as int) == head + comment_entries(
                    t,
                    current_branch@,
                    lines,
                    lines.len() as int,
                ),
            decreases i,
        {
            i -= 1;
            let branch = stack[i].as_str();
            assert(lines[i as int] == branch@);
            let ghost before = comment@;
            let ghost entry = comment_entry(t, current_branch@, branch@);
            let ghost rest = comment_entries(t, current_branch@, lines, i as int);
            let node = match self.get(branch) {
                Some(b) => b,
                None => {
                    return Err(StError::BranchNotTracked(stack[i].clone()));
                },
            };
            match node.remote {
                Some(remote) => {
                    comment.append("* #");
                    comment.append(u64_to_string(remote.pr_number).as_str());
                    if str_eq(branch, current_branch) {
                        comment.append(" 👈");
                    }
                    comment.append("\n");
                    assert(comment@ =~= before + entry);
                },
                None => {
                    assert(comment@ =~= before + entry);
                },
            }
            assert(comment@ + rest =~= before + (entry + rest));
        }
        let ghost entries = comment_entries(t, current_branch@, lines, lines.len() as int);
        assert(comment@ =~= head + entries) by {
            assert(comment_entries(t, current_branch@, lines, i as int) =~= Seq::<char>::empty());
            assert(comment@ + Seq::<char>::empty() =~= comment@);
        }
        comment.append("* `");
        comment.append(self.trunk_name.as_str());
        comment.append("`\n");
        comment.append(
            "\n_This comment was automatically generated by [`st`](https://github.com/clabby/st)._",
        );
        assert(comment@ =~= comment_body(t, current_branch@, lines));
        Ok(comment)
    }

    /// What is to be done with the navigation comment of `branch_name`: nothing
    /// if the branch has no pull request; else a comment with the rendered text
    /// is added to the pull request if it has none yet, and the comment that it
    /// has is given that text otherwise. Fails as rendering does, and if the
    /// branch is not tracked.
    pub fn plan_comment(
        &self,
        branch_name: &str,
        stack: &Vec<String>,
    ) -> (r: Result<Option<Action>, StError>)
        requires
            self.wf(),
        ensures
            r is Ok <==> self@.contains(branch_name@) && (self@.branches[branch_name@].remote is Some
                ==> forall|i: int| 1 <= i < stack.len() ==> self@.contains(#[trigger] names(stack@)[i])),
            r matches Ok(step) ==> match self@.branches[branch_name@].remote {
                None => step is None,
                Some(remote) => step matches Some(action) && action@ == (match remote.comment_id {
                    None => ActionView::CreateComment {
                        number: remote.pr_number,
                        body: comment_body(self@, branch_name@, names(stack@)),
                    },
                    Some(comment_id) => ActionView::UpdateComment {
                        comment_id,
                        body: comment_body(self@, branch_name@, names(stack@)),
                    },
                }),
            },
            r matches Err(e) ==> e matches StError::BranchNotTracked(n) && if !self@.contains(
                branch_name@,
            ) {
                n@ == branch_name@
            } else {
                exists|at: int|
                    {
                        &&& 1 <= at < stack.len()
                        &&& forall|i: int|
                            at < i < stack.len() ==> self@.contains(#[trigger] names(stack@)[i])
                        &&& !self@.contains(#[trigger] names(stack@)[at])
                        &&& n@ == names(stack@)[at]
                    }
            },
    {
        let remote = match self.get(branch_name) {
            None => {
                return Err(StError::BranchNotTracked(branch_name.to_owned()));
            },
            Some(node) => match node.remote {
                None => {
                    return Ok(None);
                },
                Some(remote) => remote,
            },
        };
        let body = match self.render_pr_comment(branch_name, stack) {
            Ok(body) => body,
            Err(e) => {
                return Err(e);
            },
        };
        match remote.comment_id {
            None => Ok(Some(Action::CreateComment { number: remote.pr_number, body })),
            Some(comment_id) => Ok(Some(Action::UpdateComment { comment_id, body })),
        }
    }
}

impl SubmitCmd {
    /// What is to be done to submit `branch_name`, given what came of asking the
    /// remote for its pull request. Nothing for the trunk. A branch without a
    /// pull request is pushed, and a pull request into its parent is opened;
    /// `pull` is not looked at. A branch with one has the base of the pull
    /// request set to its parent if the remote names another base, and is pushed
    /// unless its tip in `tips` is the head of the pull request. Fails if the
    /// branch is not tracked, with `RemotePRNotFound` if the remote lacks the
    /// pull request that the branch records, and with `RemoteUnavailable` if the
    /// remote could not be asked for it.
    pub fn plan_branch(
        &self,
        tree: &StackTree,
        tips: &RepoTips,
        branch_name: &str,
        pull: &PullLookup,
    ) -> (r: Result<Vec<Action>, StError>)
        requires
            tree.wf(),
        ensures
            r is Ok <==> tree@.contains(branch_name@) && (branch_name@ != tree@.trunk_name
                && tree@.branches[branch_name@].remote is Some ==> pull is Found),
            r matches Ok(actions) ==> action_views(actions@) == (if branch_name@ == tree@.trunk_name {
                Seq::empty()
            } else {
                match tree@.branches[branch_name@].remote {
                    None => create_plan(
                        branch_name@,
                        tree@.parent_of(branch_name@).unwrap(),
                        self.force,
                    ),
                    Some(remote) => update_plan(
                        branch_name@,
                        tree@.parent_of(branch_name@).unwrap(),
                        self.force,
                        remote.pr_number,
                        if tips@.contains_key(branch_name@) {
                            Some(tips@[branch_name@])
                        } else {
                            None
                        },
                        pull->Found_0.base_ref@,
                        pull->Found_0.head_sha@,
                    ),
                }
            }),
            r matches Err(e) ==> if !tree@.contains(branch_name@) {
                e matches StError::BranchNotTracked(n) && n@ == branch_name@
            } else if pull is NotFound {
                e is RemotePRNotFound
            } else {
                e is RemoteUnavailable
            },
    {
        let node = match tree.get(branch_name) {
            Some(b) => b,
            None => {
                return Err(StError::BranchNotTracked(branch_name.to_owned()));
            },
        };
        let mut actions: Vec<Action> = Vec::new();
        let parent = match &node.parent {
            Some(p) => p,
            None => {
                assert(action_views(actions@) =~= Seq::<ActionView>::empty());
                return Ok(actions);
            },
        };
        proof {
            lemma_depth(tree@, branch_name@);
        }
        match node.remote {
            None => {
                actions.push(Action::Push { branch: branch_name.to_owned(), force: self.force });
                actions.push(Action::CreatePull { head: branch_name.to_owned(), base: parent.clone() });
                assert(action_views(actions@) =~= create_plan(branch_name@, parent@, self.force));
            },
            Some(remote) => {
                let pull = match pull {
                    PullLookup::Found(p) => p,
                    PullLookup::NotFound => {
                        return Err(StError::RemotePRNotFound);
                    },
                    PullLookup::Unavailable => {
                        return Err(StError::RemoteUnavailable);
                    },
                };
                let ghost first = if pull.base_ref@ != parent@ {
                    seq![ActionView::UpdatePullBase { number: remote.pr_number, base: parent@ }]
                } else {
                    Seq::empty()
                };
                if !str_eq(pull.base_ref.as_str(), parent.as_str()) {
                    actions.push(Action::UpdatePullBase { number: remote.pr_number, base: parent.clone() });
                }
                assert(action_views(actions@) =~= first);
                let synced = match tips.get(branch_name) {
                    Some(tip) => str_eq(tip.as_str(), pull.head_sha.as_str()),
                    None => false,
                };
                if !synced {
                    actions.push(Action::Push { branch: branch_name.to_owned(), force: self.force });
                }
                assert(action_views(actions@) =~= update_plan(
                    branch_name@,
                    parent@,
                    self.force,
                    remote.pr_number,
                    if tips@.contains_key(branch_name@) {
                        Some(tips@[branch_name@])
                    } else {
                        None
                    },
                    pull.base_ref@,
                    pull.head_sha@,
                ));
            },
        }
        Ok(actions)
    }
}

impl StackTree {
    /// Whether the pull request of `branch_name` was closed on the remote, so
    /// that the user is to be asked whether the branch shall go. A branch without
    /// a pull request has none that was closed; `pull` is not looked at. Fails if
    /// the branch is not tracked, with `RemotePRNotFound` if the remote lacks the
    /// pull request that the branch records, and with `RemoteUnavailable` if the
    /// remote could not be asked for it.
    pub fn pull_is_closed(&self, branch_name: &str, pull: &PullLookup) -> (r: Result<bool, StError>)
        requires
            self.wf(),
        ensures
            r is Ok <==> self@.contains(branch_name@) && (self@.branches[branch_name@].remote is Some
                ==> pull is Found),
            r matches Ok(closed) ==> closed == (self@.branches[branch_name@].remote is Some
                && pull->Found_0.state is Closed),
            r matches Err(e) ==> if !self@.contains(branch_name@) {
                e matches StError::BranchNotTracked(n) && n@ == branch_name@
            } else if pull is NotFound {
                e is RemotePRNotFound
            } else {
                e is RemoteUnavailable
            },
    {
        let node = match self.get(branch_name) {
            Some(b) => b,
            None => {
                return Err(StError::BranchNotTracked(branch_name.to_owned()));
            },
        };
        if node.remote.is_none() {
            return Ok(false);
        }
        match pull {
            PullLookup::Found(p) => match p.state {
                PullState::Closed => Ok(true),
                PullState::Open => Ok(false),
            },
            PullLookup::NotFound => Err(StError::RemotePRNotFound),
            PullLookup::Unavailable => Err(StError::RemoteUnavailable),
        }
    }
}

} // verus!
