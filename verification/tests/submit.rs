use st::{
    Action, LocalMetadata, PullLookup, PullState, RemoteMetadata, RemotePull, RepoTips, StError,
    StackTree, SubmitCmd,
};

fn local(name: &str, oid: &str) -> LocalMetadata {
    LocalMetadata::new(name.to_string(), Some(oid.to_string()))
}

fn strings(names: &[&str]) -> Vec<String> {
    names.iter().map(|s| s.to_string()).collect()
}

fn tips(entries: &[(&str, &str)]) -> RepoTips {
    let mut t = RepoTips::new();
    for (branch, oid) in entries {
        t.set(branch.to_string(), oid.to_string());
    }
    t
}

fn found(state: PullState, base: &str, head: &str) -> PullLookup {
    PullLookup::Found(RemotePull { state, base_ref: base.to_string(), head_sha: head.to_string() })
}

/// main -> a -> b, all up to date
fn stack_tree() -> (StackTree, RepoTips) {
    let mut tree = StackTree::new("main".to_string());
    tree.insert("main", local("a", "m0")).unwrap();
    tree.insert("a", local("b", "a0")).unwrap();
    (tree, tips(&[("main", "m0"), ("a", "a0"), ("b", "b0")]))
}

const HEADER: &str = "## 📚 $\\text{Stack Overview}$\n\nPulls submitted in this stack:\n";
const FOOTER: &str =
    "\n_This comment was automatically generated by [`st`](https://github.com/clabby/st)._";

#[test]
fn clean_stack_passes_the_checks() {
    let (tree, repo) = stack_tree();
    let stack = strings(&["main", "a", "b"]);
    assert_eq!(tree.check_cleanliness(&repo, &stack, true), Ok(()));
}

#[test]
fn stale_branch_stops_submission() {
    let (tree, mut repo) = stack_tree();
    repo.set("a".to_string(), "a1".to_string());
    let stack = strings(&["main", "a", "b"]);
    assert_eq!(
        tree.check_cleanliness(&repo, &stack, true),
        Err(StError::NeedsRestack("b".to_string()))
    );
    repo.set("main".to_string(), "m1".to_string());
    // the first stale branch is named, and staleness comes before dirtiness
    assert_eq!(
        tree.check_cleanliness(&repo, &stack, false),
        Err(StError::NeedsRestack("a".to_string()))
    );
}

#[test]
fn dirty_working_tree_stops_submission() {
    let (tree, repo) = stack_tree();
    let stack = strings(&["main", "a", "b"]);
    assert_eq!(tree.check_cleanliness(&repo, &stack, false), Err(StError::WorkingTreeDirty));
    // a branch that is not tracked is not stale
    assert_eq!(tree.check_cleanliness(&repo, &strings(&["main", "zzz"]), true), Ok(()));
}

#[test]
fn new_branch_is_pushed_and_gets_a_pull_request() {
    let (tree, repo) = stack_tree();
    let cmd = SubmitCmd { force: false };
    assert_eq!(
        cmd.plan_branch(&tree, &repo, "a", &PullLookup::NotFound),
        Ok(vec![
            Action::Push { branch: "a".to_string(), force: false },
            Action::CreatePull { head: "a".to_string(), base: "main".to_string() },
        ])
    );
    let forced = SubmitCmd { force: true };
    assert_eq!(
        forced.plan_branch(&tree, &repo, "b", &PullLookup::Unavailable),
        Ok(vec![
            Action::Push { branch: "b".to_string(), force: true },
            Action::CreatePull { head: "b".to_string(), base: "a".to_string() },
        ])
    );
}

#[test]
fn trunk_is_not_submitted() {
    let (tree, repo) = stack_tree();
    let cmd = SubmitCmd { force: false };
    assert_eq!(cmd.plan_branch(&tree, &repo, "main", &PullLookup::NotFound), Ok(vec![]));
}

#[test]
fn synced_branch_is_not_pushed() {
    let (mut tree, repo) = stack_tree();
    tree.record_pull("a", 7).unwrap();
    let cmd = SubmitCmd { force: true };
    // the head of the pull request is the local tip: nothing is pushed
    assert_eq!(
        cmd.plan_branch(&tree, &repo, "a", &found(PullState::Open, "main", "a0")),
        Ok(vec![])
    );
    // and the comment is still synced
    let stack = strings(&["main", "a", "b"]);
    let step = tree.plan_comment("a", &stack).unwrap();
    assert!(matches!(step, Some(Action::CreateComment { number: 7, .. })));
}

#[test]
fn branch_ahead_of_remote_is_pushed() {
    let (mut tree, repo) = stack_tree();
    tree.record_pull("a", 7).unwrap();
    let cmd = SubmitCmd { force: true };
    assert_eq!(
        cmd.plan_branch(&tree, &repo, "a", &found(PullState::Open, "main", "old")),
        Ok(vec![Action::Push { branch: "a".to_string(), force: true }])
    );
    // a branch whose tip is not known is pushed as well
    assert_eq!(
        cmd.plan_branch(&tree, &RepoTips::new(), "a", &found(PullState::Open, "main", "a0")),
        Ok(vec![Action::Push { branch: "a".to_string(), force: true }])
    );
}

#[test]
fn base_of_pull_request_follows_the_parent() {
    let (mut tree, repo) = stack_tree();
    tree.record_pull("b", 9).unwrap();
    let cmd = SubmitCmd { force: false };
    assert_eq!(
        cmd.plan_branch(&tree, &repo, "b", &found(PullState::Open, "main", "b0")),
        Ok(vec![Action::UpdatePullBase { number: 9, base: "a".to_string() }])
    );
    assert_eq!(
        cmd.plan_branch(&tree, &repo, "b", &found(PullState::Open, "main", "old")),
        Ok(vec![
            Action::UpdatePullBase { number: 9, base: "a".to_string() },
            Action::Push { branch: "b".to_string(), force: false },
        ])
    );
}

#[test]
fn submission_fails_without_the_pull_request() {
    let (mut tree, repo) = stack_tree();
    tree.record_pull("a", 7).unwrap();
    let cmd = SubmitCmd { force: false };
    assert_eq!(
        cmd.plan_branch(&tree, &repo, "a", &PullLookup::NotFound),
        Err(StError::RemotePRNotFound)
    );
    assert_eq!(
        cmd.plan_branch(&tree, &repo, "a", &PullLookup::Unavailable),
        Err(StError::RemoteUnavailable)
    );
    assert_eq!(
        cmd.plan_branch(&tree, &repo, "zzz", &PullLookup::NotFound),
        Err(StError::BranchNotTracked("zzz".to_string()))
    );
}

#[test]
fn record_pull_and_comment() {
    let (mut tree, _) = stack_tree();
    assert_eq!(tree.record_comment("a", 5), Err(StError::RemotePRNotFound));
    assert_eq!(tree.record_pull("a", 7), Ok(()));
    assert_eq!(
        tree.get("a").unwrap().remote,
        Some(RemoteMetadata { pr_number: 7, comment_id: None })
    );
    assert_eq!(tree.record_comment("a", 5), Ok(()));
    assert_eq!(
        tree.get("a").unwrap().remote,
        Some(RemoteMetadata { pr_number: 7, comment_id: Some(5) })
    );
    assert_eq!(tree.record_pull("zzz", 1), Err(StError::BranchNotTracked("zzz".to_string())));
    assert_eq!(tree.record_comment("zzz", 1), Err(StError::BranchNotTracked("zzz".to_string())));
    assert_eq!(tree.get("b").unwrap().remote, None);
    assert!(tree.is_valid());
}

#[test]
fn comment_lists_pull_requests_from_tip_to_trunk() {
    let (mut tree, _) = stack_tree();
    tree.record_pull("a", 12).unwrap();
    tree.record_pull("b", 340).unwrap();
    let stack = strings(&["main", "a", "b"]);
    assert_eq!(
        tree.render_pr_comment("a", &stack),
        Ok(format!("{}* #340\n* #12 👈\n* `main`\n{}", HEADER, FOOTER))
    );
    assert_eq!(
        tree.render_pr_comment("b", &stack),
        Ok(format!("{}* #340 👈\n* #12\n* `main`\n{}", HEADER, FOOTER))
    );
    // the same inputs give the same text
    assert_eq!(tree.render_pr_comment("b", &stack), tree.render_pr_comment("b", &stack));
}

#[test]
fn comment_leaves_out_what_was_not_submitted() {
    let (mut tree, _) = stack_tree();
    tree.record_pull("b", 18446744073709551615).unwrap();
    let stack = strings(&["main", "a", "b"]);
    assert_eq!(
        tree.render_pr_comment("b", &stack),
        Ok(format!("{}* #18446744073709551615 👈\n* `main`\n{}", HEADER, FOOTER))
    );
    assert_eq!(
        tree.render_pr_comment("main", &strings(&["main"])),
        Ok(format!("{}* `main`\n{}", HEADER, FOOTER))
    );
    tree.record_pull("a", 0).unwrap();
    assert_eq!(
        tree.render_pr_comment("zzz", &strings(&["main", "a"])),
        Ok(format!("{}* #0\n* `main`\n{}", HEADER, FOOTER))
    );
}

#[test]
fn comment_fails_for_untracked_branch() {
    let (tree, _) = stack_tree();
    assert_eq!(
        tree.render_pr_comment("a", &strings(&["main", "x", "a", "y", "b"])),
        Err(StError::BranchNotTracked("y".to_string()))
    );
    // the first entry of the stack is not looked up
    assert!(tree.render_pr_comment("a", &strings(&["zzz", "a"])).is_ok());
}

#[test]
fn comment_is_created_once_and_updated_afterwards() {
    let (mut tree, _) = stack_tree();
    let stack = strings(&["main", "a", "b"]);
    assert_eq!(tree.plan_comment("a", &stack), Ok(None));
    tree.record_pull("a", 12).unwrap();
    let body = tree.render_pr_comment("a", &stack).unwrap();
    assert_eq!(
        tree.plan_comment("a", &stack),
        Ok(Some(Action::CreateComment { number: 12, body: body.clone() }))
    );
    tree.record_comment("a", 99).unwrap();
    assert_eq!(
        tree.plan_comment("a", &stack),
        Ok(Some(Action::UpdateComment { comment_id: 99, body }))
    );
    assert_eq!(
        tree.plan_comment("zzz", &stack),
        Err(StError::BranchNotTracked("zzz".to_string()))
    );
    assert_eq!(
        tree.plan_comment("a", &strings(&["main", "a", "gone"])),
        Err(StError::BranchNotTracked("gone".to_string()))
    );
}

#[test]
fn closed_pull_request_is_recognised() {
    let (mut tree, _) = stack_tree();
    // no pull request: nothing was closed, whatever the remote says
    assert_eq!(tree.pull_is_closed("a", &PullLookup::Unavailable), Ok(false));
    tree.record_pull("a", 3).unwrap();
    assert_eq!(tree.pull_is_closed("a", &found(PullState::Closed, "main", "a0")), Ok(true));
    assert_eq!(tree.pull_is_closed("a", &found(PullState::Open, "main", "a0")), Ok(false));
    assert_eq!(tree.pull_is_closed("a", &PullLookup::NotFound), Err(StError::RemotePRNotFound));
    assert_eq!(
        tree.pull_is_closed("a", &PullLookup::Unavailable),
        Err(StError::RemoteUnavailable)
    );
    assert_eq!(
        tree.pull_is_closed("zzz", &PullLookup::NotFound),
        Err(StError::BranchNotTracked("zzz".to_string()))
    );
}

#[test]
fn confirmed_deletion_untracks_and_asks_for_the_git_work() {
    let (mut tree, _) = stack_tree();
    assert_eq!(
        tree.delete_branch("a", true, false),
        Ok(vec![
            Action::Checkout { branch: "main".to_string() },
            Action::DeleteBranch { branch: "a".to_string() },
        ])
    );
    assert!(tree.get("a").is_none());
    assert_eq!(tree.get("b").unwrap().parent, Some("main".to_string()));
}

#[test]
fn declined_deletion_untracks_only_on_demand() {
    let (mut tree, _) = stack_tree();
    let before = tree.clone();
    assert_eq!(tree.delete_branch("a", false, false), Ok(vec![]));
    assert_eq!(tree, before);
    assert_eq!(tree.delete_branch("a", false, true), Ok(vec![]));
    assert!(tree.get("a").is_none());
    assert_eq!(tree.get("b").unwrap().parent, Some("main".to_string()));
}

#[test]
fn deletion_of_trunk_or_untracked_branch_fails() {
    let (mut tree, _) = stack_tree();
    let before = tree.clone();
    assert_eq!(tree.delete_branch("main", true, true), Err(StError::CannotDeleteTrunk));
    assert_eq!(
        tree.delete_branch("zzz", true, true),
        Err(StError::BranchNotTracked("zzz".to_string()))
    );
    assert_eq!(tree, before);
}
