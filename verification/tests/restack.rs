use st::{LocalMetadata, RebaseOutcome, RebaseStep, RepoTips, StError, StackTree};

fn local(name: &str, oid: &str) -> LocalMetadata {
    LocalMetadata::new(name.to_string(), Some(oid.to_string()))
}

fn tips(entries: &[(&str, &str)]) -> RepoTips {
    let mut t = RepoTips::new();
    for (branch, oid) in entries {
        t.set(branch.to_string(), oid.to_string());
    }
    t
}

fn strings(names: &[&str]) -> Vec<String> {
    names.iter().map(|s| s.to_string()).collect()
}

#[test]
fn tips_keep_the_last_entry_of_a_branch() {
    let mut t = RepoTips::new();
    assert_eq!(t.get("main"), None);
    t.set("main".to_string(), "m0".to_string());
    t.set("feat".to_string(), "f0".to_string());
    assert_eq!(t.get("main"), Some(&"m0".to_string()));
    t.set("main".to_string(), "m1".to_string());
    assert_eq!(t.get("main"), Some(&"m1".to_string()));
    assert_eq!(t.get("feat"), Some(&"f0".to_string()));
    assert_eq!(t.get("other"), None);
}

#[test]
fn trunk_never_needs_restack() {
    let tree = StackTree::new("main".to_string());
    assert_eq!(tree.needs_restack(&RepoTips::new(), "main"), Ok(false));
    assert_eq!(tree.needs_restack(&tips(&[("main", "m0")]), "main"), Ok(false));
}

#[test]
fn restack_scenario() {
    let mut tree = StackTree::new("main".to_string());
    let mut repo = tips(&[("main", "m0"), ("feat", "f0")]);
    tree.insert("main", local("feat", "m0")).unwrap();
    assert_eq!(tree.needs_restack(&repo, "feat"), Ok(false));

    // main advances by one commit
    repo.set("main".to_string(), "m1".to_string());
    assert_eq!(tree.needs_restack(&repo, "feat"), Ok(true));

    let stack = strings(&["main", "feat"]);
    let step = tree.next_rebase(&repo, &stack, 0).unwrap().unwrap();
    assert_eq!(
        step,
        RebaseStep { index: 1, branch: "feat".to_string(), onto: "main".to_string() }
    );
    // the rebase goes through and leaves feat on a new commit
    repo.set("feat".to_string(), "f1".to_string());
    let parent_tip = repo.get(&step.onto).unwrap().clone();
    tree.finish_rebase(&step.branch, RebaseOutcome::Rebased { parent_tip }).unwrap();
    assert_eq!(tree.next_rebase(&repo, &stack, step.index + 1), Ok(None));

    assert_eq!(tree.needs_restack(&repo, "feat"), Ok(false));
    assert_eq!(
        tree.get("feat").unwrap().local.parent_oid_cache,
        Some("m1".to_string())
    );
}

#[test]
fn staleness_is_inherited_from_ancestors() {
    let mut tree = StackTree::new("main".to_string());
    tree.insert("main", local("a", "m0")).unwrap();
    tree.insert("a", local("b", "a0")).unwrap();
    tree.insert("b", local("c", "b0")).unwrap();
    let repo = tips(&[("main", "m1"), ("a", "a0"), ("b", "b0"), ("c", "c0")]);
    assert_eq!(tree.needs_restack(&repo, "a"), Ok(true));
    // b and c match their parents' tips, but a is stale
    assert_eq!(tree.needs_restack(&repo, "b"), Ok(true));
    assert_eq!(tree.needs_restack(&repo, "c"), Ok(true));
}

#[test]
fn missing_cache_or_tip_means_stale() {
    let mut tree = StackTree::new("main".to_string());
    tree.insert("main", LocalMetadata::new("a".to_string(), None)).unwrap();
    tree.insert("main", local("b", "m0")).unwrap();
    assert_eq!(tree.needs_restack(&tips(&[("main", "m0")]), "a"), Ok(true));
    assert_eq!(tree.needs_restack(&tips(&[("main", "m0")]), "b"), Ok(false));
    assert_eq!(tree.needs_restack(&RepoTips::new(), "b"), Ok(true));
}

#[test]
fn needs_restack_of_untracked_branch_fails() {
    let tree = StackTree::new("main".to_string());
    assert_eq!(
        tree.needs_restack(&RepoTips::new(), "zzz"),
        Err(StError::BranchNotTracked("zzz".to_string()))
    );
}

#[test]
fn full_pass_leaves_nothing_stale() {
    let mut tree = StackTree::new("main".to_string());
    tree.insert("main", local("a", "m0")).unwrap();
    tree.insert("a", local("b", "a0")).unwrap();
    tree.insert("b", local("c", "b0")).unwrap();
    let mut repo = tips(&[("main", "m1"), ("a", "a0"), ("b", "b0"), ("c", "c0")]);
    let stack = tree.discover_stack("b").unwrap();
    assert_eq!(stack, strings(&["main", "a", "b", "c"]));

    let mut from = 0;
    let mut rebased = Vec::new();
    while let Some(step) = tree.next_rebase(&repo, &stack, from).unwrap() {
        assert_eq!(step.onto, stack[step.index - 1]);
        // the rebase moves the branch to a new commit
        repo.set(step.branch.clone(), format!("{}-rebased", step.branch));
        let parent_tip = repo.get(&step.onto).unwrap().clone();
        tree.finish_rebase(&step.branch, RebaseOutcome::Rebased { parent_tip }).unwrap();
        rebased.push(step.branch.clone());
        from = step.index + 1;
    }
    assert_eq!(rebased, strings(&["a", "b", "c"]));
    for (i, name) in stack.iter().enumerate() {
        assert_eq!(tree.needs_restack(&repo, name), Ok(false));
        if i > 0 {
            assert_eq!(
                tree.get(name).unwrap().local.parent_oid_cache.as_ref(),
                repo.get(&stack[i - 1])
            );
        }
    }
    // a second pass has nothing to do
    assert_eq!(tree.next_rebase(&repo, &stack, 0), Ok(None));
}

#[test]
fn next_rebase_skips_what_is_up_to_date() {
    let mut tree = StackTree::new("main".to_string());
    tree.insert("main", local("a", "m0")).unwrap();
    tree.insert("a", local("b", "a-old")).unwrap();
    let repo = tips(&[("main", "m0"), ("a", "a0"), ("b", "b0")]);
    let stack = strings(&["main", "a", "b"]);
    assert_eq!(
        tree.next_rebase(&repo, &stack, 0),
        Ok(Some(RebaseStep { index: 2, branch: "b".to_string(), onto: "a".to_string() }))
    );
    assert_eq!(tree.next_rebase(&repo, &stack, 3), Ok(None));
    assert_eq!(tree.next_rebase(&repo, &strings(&["main"]), 0), Ok(None));
    assert_eq!(tree.next_rebase(&repo, &Vec::new(), 0), Ok(None));
}

#[test]
fn next_rebase_fails_at_untracked_branch() {
    let mut tree = StackTree::new("main".to_string());
    tree.insert("main", local("a", "m0")).unwrap();
    let repo = tips(&[("main", "m0")]);
    assert_eq!(
        tree.next_rebase(&repo, &strings(&["main", "a", "ghost"]), 0),
        Err(StError::BranchNotTracked("ghost".to_string()))
    );
}

#[test]
fn conflict_ends_the_pass_and_changes_nothing() {
    let mut tree = StackTree::new("main".to_string());
    tree.insert("main", local("a", "m0")).unwrap();
    let before = tree.clone();
    assert_eq!(
        tree.finish_rebase("a", RebaseOutcome::Conflict),
        Err(StError::RebaseConflict("a".to_string()))
    );
    assert_eq!(tree, before);
    assert_eq!(
        tree.finish_rebase("zzz", RebaseOutcome::Rebased { parent_tip: "m1".to_string() }),
        Err(StError::BranchNotTracked("zzz".to_string()))
    );
    assert_eq!(tree, before);
}
