use st::{LocalMetadata, RemoteMetadata, StError, StackTree, TrackedBranch};

fn local(name: &str, oid: Option<&str>) -> LocalMetadata {
    LocalMetadata::new(name.to_string(), oid.map(|o| o.to_string()))
}

fn sorted(names: &[String]) -> Vec<String> {
    let mut v = names.to_vec();
    v.sort();
    v
}

/// main -> a -> {b, c}, b -> d
fn sample() -> StackTree {
    let mut tree = StackTree::new("main".to_string());
    tree.insert("main", local("a", Some("m0"))).unwrap();
    tree.insert("a", local("b", Some("a0"))).unwrap();
    tree.insert("a", local("c", Some("a0"))).unwrap();
    tree.insert("b", local("d", Some("b0"))).unwrap();
    tree
}

#[test]
fn mod_insert_new_branch() {
    let mut tree = StackTree::new("main".to_string());

    tree.insert("main", LocalMetadata::new("feature_branch".to_string(), None)).unwrap();

    let feature_branch = tree.get("feature_branch").unwrap();
    assert_eq!(feature_branch.parent.clone().unwrap(), "main".to_string());
}

#[test]
fn tree_insert_new_branch() {
    let mut tree = StackTree::new("main".to_string());

    tree.insert(
        "main",
        LocalMetadata::new("feature_branch".to_string(), Some(Default::default())),
    )
    .unwrap();

    let feature_branch = tree.get("feature_branch").unwrap();
    assert_eq!(feature_branch.parent.clone().unwrap(), "main".to_string());
}

#[test]
fn new_tree_tracks_the_trunk_alone() {
    let tree = StackTree::new("main".to_string());
    assert_eq!(tree.trunk_name, "main");
    assert_eq!(tree.branches.len(), 1);
    let trunk = tree.trunk();
    assert_eq!(trunk.local.branch_name, "main");
    assert_eq!(trunk.parent, None);
    assert!(trunk.children.is_empty());
    assert_eq!(trunk.local.parent_oid_cache, None);
    assert_eq!(trunk.remote, None);
    assert!(tree.is_valid());
}

#[test]
fn constructors_keep_what_they_are_given() {
    let meta = LocalMetadata::new("feat".to_string(), Some("abc".to_string()));
    assert_eq!(meta.branch_name, "feat");
    assert_eq!(meta.parent_oid_cache, Some("abc".to_string()));
    let branch = TrackedBranch::new(meta.clone(), Some("main".to_string()));
    assert_eq!(branch.local, meta);
    assert_eq!(branch.parent, Some("main".to_string()));
    assert!(branch.children.is_empty());
    assert_eq!(branch.remote, None);
    let remote = RemoteMetadata::new(17);
    assert_eq!(remote.pr_number, 17);
    assert_eq!(remote.comment_id, None);
}

#[test]
fn insert_links_parent_and_child() {
    let mut tree = StackTree::new("main".to_string());
    assert_eq!(tree.insert("main", local("feat", Some("oid0"))), Ok(()));
    let feat = tree.get("feat").unwrap();
    assert_eq!(feat.parent, Some("main".to_string()));
    assert_eq!(feat.local.parent_oid_cache, Some("oid0".to_string()));
    assert!(feat.children.is_empty());
    assert_eq!(feat.remote, None);
    assert_eq!(tree.get("main").unwrap().children, vec!["feat".to_string()]);
    assert!(tree.is_valid());
}

#[test]
fn insert_under_untracked_parent_fails() {
    let mut tree = StackTree::new("main".to_string());
    let before = tree.clone();
    assert_eq!(tree.insert("nope", local("feat", None)), Err(StError::ParentNotTracked));
    assert_eq!(tree, before);
}

#[test]
fn insert_of_tracked_branch_fails() {
    let mut tree = sample();
    let before = tree.clone();
    assert_eq!(
        tree.insert("main", local("b", None)),
        Err(StError::BranchAlreadyTracked("b".to_string()))
    );
    assert_eq!(
        tree.insert("a", local("main", None)),
        Err(StError::BranchAlreadyTracked("main".to_string()))
    );
    assert_eq!(tree, before);
}

#[test]
fn get_of_untracked_branch_is_none() {
    let mut tree = sample();
    assert!(tree.get("zzz").is_none());
    assert!(tree.get_mut("zzz").is_none());
    assert_eq!(tree.get("d").unwrap().local.branch_name, "d");
}

#[test]
fn get_mut_changes_one_node() {
    let mut tree = sample();
    let before = tree.clone();
    tree.get_mut("c").unwrap().local.parent_oid_cache = Some("a1".to_string());
    assert_eq!(tree.get("c").unwrap().local.parent_oid_cache, Some("a1".to_string()));
    for name in ["main", "a", "b", "d"] {
        assert_eq!(tree.get(name), before.get(name));
    }
    assert!(tree.is_valid());
}

#[test]
fn delete_splices_children_under_grandparent() {
    // `a` has the children {b, c}, and `main` is its parent.
    let mut tree = StackTree::new("main".to_string());
    tree.insert("main", local("a", Some("m0"))).unwrap();
    tree.insert("a", local("b", Some("a0"))).unwrap();
    tree.insert("a", local("c", Some("a0"))).unwrap();

    let gone = tree.delete("a").unwrap();
    assert_eq!(gone.local.branch_name, "a");
    assert_eq!(gone.parent, Some("main".to_string()));
    assert_eq!(sorted(&gone.children), vec!["b".to_string(), "c".to_string()]);

    assert!(tree.get("a").is_none());
    assert_eq!(tree.get("b").unwrap().parent, Some("main".to_string()));
    assert_eq!(tree.get("c").unwrap().parent, Some("main".to_string()));
    let main = tree.get("main").unwrap();
    assert_eq!(sorted(&main.children), vec!["b".to_string(), "c".to_string()]);
    assert!(tree.is_valid());
}

#[test]
fn delete_keeps_descendants_and_metadata() {
    let mut tree = sample();
    tree.insert("main", local("e", Some("m0"))).unwrap();
    tree.delete("a").unwrap();
    assert_eq!(
        sorted(&tree.get("main").unwrap().children),
        vec!["b".to_string(), "c".to_string(), "e".to_string()]
    );
    // `d` hangs under `b` as before, and the caches are what they were
    assert_eq!(tree.get("d").unwrap().parent, Some("b".to_string()));
    assert_eq!(tree.get("b").unwrap().children, vec!["d".to_string()]);
    assert_eq!(tree.get("b").unwrap().local.parent_oid_cache, Some("a0".to_string()));
    assert_eq!(tree.get("d").unwrap().local.parent_oid_cache, Some("b0".to_string()));
    assert_eq!(tree.branches.len(), 5);
    // every branch still leads up to the trunk
    for name in ["b", "c", "d", "e"] {
        let stack = tree.discover_stack(name).unwrap();
        assert_eq!(stack[0], "main");
        assert!(stack.contains(&name.to_string()));
    }
}

#[test]
fn delete_of_leaf_removes_it_from_its_parent() {
    let mut tree = sample();
    tree.delete("d").unwrap();
    assert!(tree.get("b").unwrap().children.is_empty());
    assert_eq!(tree.branches.len(), 4);
    assert!(tree.is_valid());
}

#[test]
fn delete_of_trunk_fails() {
    let mut tree = sample();
    let before = tree.clone();
    assert_eq!(tree.delete("main"), Err(StError::CannotDeleteTrunk));
    assert_eq!(tree, before);
}

#[test]
fn delete_of_untracked_branch_fails() {
    let mut tree = sample();
    let before = tree.clone();
    assert_eq!(tree.delete("zzz"), Err(StError::BranchNotTracked("zzz".to_string())));
    assert_eq!(tree, before);
}

#[test]
fn prune_untracks_what_no_longer_exists() {
    let mut tree = sample();
    // `a` and `b` are gone from the repository
    let existing = vec!["main".to_string(), "c".to_string(), "d".to_string(), "other".to_string()];
    tree.prune(&existing);
    assert!(tree.get("a").is_none());
    assert!(tree.get("b").is_none());
    assert_eq!(tree.get("c").unwrap().parent, Some("main".to_string()));
    assert_eq!(tree.get("d").unwrap().parent, Some("main".to_string()));
    assert_eq!(
        sorted(&tree.get("main").unwrap().children),
        vec!["c".to_string(), "d".to_string()]
    );
    assert_eq!(tree.get("d").unwrap().local.parent_oid_cache, Some("b0".to_string()));
    assert_eq!(tree.branches.len(), 3);
    assert!(tree.is_valid());
}

#[test]
fn prune_keeps_the_trunk_and_what_exists() {
    let mut tree = sample();
    let before = tree.clone();
    let all: Vec<String> = ["a", "b", "c", "d"].iter().map(|s| s.to_string()).collect();
    tree.prune(&all);
    assert_eq!(tree, before);
    tree.prune(&Vec::new());
    assert_eq!(tree, StackTree::new("main".to_string()));
}

#[test]
fn branches_lists_parents_before_children() {
    let tree = sample();
    let listed = tree.branches();
    assert_eq!(
        listed,
        vec!["main".to_string(), "a".to_string(), "b".to_string(), "d".to_string(), "c".to_string()]
    );
    let lone = StackTree::new("trunk".to_string());
    assert_eq!(lone.branches(), vec!["trunk".to_string()]);
}
