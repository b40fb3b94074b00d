use st::{
    LocalMetadata, RemoteMetadata, StError, StackTree, StoreDocument, StoredBranch, StoredEntry,
    StoredLocal, TrackedBranch,
};

fn local(name: &str, oid: &str) -> LocalMetadata {
    LocalMetadata::new(name.to_string(), Some(oid.to_string()))
}

fn entry(name: &str, parent: Option<&str>, children: &[&str]) -> StoredEntry {
    StoredEntry {
        name: name.to_string(),
        branch: StoredBranch {
            parent: parent.map(|p| p.to_string()),
            children: children.iter().map(|c| c.to_string()).collect(),
            local: StoredLocal { parent_oid_cache: None },
            remote: None,
        },
    }
}

fn document(entries: Vec<StoredEntry>) -> StoreDocument {
    StoreDocument { trunk_name: "main".to_string(), branches: entries }
}

fn sample() -> StackTree {
    let mut tree = StackTree::new("main".to_string());
    tree.insert("main", local("a", "m0")).unwrap();
    tree.insert("a", local("b", "a0")).unwrap();
    tree.insert("a", LocalMetadata::new("c".to_string(), None)).unwrap();
    tree.record_pull("a", 4).unwrap();
    tree.record_pull("b", 5).unwrap();
    tree.record_comment("b", 77).unwrap();
    tree
}

#[test]
fn document_holds_each_branch_under_its_name() {
    let doc = sample().to_document();
    assert_eq!(doc.trunk_name, "main");
    assert_eq!(doc.branches.len(), 4);
    let b = doc.branches.iter().find(|e| e.name == "b").unwrap();
    assert_eq!(
        b.branch,
        StoredBranch {
            parent: Some("a".to_string()),
            children: vec![],
            local: StoredLocal { parent_oid_cache: Some("a0".to_string()) },
            remote: Some(RemoteMetadata { pr_number: 5, comment_id: Some(77) }),
        }
    );
    let main = doc.branches.iter().find(|e| e.name == "main").unwrap();
    assert_eq!(main.branch.parent, None);
    assert_eq!(main.branch.children, vec!["a".to_string()]);
    assert_eq!(main.branch.local.parent_oid_cache, None);
}

#[test]
fn round_trip_gives_the_same_tree() {
    let tree = sample();
    assert_eq!(StackTree::from_document(tree.to_document()), Ok(tree));
    let lone = StackTree::new("trunk".to_string());
    assert_eq!(StackTree::from_document(lone.to_document()), Ok(lone));
}

#[test]
fn entries_may_come_in_any_order() {
    let doc = document(vec![
        entry("b", Some("a"), &[]),
        entry("a", Some("main"), &["b"]),
        entry("main", None, &["a"]),
    ]);
    let tree = StackTree::from_document(doc).unwrap();
    assert_eq!(
        tree.discover_stack("a"),
        Ok(vec!["main".to_string(), "a".to_string(), "b".to_string()])
    );
    assert_eq!(tree.get("b").unwrap().local.branch_name, "b");
}

#[test]
fn round_trip_in_another_order_gives_the_same_tree() {
    let tree = sample();
    let mut doc = tree.to_document();
    doc.branches.reverse();
    for entry in doc.branches.iter_mut() {
        entry.branch.children.reverse();
    }
    let back = StackTree::from_document(doc).unwrap();
    assert_ne!(back, tree);
    assert!(back.same_as(&tree));
    assert!(tree.same_as(&back));
}

#[test]
fn trees_that_differ_are_not_the_same() {
    let tree = sample();
    assert!(tree.same_as(&tree.clone()));

    let mut other = sample();
    other.record_pull("c", 9).unwrap();
    assert!(!tree.same_as(&other));

    let mut other = sample();
    other.delete("c").unwrap();
    assert!(!tree.same_as(&other));
    assert!(!other.same_as(&tree));

    let mut other = sample();
    other.delete("c").unwrap();
    other.insert("b", LocalMetadata::new("c".to_string(), None)).unwrap();
    assert!(!tree.same_as(&other));

    let mut other = sample();
    other.get_mut("b").unwrap().local.parent_oid_cache = None;
    assert!(!tree.same_as(&other));

    let renamed = {
        let mut t = StackTree::new("trunk".to_string());
        t.insert("trunk", local("a", "m0")).unwrap();
        t
    };
    let plain = {
        let mut t = StackTree::new("main".to_string());
        t.insert("main", local("a", "m0")).unwrap();
        t
    };
    assert!(!renamed.same_as(&plain));
}

#[test]
fn document_without_trunk_is_corrupt() {
    assert_eq!(StackTree::from_document(document(vec![])), Err(StError::StoreCorrupt));
    assert_eq!(
        StackTree::from_document(document(vec![entry("a", None, &[])])),
        Err(StError::StoreCorrupt)
    );
    // the trunk must not have a parent
    assert_eq!(
        StackTree::from_document(document(vec![
            entry("main", Some("a"), &["a"]),
            entry("a", Some("main"), &["main"]),
        ])),
        Err(StError::StoreCorrupt)
    );
}

#[test]
fn document_with_dangling_names_is_corrupt() {
    // a parent that is not stored
    assert_eq!(
        StackTree::from_document(document(vec![
            entry("main", None, &[]),
            entry("a", Some("gone"), &[]),
        ])),
        Err(StError::StoreCorrupt)
    );
    // a second branch without a parent
    assert_eq!(
        StackTree::from_document(document(vec![entry("main", None, &[]), entry("a", None, &[])])),
        Err(StError::StoreCorrupt)
    );
    // a child that is not stored
    assert_eq!(
        StackTree::from_document(document(vec![entry("main", None, &["a"])])),
        Err(StError::StoreCorrupt)
    );
}

#[test]
fn document_with_mismatched_links_is_corrupt() {
    // the parent does not list the child
    assert_eq!(
        StackTree::from_document(document(vec![
            entry("main", None, &[]),
            entry("a", Some("main"), &[]),
        ])),
        Err(StError::StoreCorrupt)
    );
    // the child names another parent
    assert_eq!(
        StackTree::from_document(document(vec![
            entry("main", None, &["a", "b"]),
            entry("a", Some("main"), &[]),
            entry("b", Some("a"), &[]),
        ])),
        Err(StError::StoreCorrupt)
    );
}

#[test]
fn document_with_repeated_names_is_corrupt() {
    assert_eq!(
        StackTree::from_document(document(vec![
            entry("main", None, &["a"]),
            entry("a", Some("main"), &[]),
            entry("a", Some("main"), &[]),
        ])),
        Err(StError::StoreCorrupt)
    );
    assert_eq!(
        StackTree::from_document(document(vec![
            entry("main", None, &["a", "a"]),
            entry("a", Some("main"), &[]),
        ])),
        Err(StError::StoreCorrupt)
    );
}

#[test]
fn document_with_a_cycle_is_corrupt() {
    assert_eq!(
        StackTree::from_document(document(vec![
            entry("main", None, &[]),
            entry("a", Some("b"), &["b"]),
            entry("b", Some("a"), &["a"]),
        ])),
        Err(StError::StoreCorrupt)
    );
    assert_eq!(
        StackTree::from_document(document(vec![
            entry("main", None, &[]),
            entry("a", Some("a"), &["a"]),
        ])),
        Err(StError::StoreCorrupt)
    );
}

#[test]
fn validity_of_a_hand_made_tree() {
    let mut tree = sample();
    assert!(tree.is_valid());
    tree.branches.push(TrackedBranch::new(local("z", "x"), Some("main".to_string())));
    // `main` does not list `z`
    assert!(!tree.is_valid());
    tree.branches[0].children.push("z".to_string());
    assert_eq!(tree.branches[0].local.branch_name, "main");
    assert!(tree.is_valid());
    tree.get_mut("z").unwrap().parent = Some("z".to_string());
    assert!(!tree.is_valid());
}
