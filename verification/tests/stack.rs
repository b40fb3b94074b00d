use st::{LocalMetadata, StError, StackTree};

fn chain() -> StackTree {
    let mut tree = StackTree::new("main".to_string());
    tree.insert("main", LocalMetadata::new("a".to_string(), None)).unwrap();
    tree.insert("a", LocalMetadata::new("b".to_string(), None)).unwrap();
    tree.insert("b", LocalMetadata::new("c".to_string(), None)).unwrap();
    tree
}

fn strings(names: &[&str]) -> Vec<String> {
    names.iter().map(|s| s.to_string()).collect()
}

#[test]
fn discover_stack_of_a_chain() {
    let tree = chain();
    assert_eq!(tree.discover_stack("b"), Ok(strings(&["main", "a", "b", "c"])));
    assert_eq!(tree.discover_stack("main"), Ok(strings(&["main", "a", "b", "c"])));
    assert_eq!(tree.discover_stack("c"), Ok(strings(&["main", "a", "b", "c"])));
}

#[test]
fn discover_stack_stops_at_a_fork() {
    let mut tree = chain();
    tree.insert("b", LocalMetadata::new("d".to_string(), None)).unwrap();
    assert_eq!(tree.discover_stack("b"), Ok(strings(&["main", "a", "b"])));
    assert_eq!(tree.discover_stack("a"), Ok(strings(&["main", "a", "b"])));
    assert_eq!(tree.discover_stack("d"), Ok(strings(&["main", "a", "b", "d"])));
    assert_eq!(tree.discover_stack("c"), Ok(strings(&["main", "a", "b", "c"])));
}

#[test]
fn discover_stack_of_the_trunk_alone() {
    let tree = StackTree::new("main".to_string());
    assert_eq!(tree.discover_stack("main"), Ok(strings(&["main"])));
}

#[test]
fn discover_stack_with_fork_at_the_trunk() {
    let mut tree = StackTree::new("main".to_string());
    tree.insert("main", LocalMetadata::new("x".to_string(), None)).unwrap();
    tree.insert("main", LocalMetadata::new("y".to_string(), None)).unwrap();
    assert_eq!(tree.discover_stack("main"), Ok(strings(&["main"])));
    assert_eq!(tree.discover_stack("y"), Ok(strings(&["main", "y"])));
}

#[test]
fn discover_stack_of_untracked_branch_fails() {
    let tree = chain();
    assert_eq!(
        tree.discover_stack("zzz"),
        Err(StError::BranchNotTracked("zzz".to_string()))
    );
}

#[test]
fn discover_stack_begins_with_the_trunk() {
    let mut tree = chain();
    tree.insert("a", LocalMetadata::new("e".to_string(), None)).unwrap();
    for name in ["main", "a", "b", "c", "e"] {
        let stack = tree.discover_stack(name).unwrap();
        assert_eq!(stack[0], "main");
        assert!(stack.contains(&name.to_string()));
    }
}
