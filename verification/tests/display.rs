use st::display::tint_at;
use st::{DisplayBranch, LocalMetadata, RepoTips, StackTree, Tint};

fn local(name: &str, oid: &str) -> LocalMetadata {
    LocalMetadata::new(name.to_string(), Some(oid.to_string()))
}

fn tips(entries: &[(&str, &str)]) -> RepoTips {
    let mut t = RepoTips::new();
    for (branch, oid) in entries {
        t.set(branch.to_string(), oid.to_string());
    }
    t
}

fn row(line: &str, name: &str) -> DisplayBranch {
    DisplayBranch { display_value: line.to_string(), branch_name: name.to_string() }
}

#[test]
fn colours_come_round_with_the_depth() {
    assert_eq!(tint_at(0), Tint::Blue);
    assert_eq!(tint_at(1), Tint::Cyan);
    assert_eq!(tint_at(2), Tint::Green);
    assert_eq!(tint_at(3), Tint::Red);
    assert_eq!(tint_at(4), Tint::Yellow);
    assert_eq!(tint_at(5), Tint::Purple);
    assert_eq!(tint_at(6), Tint::Blue);
    assert_eq!(tint_at(usize::MAX), tint_at(usize::MAX % 6));
}

#[test]
fn lone_trunk_is_one_line() {
    let tree = StackTree::new("main".to_string());
    let repo = RepoTips::new();
    assert_eq!(
        tree.display_branches(&repo, "main", "o", "r"),
        vec![row("\u{1b}[34m● main\u{1b}[0m", "main")]
    );
    assert_eq!(tree.write_tree(&repo, "other", "o", "r"), "\u{1b}[34m○ main\u{1b}[0m\n");
}

#[test]
fn tree_is_drawn_with_connections_and_colours() {
    // main -> a -> {b -> d, c}, main -> e
    let mut tree = StackTree::new("main".to_string());
    tree.insert("main", local("a", "m0")).unwrap();
    tree.insert("a", local("b", "a0")).unwrap();
    tree.insert("b", local("d", "b0")).unwrap();
    tree.insert("a", local("c", "a-old")).unwrap();
    tree.insert("main", local("e", "m0")).unwrap();
    tree.record_pull("b", 42).unwrap();
    let repo = tips(&[("main", "m0"), ("a", "a0"), ("b", "b0")]);

    let expected = vec![
        row("\u{1b}[34m○ main\u{1b}[0m", "main"),
        row("\u{1b}[36m├─○ a\u{1b}[0m", "a"),
        row(
            "\u{1b}[36m│\u{1b}[0m \u{1b}[32m├─● b\u{1b}[0m (\u{1b}[3;36mhttps://github.com/clabby/st/pull/42\u{1b}[0m)",
            "b",
        ),
        row(
            "\u{1b}[36m│\u{1b}[0m \u{1b}[32m│\u{1b}[0m \u{1b}[31m└─○ d\u{1b}[0m",
            "d",
        ),
        row("\u{1b}[36m│\u{1b}[0m \u{1b}[32m└─○ c\u{1b}[0m (needs restack)", "c"),
        row("\u{1b}[36m└─○ e\u{1b}[0m", "e"),
    ];
    let rows = tree.display_branches(&repo, "b", "clabby", "st");
    assert_eq!(rows, expected);

    // the lines come in the order of the listing of the branches
    let listed: Vec<String> = rows.iter().map(|r| r.branch_name.clone()).collect();
    assert_eq!(listed, tree.branches());

    let text: String = expected.iter().map(|r| format!("{}\n", r.display_value)).collect();
    assert_eq!(tree.write_tree(&repo, "b", "clabby", "st"), text);
}

#[test]
fn last_child_leaves_no_bar_below() {
    // main -> a -> b -> c, each the last child of its parent
    let mut tree = StackTree::new("main".to_string());
    tree.insert("main", local("a", "m0")).unwrap();
    tree.insert("a", local("b", "a0")).unwrap();
    tree.insert("b", local("c", "b0")).unwrap();
    let repo = tips(&[("main", "m0"), ("a", "a0"), ("b", "b0")]);
    assert_eq!(
        tree.write_tree(&repo, "", "", ""),
        "\u{1b}[34m○ main\u{1b}[0m\n\
         \u{1b}[36m└─○ a\u{1b}[0m\n  \
         \u{1b}[32m└─○ b\u{1b}[0m\n    \
         \u{1b}[31m└─○ c\u{1b}[0m\n"
    );
}
