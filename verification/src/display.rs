//! The tree as lines of text for a terminal: one line for each tracked branch,
//! indented and connected by box-drawing characters, coloured by depth.

use crate::model::{Name, TreeView};
use crate::paint::{paint, paint_italic, painted, painted_italic, Tint};
use crate::restack::{needs_restack, RepoTips};
use crate::text::{decimal, str_eq, u64_to_string};
use crate::tree::{names, StackTree};
use vstd::prelude::*;
use vstd::string::*;

verus! {

/// The colour of the branches that are `depth` steps below the trunk.
pub open spec fn tint_of(depth: nat) -> Tint {
    if depth % 6 == 0 {
        Tint::Blue
    } else if depth % 6 == 1 {
        Tint::Cyan
    } else if depth % 6 == 2 {
        Tint::Green
    } else if depth % 6 == 3 {
        Tint::Red
    } else if depth % 6 == 4 {
        Tint::Yellow
    } else {
        Tint::Purple
    }
}

/// The colour of the branches that are `depth` steps below the trunk.
pub fn tint_at(depth: usize) -> (r: Tint)
    ensures
        r == tint_of(depth as nat),
{
    let turn: usize = depth % 6;
    if turn == 0 {
        Tint::Blue
    } else if turn == 1 {
        Tint::Cyan
    } else if turn == 2 {
        Tint::Green
    } else if turn == 3 {
        Tint::Red
    } else if turn == 4 {
        Tint::Yellow
    } else {
        Tint::Purple
    }
}

/// A line of the rendered tree and the branch that it stands for.
#[derive(Debug, Clone, PartialEq, Eq)]
pub struct DisplayBranch {
    /// The line, as it is shown.
    pub display_value: String,
    /// The name of the branch.
    pub branch_name: String,
}

/// A line of the rendered tree, as a value.
pub struct LineView {
    pub text: Seq<char>,
    pub name: Name,
}

impl View for DisplayBranch {
    type V = LineView;

    open spec fn view(&self) -> LineView {
        LineView { text: self.display_value@, name: self.branch_name@ }
    }
}

/// The lines that a list holds, in its order.
pub open spec fn line_views(v: Seq<DisplayBranch>) -> Seq<LineView> {
    Seq::new(v.len(), |i: int| v[i]@)
}

/// What the rendering shows besides the tree.
pub struct Scene {
    /// The tips of the local branches.
    pub tips: Map<Name, Seq<char>>,
    /// The branch that is checked out.
    pub checked_out: Name,
    /// The owner of the repository on the remote.
    pub owner: Seq<char>,
    /// The name of the repository on the remote.
    pub repository: Seq<char>,
}

/// The address of the pull request `number`.
pub open spec fn pull_url(owner: Seq<char>, repository: Seq<char>, number: u64) -> Seq<char> {
    "https://github.com/"@ + owner + "/"@ + repository + "/pull/"@ + decimal(number as nat)
}

/// What connects the line of a child to the line of its parent.
pub open spec fn connection_of(last: bool) -> Seq<char> {
    (if last {
        "└"@
    } else {
        "├"@
    }) + "─"@
}

/// What stands before the lines of the children of a branch that is `depth`
/// steps below the trunk, has `prefix` before its own line, and is the last
/// child of its parent or not.
pub open spec fn prefix_below(depth: nat, prefix: Seq<char>, last: bool) -> Seq<char> {
    if depth > 0 {
        if last {
            prefix + "  "@
        } else {
            prefix + painted(tint_of(depth), "│"@) + " "@
        }
    } else {
        prefix
    }
}

/// The line of `name`: the prefix; in the colour of its depth the connection,
/// a filled circle if the branch is checked out and an empty one if not, and
/// the name; a note if the branch needs a rebase; and the address of its pull
/// request, if it has one.
pub open spec fn line_text(
    t: TreeView,
    scene: Scene,
    name: Name,
    depth: nat,
    prefix: Seq<char>,
    connection: Seq<char>,
) -> Seq<char> {
    prefix + painted(
        tint_of(depth),
        connection + (if name == scene.checked_out {
            "●"@
        } else {
            "○"@
        }) + " "@ + name,
    ) + (if needs_restack(t, scene.tips, name) {
        " (needs restack)"@
    } else {
        Seq::empty()
    }) + (match t.branches[name].remote {
        Some(remote) => " ("@ + painted_italic(
            Tint::Cyan,
            pull_url(scene.owner, scene.repository, remote.pr_number),
        ) + ")"@,
        None => Seq::empty(),
    })
}

/// The branches that the lines of a list stand for, in its order.
pub open spec fn row_names(rows: Seq<LineView>) -> Seq<Name> {
    Seq::new(rows.len(), |i: int| rows[i].name)
}

/// The lines of a list, each followed by a line feed.
pub open spec fn joined(rows: Seq<LineView>) -> Seq<char>
    decreases rows.len(),
{
    if rows.len() == 0 {
        Seq::empty()
    } else {
        joined(rows.drop_last()) + rows.last().text + "\n"@
    }
}

impl StackTree {
    /// The line of `name` and then the lines of the branches below it, `fuel`
    /// levels deep at most.
    pub open spec fn rows(
        &self,
        scene: Scene,
        name: Name,
        fuel: nat,
        depth: nat,
        prefix: Seq<char>,
        connection: Seq<char>,
        last: bool,
    ) -> Seq<LineView>
        decreases fuel, 0nat,
    {
        if fuel == 0 {
            Seq::empty()
        } else {
            seq![LineView { text: line_text(self@, scene, name, depth, prefix, connection), name }]
                + self.rows_below(
                scene,
                self.child_list(name),
                self.child_list(name).len(),
                (fuel - 1) as nat,
                depth + 1,
                prefix_below(depth, prefix, last),
            )
        }
    }

    /// The lines of the first `upto` of `kids`, each followed by the lines of the
    /// branches below it.
    pub open spec fn rows_below(
        &self,
        scene: Scene,
        kids: Seq<Name>,
        upto: nat,
        fuel: nat,
        depth: nat,
        prefix: Seq<char>,
    ) -> Seq<LineView>
        decreases fuel, upto,
    {
        if upto == 0 {
            Seq::empty()
        } else {
            self.rows_below(scene, kids, (upto - 1) as nat, fuel, depth, prefix) + self.rows(
                scene,
                kids[upto - 1],
                fuel,
                depth,
                prefix,
                connection_of(upto == kids.len()),
                upto == kids.len(),
            )
        }
    }

    /// The lines from a branch on stand for the branches of the walk from that
    /// branch, in its order.
    pub proof fn lemma_rows_names(
        &self,
        scene: Scene,
        name: Name,
        fuel: nat,
        depth: nat,
        prefix: Seq<char>,
        connection: Seq<char>,
        last: bool,
    )
        ensures
            row_names(self.rows(scene, name, fuel, depth, prefix, connection, last)) == self.preorder(
                name,
                fuel,
            ),
        decreases fuel, 0nat,
    {
        if fuel > 0 {
            let kids = self.child_list(name);
            let below = prefix_below(depth, prefix, last);
            self.lemma_rows_below_names(scene, kids, kids.len(), (fuel - 1) as nat, depth + 1, below);
            assert(kids.take(kids.len() as int) =~= kids);
            let under = self.rows_below(scene, kids, kids.len(), (fuel - 1) as nat, depth + 1, below);
            let row = LineView { text: line_text(self@, scene, name, depth, prefix, connection), name };
            assert(row_names(seq![row] + under) =~= seq![name] + row_names(under));
        } else {
            assert(row_names(Seq::<LineView>::empty()) =~= Seq::<Name>::empty());
        }
    }

    /// The lines from some children on stand for the branches of the walks from
    /// those children, in their order.
    pub proof fn lemma_rows_below_names(
        &self,
        scene: Scene,
        kids: Seq<Name>,
        upto: nat,
        fuel: nat,
        depth: nat,
        prefix: Seq<char>,
    )
        requires
            upto <= kids.len(),
        ensures
            row_names(self.rows_below(scene, kids, upto, fuel, depth, prefix)) == self.preorder_each(
                kids.take(upto as int),
                fuel,
            ),
        decreases fuel, upto,
    {
        if upto > 0 {
            let last = upto == kids.len();
            self.lemma_rows_below_names(scene, kids, (upto - 1) as nat, fuel, depth, prefix);
            self.lemma_rows_names(scene, kids[upto - 1], fuel, depth, prefix, connection_of(last), last);
            let first = self.rows_below(scene, kids, (upto - 1) as nat, fuel, depth, prefix);
            let more = self.rows(scene, kids[upto - 1], fuel, depth, prefix, connection_of(last), last);
            assert(row_names(first + more) =~= row_names(first) + row_names(more));
            assert(kids.take(upto as int).drop_last() =~= kids.take(upto - 1));
            assert(kids.take(upto as int).last() == kids[upto - 1]);
        } else {
            assert(row_names(Seq::<LineView>::empty()) =~= Seq::<Name>::empty());
            assert(kids.take(0) =~= Seq::<Name>::empty());
        }
    }

    /// The line of the branch at position `at`.
    fn line_at(
        &self,
        tips: &RepoTips,
        checked_out: &str,
        owner: &str,
        repository: &str,
        at: usize,
        depth: usize,
        prefix: &str,
        connection: &str,
    ) -> (r: String)
        requires
            self.wf(),
            at < self.branches.len(),
        ensures
            r@ == line_text(
                self@,
                Scene { tips: tips@, checked_out: checked_out@, owner: owner@, repository: repository@ },
                self.name_at(at as int),
                depth as nat,
                prefix@,
                connection@,
            ),
    {
        let node = &self.branches[at];
        let name = node.local.branch_name.as_str();
        proof {
            self.lemma_at(at as int);
        }
        let mut label = String::new();
        label.append(connection);
        if str_eq(name, checked_out) {
            label.append("●");
        } else {
            label.append("○");
        }
        label.append(" ");
        label.append(name);
        let ghost icon = if name@ == checked_out@ {
            "●"@
        } else {
            "○"@
        };
        assert(label@ =~= connection@ + icon + " "@ + name@);
        let mut line = String::new();
        line.append(prefix);
        line.append(paint(tint_at(depth), label.as_str()).as_str());
        let ghost head = prefix@ + painted(tint_of(depth as nat), label@);
        assert(line@ =~= head);
        let stale = match self.needs_restack(tips, name) {
            Ok(stale) => stale,
            Err(_) => false,
        };
        if stale {
            line.append(" (needs restack)");
        }
        let ghost note = if needs_restack(self@, tips@, name@) {
            " (needs restack)"@
        } else {
            Seq::empty()
        };
        assert(line@ =~= head + note);
        match node.remote {
            Some(remote) => {
                let mut url = String::new();
                url.append("https://github.com/");
                url.append(owner);
                url.append("/");
                url.append(repository);
                url.append("/pull/");
                url.append(u64_to_string(remote.pr_number).as_str());
                assert(url@ =~= pull_url(owner@, repository@, remote.pr_number));
                line.append(" (");
                line.append(paint_italic(Tint::Cyan, url.as_str()).as_str());
                line.append(")");
                assert(line@ =~= head + note + (" ("@ + painted_italic(Tint::Cyan, url@) + ")"@));
            },
            None => {
                assert(line@ =~= head + note + Seq::<char>::empty());
            },
        }
        line
    }

    /// Adds to `out` the line of the branch at position `at` and then the lines
    /// of the branches below it, `fuel` levels deep at most.
    fn write_tree_recursive(
        &self,
        tips: &RepoTips,
        checked_out: &str,
        owner: &str,
        repository: &str,
        at: usize,
        fuel: usize,
        depth: usize,
        prefix: &str,
        connection: &str,
        is_parent_last_child: bool,
        out: &mut Vec<DisplayBranch>,
    )
        requires
            self.wf(),
            at < self.branches.len(),
            depth + fuel <= usize::MAX,
        ensures
            line_views(final(out)@) == line_views(old(out)@) + self.rows(
                Scene { tips: tips@, checked_out: checked_out@, owner: owner@, repository: repository@ },
                self.name_at(at as int),
                fuel as nat,
                depth as nat,
                prefix@,
                connection@,
                is_parent_last_child,
            ),
        decreases fuel,
    {
        let ghost scene = Scene {
            tips: tips@,
            checked_out: checked_out@,
            owner: owner@,
            repository: repository@,
        };
        let ghost start = line_views(out@);
        let ghost here = self.name_at(at as int);
        if fuel == 0 {
            assert(start + Seq::<LineView>::empty() =~= start);
            return ;
        }
        let node = &self.branches[at];
        let line = self.line_at(tips, checked_out, owner, repository, at, depth, prefix, connection);
        let ghost row = LineView { text: line@, name: here };
        out.push(DisplayBranch { display_value: line, branch_name: node.local.branch_name.clone() });
        let mut below = String::new();
        below.append(prefix);
        if depth > 0 {
            if is_parent_last_child {
                below.append("  ");
            } else {
                below.append(paint(tint_at(depth), "│").as_str());
                below.append(" ");
            }
        }
        let ghost kids = names(node.children@);
        let count: usize = node.children.len();
        proof {
            self.lemma_at(at as int);
            assert(below@ =~= prefix_below(depth as nat, prefix@, is_parent_last_child));
            assert(line_views(out@) =~= start + seq![row]);
            assert(start + seq![row] + Seq::<LineView>::empty() =~= start + seq![row]);
        }
        let mut k: usize = 0;
        while k < count
            invariant
                self.wf(),
                at < self.branches.len(),
                node == &self.branches[at as int],
                here == self.name_at(at as int),
                self@.contains(here),
                self@.branches[here] == node@,
                kids == names(node.children@),
                count == node.children.len(),
                fuel > 0,
                depth + fuel <= usize::MAX,
                k <= count,
                scene == (Scene {
                    tips: tips@,
                    checked_out: checked_out@,
                    owner: owner@,
                    repository: repository@,
                }),
                line_views(out@) == start + seq![row] + self.rows_below(
                    scene,
                    kids,
                    k as nat,
                    (fuel - 1) as nat,
                    (depth + 1) as nat,
                    below@,
                ),
            decreases count - k,
        {
            proof {
                assert(kids.to_set().contains(kids[k as int]));
                assert(self@.branches[here].children.contains(kids[k as int]));
                assert(self@.contains(kids[k as int]));
            }
            let down: usize = self.find_index(node.children[k].as_str()).unwrap();
            let is_last_child = k + 1 == count;
            let mut link = String::new();
            if is_last_child {
                link.append("└");
            } else {
                link.append("├");
            }
            link.append("─");
            assert(link@ =~= connection_of(is_last_child));
            let ghost done = self.rows_below(
                scene,
                kids,
                k as nat,
                (fuel - 1) as nat,
                (depth + 1) as nat,
                below@,
            );
            self.write_tree_recursive(
                tips,
                checked_out,
                owner,
                repository,
                down,
                fuel - 1,
                depth + 1,
                below.as_str(),
                link.as_str(),
                is_last_child,
                out,
            );
            proof {
                let more = self.rows(
                    scene,
                    kids[k as int],
                    (fuel - 1) as nat,
                    (depth + 1) as nat,
                    below@,
                    connection_of(is_last_child),
                    is_last_child,
                );
                assert((start + seq![row] + done) + more =~= start + seq![row] + (done + more));
            }
            k += 1;
        }
        proof {
            let under = self.rows_below(
                scene,
                kids,
                kids.len(),
                (fuel - 1) as nat,
                (depth + 1) as nat,
                below@,
            );
            assert(start + seq![row] + under =~= start + (seq![row] + under));
        }
    }

    /// The lines of the rendered tree, each with the branch that it stands for:
    /// one line for each tracked branch, in the order in which `branches` lists
    /// them.
    pub fn display_branches(
        &self,
        tips: &RepoTips,
        checked_out: &str,
        owner: &str,
        repository: &str,
    ) -> (r: Vec<DisplayBranch>)
        requires
            self.wf(),
        ensures
            line_views(r@) == self.rows(
                Scene { tips: tips@, checked_out: checked_out@, owner: owner@, repository: repository@ },
                self@.trunk_name,
                self.branches.len() as nat,
                0,
                Seq::empty(),
                Seq::empty(),
                true,
            ),
            row_names(line_views(r@)) == self.preorder(self@.trunk_name, self.branches.len() as nat),
            r.len() == self.branches.len(),
    {
        let ghost scene = Scene {
            tips: tips@,
            checked_out: checked_out@,
            owner: owner@,
            repository: repository@,
        };
        proof {
            self.lemma_rows_names(
                scene,
                self@.trunk_name,
                self.branches.len() as nat,
                0,
                Seq::empty(),
                Seq::empty(),
                true,
            );
            self.lemma_listing();
        }
        let mut out: Vec<DisplayBranch> = Vec::new();
        let root: usize = self.find_index(self.trunk_name.as_str()).unwrap();
        let empty = String::new();
        self.write_tree_recursive(
            tips,
            checked_out,
            owner,
            repository,
            root,
            self.branches.len(),
            0,
            empty.as_str(),
            empty.as_str(),
            true,
            &mut out,
        );
        proof {
            let rows = self.rows(
                scene,
                self@.trunk_name,
                self.branches.len() as nat,
                0,
                Seq::empty(),
                Seq::empty(),
                true,
            );
            assert(line_views(Seq::<DisplayBranch>::empty()) =~= Seq::<LineView>::empty());
            assert(Seq::<LineView>::empty() + rows =~= rows);
        }
        out
    }

    /// The rendered tree: the line of each branch, followed by a line feed.
    pub fn write_tree(
        &self,
        tips: &RepoTips,
        checked_out: &str,
        owner: &str,
        repository: &str,
    ) -> (r: String)
        requires
            self.wf(),
        ensures
            r@ == joined(
                self.rows(
                    Scene {
                        tips: tips@,
                        checked_out: checked_out@,
                        owner: owner@,
                        repository: repository@,
                    },
                    self@.trunk_name,
                    self.branches.len() as nat,
                    0,
                    Seq::empty(),
                    Seq::empty(),
                    true,
                ),
            ),
    {
        let lines = self.display_branches(tips, checked_out, owner, repository);
        let mut out = String::new();
        let mut i: usize = 0;
        while i < lines.len()
            invariant
                i <= lines.len(),
                out@ == joined(line_views(lines@).take(i as int)),
            decreases lines.len() - i,
        {
            proof {
                let upto = line_views(lines@).take(i + 1);
                assert(upto.drop_last() =~= line_views(lines@).take(i as int));
                assert(upto.last() == lines[i as int]@);
            }
            out.append(lines[i].display_value.as_str());
            out.append("\n");
            i += 1;
        }
        assert(line_views(lines@).take(lines.len() as int) =~= line_views(lines@));
        out
    }
}

} // verus!
