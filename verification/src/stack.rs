//! The stack that a branch belongs to: the branches from the trunk down to it,
//! and on below it for as long as each branch has one child only.

use crate::errors::StError;
use crate::model::{lemma_climbs_unique, lemma_depth, lemma_depth_bound, Name, TreeView};
use crate::tree::{names, StackTree};
use vstd::prelude::*;

verus! {

/// The branches from the trunk down to `name`, which is `k` steps below it.
pub open spec fn downstack(t: TreeView, name: Name, k: nat) -> Seq<Name>
    decreases k,
{
    if name == t.trunk_name || k == 0 {
        seq![name]
    } else {
        downstack(t, t.parent_of(name).unwrap(), (k - 1) as nat).push(name)
    }
}

/// The branches below `name` that are the only child of the branch above them,
/// at most `fuel` of them.
pub open spec fn upstack(t: TreeView, name: Name, fuel: nat) -> Seq<Name>
    decreases fuel,
{
    if fuel == 0 || !t.contains(name) || t.branches[name].children.len() != 1 {
        Seq::empty()
    } else {
        let child = t.branches[name].children.choose();
        seq![child] + upstack(t, child, (fuel - 1) as nat)
    }
}

/// The stack of `name`: from the trunk down to `name`, then on through only
/// children until a branch has no child or more than one.
pub open spec fn stack_of(t: TreeView, name: Name) -> Seq<Name> {
    downstack(t, name, t.depth(name)) + upstack(
        t,
        name,
        (t.branches.dom().len() - t.depth(name)) as nat,
    )
}

/// The way down to a branch starts at the trunk, ends at the branch, has one
/// entry for each step and one more, and goes from parent to child.
pub proof fn lemma_downstack(t: TreeView, name: Name, k: nat)
    requires
        t.wf(),
        t.contains(name),
        t.climbs(name, k),
    ensures
        downstack(t, name, k).len() == k + 1,
        downstack(t, name, k)[0] == t.trunk_name,
        downstack(t, name, k).last() == name,
        forall|i: int|
            0 <= i <= k ==> t.contains(#[trigger] downstack(t, name, k)[i]) && t.depth(
                downstack(t, name, k)[i],
            ) == i,
        forall|i: int|
            1 <= i <= k ==> t.parent_of(#[trigger] downstack(t, name, k)[i]) == Some(
                downstack(t, name, k)[i - 1],
            ),
    decreases k,
{
    lemma_depth(t, name);
    lemma_climbs_unique(t, name, k, t.depth(name));
    if name == t.trunk_name || k == 0 {
    } else {
        let p = t.parent_of(name).unwrap();
        lemma_downstack(t, p, (k - 1) as nat);
    }
}

/// A set of one element holds the element that `choose` picks, and no other.
pub proof fn lemma_only_child(s: Set<Name>, c: Name)
    requires
        s.finite(),
        s.len() == 1,
        s.contains(c),
    ensures
        s.choose() == c,
{
    let d = s.choose();
    if d != c {
        let two = set![c, d];
        assert(two.subset_of(s));
        vstd::set_lib::lemma_len_subset(two, s);
        assert(set![c].insert(d) =~= two);
        assert(two.len() == 2);
    }
}

/// Below a branch that has no child or several, the stack does not go on;
/// below one that has a single child, it goes on with that child. The number
/// of branches that are left below a branch's depth is fuel enough.
pub proof fn lemma_upstack_step(t: TreeView, name: Name)
    requires
        t.wf(),
        t.contains(name),
    ensures
        t.depth(name) < t.branches.dom().len(),
        t.branches[name].children.len() != 1 ==> upstack(
            t,
            name,
            (t.branches.dom().len() - t.depth(name)) as nat,
        ) == Seq::<Name>::empty(),
        t.branches[name].children.len() == 1 ==> {
            let child = t.branches[name].children.choose();
            &&& t.contains(child)
            &&& t.parent_of(child) == Some(name)
            &&& t.depth(child) == t.depth(name) + 1
            &&& upstack(t, name, (t.branches.dom().len() - t.depth(name)) as nat) == seq![child]
                + upstack(t, child, (t.branches.dom().len() - t.depth(child)) as nat)
        },
{
    lemma_depth_bound(t, name);
    let kids = t.branches[name].children;
    if kids.len() == 1 {
        let child = kids.choose();
        assert(kids.contains(child)) by {
            if !kids.contains(child) {
                assert(kids.len() != 0);
            }
        }
        assert(t.contains(child) && t.parent_of(child) == Some(name));
        lemma_depth(t, child);
    }
}

/// Below a branch, the stack goes on from parent to only child, and ends
/// with a branch that has no child or several.
pub proof fn lemma_upstack(t: TreeView, name: Name, fuel: nat)
    requires
        t.wf(),
        t.contains(name),
        fuel == t.branches.dom().len() - t.depth(name),
    ensures
        forall|i: int|
            0 <= i < upstack(t, name, fuel).len() ==> t.contains(#[trigger] upstack(t, name, fuel)[i])
                && t.parent_of(upstack(t, name, fuel)[i]) == Some(
                if i == 0 {
                    name
                } else {
                    upstack(t, name, fuel)[i - 1]
                },
            ) && t.branches[if i == 0 {
                name
            } else {
                upstack(t, name, fuel)[i - 1]
            }].children.len() == 1,
        t.branches[if upstack(t, name, fuel).len() == 0 {
            name
        } else {
            upstack(t, name, fuel).last()
        }].children.len() != 1,
    decreases fuel,
{
    lemma_upstack_step(t, name);
    if t.branches[name].children.len() == 1 {
        let child = t.branches[name].children.choose();
        let rest = upstack(t, child, (fuel - 1) as nat);
        lemma_upstack(t, child, (fuel - 1) as nat);
        let all = upstack(t, name, fuel);
        assert(all == seq![child] + rest);
        assert forall|i: int| 0 <= i < all.len() implies t.contains(#[trigger] all[i]) && t.parent_of(
            all[i],
        ) == Some(if i == 0 {
            name
        } else {
            all[i - 1]
        }) && t.branches[if i == 0 {
            name
        } else {
            all[i - 1]
        }].children.len() == 1 by {
            if i > 0 {
                assert(all[i] == rest[i - 1]);
                if i > 1 {
                    assert(all[i - 1] == rest[i - 2]);
                }
            }
        }
        if rest.len() > 0 {
            assert(all.last() == rest.last());
        }
    }
}

/// The shape of the stack of a branch: it starts at the trunk, holds the branch
/// at the position of its depth, goes from parent to child throughout, takes
/// an only child at each step below the branch, and ends with a branch that
/// has no child or several.
pub proof fn lemma_stack_of(t: TreeView, name: Name)
    requires
        t.wf(),
        t.contains(name),
    ensures
        stack_of(t, name).len() > t.depth(name),
        stack_of(t, name)[0] == t.trunk_name,
        stack_of(t, name)[t.depth(name) as int] == name,
        forall|i: int|
            1 <= i < stack_of(t, name).len() ==> t.contains(#[trigger] stack_of(t, name)[i])
                && t.parent_of(stack_of(t, name)[i]) == Some(stack_of(t, name)[i - 1]),
        forall|i: int|
            t.depth(name) < i < stack_of(t, name).len() ==> (#[trigger] t.branches[stack_of(t, name)[i
                - 1]]).children.len() == 1,
        t.branches[stack_of(t, name).last()].children.len() != 1,
{
    let d = t.depth(name);
    let fuel = (t.branches.dom().len() - d) as nat;
    lemma_depth(t, name);
    lemma_depth_bound(t, name);
    lemma_downstack(t, name, d);
    lemma_upstack(t, name, fuel);
    let down = downstack(t, name, d);
    let up = upstack(t, name, fuel);
    let all = stack_of(t, name);
    assert(all == down + up);
    assert forall|i: int| 1 <= i < all.len() implies t.contains(#[trigger] all[i]) && t.parent_of(all[i])
        == Some(all[i - 1]) by {
        if i <= d {
            assert(all[i] == down[i] && all[i - 1] == down[i - 1]);
        } else {
            assert(all[i] == up[i - d - 1]);
            if i - d - 1 > 0 {
                assert(all[i - 1] == up[i - d - 2]);
            } else {
                assert(all[i - 1] == down[d as int]);
            }
        }
    }
    assert forall|i: int| d < i < all.len() implies (#[trigger] t.branches[all[i - 1]]).children.len()
        == 1 by {
        assert(all[i] == up[i - d - 1]);
        if i - d - 1 > 0 {
            assert(all[i - 1] == up[i - d - 2]);
        } else {
            assert(all[i - 1] == down[d as int]);
        }
    }
    if up.len() == 0 {
        assert(all =~= down);
    } else {
        assert(all.last() == up.last());
    }
}

impl StackTree {
    /// The stack that `current_branch` belongs to, from the trunk on: the
    /// branches down to `current_branch`, then the branches below it for as long
    /// as each is the only child of the one before. Fails if `current_branch` is
    /// not tracked.
    pub fn discover_stack(&self, current_branch: &str) -> (r: Result<Vec<String>, StError>)
        requires
            self.wf(),
        ensures
            r is Ok <==> self@.contains(current_branch@),
            r matches Err(e) ==> e matches StError::BranchNotTracked(n) && n@ == current_branch@,
            r matches Ok(stack) ==> {
                &&& names(stack@) == stack_of(self@, current_branch@)
                &&& stack.len() > self@.depth(current_branch@)
                &&& names(stack@)[0] == self@.trunk_name
                &&& names(stack@)[self@.depth(current_branch@) as int] == current_branch@
            },
    {
        let start: usize = match self.find_index(current_branch) {
            Some(i) => i,
            None => {
                return Err(StError::BranchNotTracked(current_branch.to_owned()));
            },
        };
        let ghost t = self@;
        let ghost goal = downstack(t, current_branch@, t.depth(current_branch@));
        let mut stack: Vec<String> = Vec::new();
        stack.push(self.branches[start].local.branch_name.clone());
        let mut at: usize = start;
        proof {
            self.lemma_at(start as int);
            lemma_depth(t, current_branch@);
            lemma_downstack(t, current_branch@, t.depth(current_branch@));
            assert(goal.drop_last() + names(stack@) =~= goal);
        }
        loop
            invariant
                self.wf(),
                t == self@,
                at < self.branches.len(),
                stack.len() > 0,
                goal == downstack(t, current_branch@, t.depth(current_branch@)),
                goal == downstack(t, self.name_at(at as int), t.depth(self.name_at(at as int))).drop_last()
                    + names(stack@),
            ensures
                names(stack@) == goal,
            decreases t.depth(self.name_at(at as int)),
        {
            let ghost here = self.name_at(at as int);
            proof {
                self.lemma_at(at as int);
                lemma_depth(t, here);
            }
            match &self.branches[at].parent {
                None => {
                    proof {
                        assert(here == t.trunk_name);
                        assert(downstack(t, here, t.depth(here)).drop_last() =~= Seq::<Name>::empty());
                        assert(Seq::<Name>::empty() + names(stack@) =~= names(stack@));
                    }
                    break ;
                },
                Some(parent) => {
                    let ghost p = parent@;
                    proof {
                        assert(t.parent_of(here) == Some(p));
                        assert(here != t.trunk_name);
                        assert(t.contains(p));
                        lemma_depth(t, p);
                    }
                    let up: usize = self.find_index(parent.as_str()).unwrap();
                    let ghost before = stack@;
                    stack.insert(0, parent.clone());
                    proof {
                        self.lemma_at(up as int);
                        lemma_downstack(t, p, t.depth(p));
                        let path = downstack(t, p, t.depth(p));
                        assert(downstack(t, here, t.depth(here)) == path.push(here));
                        assert(path.push(here).drop_last() =~= path);
                        assert(names(stack@) =~= seq![p] + names(before));
                        assert(path.drop_last() + names(stack@) =~= path + names(before));
                    }
                    at = up;
                },
            }
        }
        let mut at: usize = start;
        loop
            invariant
                self.wf(),
                t == self@,
                at < self.branches.len(),
                names(stack@) + upstack(
                    t,
                    self.name_at(at as int),
                    (t.branches.dom().len() - t.depth(self.name_at(at as int))) as nat,
                ) == stack_of(t, current_branch@),
            ensures
                names(stack@) == stack_of(t, current_branch@),
            decreases t.branches.dom().len() - t.depth(self.name_at(at as int)),
        {
            let ghost here = self.name_at(at as int);
            let ghost kids = names(self.branches[at as int].children@);
            proof {
                self.lemma_at(at as int);
                lemma_upstack_step(t, here);
                kids.unique_seq_to_set();
            }
            if self.branches[at].children.len() != 1 {
                proof {
                    assert(names(stack@) + Seq::<Name>::empty() =~= names(stack@));
                }
                break ;
            }
            let child = &self.branches[at].children[0];
            proof {
                assert(kids[0] == child@);
                assert(kids.to_set().contains(child@));
                vstd::seq_lib::seq_to_set_is_finite(kids);
                lemma_only_child(kids.to_set(), child@);
            }
            let down: usize = self.find_index(child.as_str()).unwrap();
            let ghost before = stack@;
            stack.push(child.clone());
            proof {
                self.lemma_at(down as int);
                assert(names(stack@) =~= names(before).push(child@));
                let rest = upstack(t, child@, (t.branches.dom().len() - t.depth(child@)) as nat);
                assert(names(stack@) + rest =~= names(before) + (seq![child@] + rest));
            }
            at = down;
        }
        proof {
            lemma_downstack(t, current_branch@, t.depth(current_branch@));
        }
        Ok(stack)
    }
}

} // verus!
