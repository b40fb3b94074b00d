//! Whether two trees are the same tree, whatever the order in which they hold
//! their nodes and in which the nodes list their children.

use crate::model::Name;
use crate::text::str_eq;
use crate::tree::{holds_name, names, opt_view, StackTree, TrackedBranch};
use vstd::prelude::*;

verus! {

/// Whether two optional strings hold the same, or both nothing.
fn same_opt(a: &Option<String>, b: &Option<String>) -> (r: bool)
    ensures
        r == (opt_view(*a) == opt_view(*b)),
{
    match (a, b) {
        (Some(x), Some(y)) => str_eq(x.as_str(), y.as_str()),
        (None, None) => true,
        _ => false,
    }
}

impl TrackedBranch {
    /// Whether this node and `other` are the same node: they have the same name,
    /// parent, cached commit and pull request, and the same children, in whatever
    /// order.
    pub fn same_as(&self, other: &TrackedBranch) -> (r: bool)
        requires
            self.children_distinct(),
            other.children_distinct(),
        ensures
            r == (self@ == other@),
    {
        let ghost mine = names(self.children@);
        let ghost theirs = names(other.children@);
        proof {
            mine.unique_seq_to_set();
            theirs.unique_seq_to_set();
            vstd::seq_lib::seq_to_set_is_finite(mine);
            vstd::seq_lib::seq_to_set_is_finite(theirs);
        }
        if !str_eq(self.local.branch_name.as_str(), other.local.branch_name.as_str()) || !same_opt(
            &self.parent,
            &other.parent,
        ) || !same_opt(&self.local.parent_oid_cache, &other.local.parent_oid_cache) {
            return false;
        }
        let same_remote = match (self.remote, other.remote) {
            (Some(a), Some(b)) => a.pr_number == b.pr_number && match (a.comment_id, b.comment_id) {
                (Some(x), Some(y)) => x == y,
                (None, None) => true,
                _ => false,
            },
            (None, None) => true,
            _ => false,
        };
        if !same_remote || self.children.len() != other.children.len() {
            return false;
        }
        let mut i: usize = 0;
        while i < self.children.len()
            invariant
                i <= self.children.len(),
                mine == names(self.children@),
                theirs == names(other.children@),
                forall|j: int| 0 <= j < i ==> theirs.to_set().contains(#[trigger] mine[j]),
            decreases self.children.len() - i,
        {
            if !holds_name(&other.children, self.children[i].as_str()) {
                assert(mine.to_set().contains(mine[i as int]));
                return false;
            }
            i += 1;
        }
        proof {
            assert(mine.to_set().subset_of(theirs.to_set())) by {
                assert forall|n: Name| mine.to_set().contains(n) implies theirs.to_set().contains(
                    n,
                ) by {
                    let j = choose|j: int| 0 <= j < mine.len() && mine[j] == n;
                    assert(theirs.to_set().contains(mine[j]));
                }
            }
            vstd::set_lib::lemma_subset_equality(mine.to_set(), theirs.to_set());
        }
        true
    }
}

impl StackTree {
    /// Whether this tree and `other` are the same tree: they have the same trunk
    /// and track the same branches, each with the same parent, children, cached
    /// commit and pull request. The order of the nodes and of their children
    /// does not count.
    pub fn same_as(&self, other: &StackTree) -> (r: bool)
        requires
            self.wf(),
            other.wf(),
        ensures
            r == (self@ == other@),
    {
        proof {
            self.lemma_size();
            other.lemma_size();
        }
        if !str_eq(self.trunk_name.as_str(), other.trunk_name.as_str()) || self.branches.len()
            != other.branches.len() {
            return false;
        }
        let mut i: usize = 0;
        while i < self.branches.len()
            invariant
                self.wf(),
                other.wf(),
                i <= self.branches.len(),
                forall|j: int|
                    0 <= j < i ==> other@.contains(#[trigger] self.name_at(j)) && other@.branches[self.name_at(
                        j,
                    )] == self@.branches[self.name_at(j)],
            decreases self.branches.len() - i,
        {
            proof {
                self.lemma_at(i as int);
            }
            match other.find_index(self.branches[i].local.branch_name.as_str()) {
                None => {
                    return false;
                },
                Some(j) => {
                    proof {
                        other.lemma_at(j as int);
                    }
                    if !self.branches[i].same_as(&other.branches[j]) {
                        return false;
                    }
                },
            }
            i += 1;
        }
        proof {
            assert(self@.branches.dom().subset_of(other@.branches.dom())) by {
                assert forall|n: Name| self@.branches.dom().contains(n) implies other@.branches.dom().contains(
                    n,
                ) by {
                    let j = self.index_of(n);
                    assert(other@.contains(self.name_at(j)));
                }
            }
            vstd::set_lib::lemma_subset_equality(self@.branches.dom(), other@.branches.dom());
            assert forall|n: Name| self@.branches.contains_key(n) implies self@.branches[n]
                == other@.branches[n] by {
                let j = self.index_of(n);
                assert(other@.contains(self.name_at(j)));
            }
            assert(self@.branches =~= other@.branches);
        }
        true
    }
}

} // verus!
