//! Pruning: untracking every branch that the repository no longer has.

use crate::model::{lemma_climbs_unique, lemma_depth, BranchView, Name, TreeView};
use crate::text::str_eq;
use crate::tree::{holds_name, names, StackTree};
use vstd::prelude::*;

verus! {

/// Whether `name` stays tracked when the branches that are not among
/// `existing` are untracked: the trunk always stays.
pub open spec fn kept(t: TreeView, existing: Set<Name>, name: Name) -> bool {
    name == t.trunk_name || existing.contains(name)
}

/// The nearest branch above `name` that stays tracked, where `name` is `k`
/// steps below the trunk; `None` for the trunk.
pub open spec fn kept_parent(t: TreeView, existing: Set<Name>, name: Name, k: nat) -> Option<Name>
    decreases k,
{
    if name == t.trunk_name || k == 0 {
        None
    } else {
        let parent = t.parent_of(name).unwrap();
        if kept(t, existing, parent) {
            Some(parent)
        } else {
            kept_parent(t, existing, parent, (k - 1) as nat)
        }
    }
}

/// The node of a branch that stays: it hangs under the nearest branch above it
/// that stays, and its children are the branches that stay and hang under it.
pub open spec fn pruned_node(t: TreeView, existing: Set<Name>, name: Name) -> BranchView {
    BranchView {
        name,
        parent: kept_parent(t, existing, name, t.depth(name)),
        children: Set::new(
            |c: Name|
                t.contains(c) && kept(t, existing, c) && kept_parent(t, existing, c, t.depth(c))
                    == Some(name),
        ),
        parent_oid_cache: t.branches[name].parent_oid_cache,
        remote: t.branches[name].remote,
    }
}

/// The tree after every tracked branch but the trunk that is not among
/// `existing` was untracked.
pub open spec fn pruned(t: TreeView, existing: Set<Name>) -> TreeView {
    TreeView {
        trunk_name: t.trunk_name,
        branches: Map::new(
            |n: Name| t.contains(n) && kept(t, existing, n),
            |n: Name| pruned_node(t, existing, n),
        ),
    }
}

/// The nearest branch above that stays is tracked, stays, and is nearer to the
/// trunk; every branch but the trunk has one.
pub proof fn lemma_kept_parent(t: TreeView, existing: Set<Name>, name: Name, k: nat)
    requires
        t.wf(),
        t.contains(name),
        t.climbs(name, k),
    ensures
        match kept_parent(t, existing, name, k) {
            None => name == t.trunk_name,
            Some(a) => name != t.trunk_name && t.contains(a) && kept(t, existing, a) && t.depth(a) < k,
        },
    decreases k,
{
    if name != t.trunk_name {
        let p = t.parent_of(name).unwrap();
        assert(t.contains(p));
        lemma_depth(t, p);
        lemma_climbs_unique(t, p, t.depth(p), (k - 1) as nat);
        if !kept(t, existing, p) {
            lemma_kept_parent(t, existing, p, (k - 1) as nat);
        }
    }
}

/// Which branches are among `existing` matters only as far as it decides which
/// tracked branches stay.
pub proof fn lemma_kept_parent_congruent(
    t: TreeView,
    a: Set<Name>,
    b: Set<Name>,
    name: Name,
    k: nat,
)
    requires
        t.wf(),
        t.contains(name),
        t.climbs(name, k),
        forall|n: Name| t.contains(n) ==> kept(t, a, n) == kept(t, b, n),
    ensures
        kept_parent(t, a, name, k) == kept_parent(t, b, name, k),
    decreases k,
{
    if name != t.trunk_name {
        let p = t.parent_of(name).unwrap();
        assert(t.contains(p));
        if !kept(t, a, p) {
            lemma_kept_parent_congruent(t, a, b, p, (k - 1) as nat);
        }
    }
}

/// Two sets that let the same tracked branches stay give the same tree.
pub proof fn lemma_pruned_congruent(t: TreeView, a: Set<Name>, b: Set<Name>)
    requires
        t.wf(),
        forall|n: Name| t.contains(n) ==> kept(t, a, n) == kept(t, b, n),
    ensures
        pruned(t, a) == pruned(t, b),
{
    let p = pruned(t, a);
    let q = pruned(t, b);
    assert forall|n: Name| t.contains(n) implies kept_parent(t, a, n, t.depth(n)) == kept_parent(
        t,
        b,
        n,
        t.depth(n),
    ) by {
        lemma_depth(t, n);
        lemma_kept_parent_congruent(t, a, b, n, t.depth(n));
    }
    assert forall|n: Name| p.branches.contains_key(n) implies p.branches[n] == q.branches[n] by {
        assert(p.branches[n].children =~= q.branches[n].children);
    }
    assert(p.branches =~= q.branches);
}

/// Where every tracked branch stays, the tree stays what it is.
pub proof fn lemma_pruned_all(t: TreeView, existing: Set<Name>)
    requires
        t.wf(),
        forall|n: Name| t.contains(n) ==> kept(t, existing, n),
    ensures
        pruned(t, existing) == t,
{
    let p = pruned(t, existing);
    assert forall|n: Name| t.contains(n) implies kept_parent(t, existing, n, t.depth(n)) == t.parent_of(
        n,
    ) by {
        lemma_depth(t, n);
        if n != t.trunk_name {
            assert(t.contains(t.parent_of(n).unwrap()));
        }
    }
    assert forall|n: Name| p.branches.contains_key(n) implies p.branches[n] == t.branches[n] by {
        assert(t.contains(n));
        assert(p.branches[n].children =~= t.branches[n].children) by {
            assert forall|c: Name| p.branches[n].children.contains(c) <==> t.branches[n].children.contains(
                c,
            ) by {
                assert(t.branches[n].children.contains(c) <==> t.contains(c) && t.parent_of(c) == Some(n));
            }
        }
    }
    assert(p.branches =~= t.branches);
}

/// When one branch more goes, the branches that hung under it hang under the
/// nearest branch above it that stays; every other branch hangs where it hung.
pub proof fn lemma_kept_parent_remove(
    t: TreeView,
    existing: Set<Name>,
    gone: Name,
    name: Name,
    k: nat,
)
    requires
        t.wf(),
        t.contains(gone),
        gone != t.trunk_name,
        t.contains(name),
        t.climbs(name, k),
    ensures
        kept_parent(t, existing.remove(gone), name, k) == (if kept_parent(t, existing, name, k) == Some(
            gone,
        ) {
            kept_parent(t, existing, gone, t.depth(gone))
        } else {
            kept_parent(t, existing, name, k)
        }),
    decreases k,
{
    if name != t.trunk_name {
        let p = t.parent_of(name).unwrap();
        assert(t.contains(p));
        lemma_depth(t, p);
        lemma_climbs_unique(t, p, t.depth(p), (k - 1) as nat);
        lemma_kept_parent(t, existing, p, (k - 1) as nat);
        if p == gone {
            lemma_kept_parent_remove(t, existing, gone, gone, (k - 1) as nat);
        } else if !kept(t, existing, p) {
            lemma_kept_parent_remove(t, existing, gone, p, (k - 1) as nat);
        }
    }
}

/// To untrack one more branch is to splice it out of the tree of those that
/// stayed so far.
pub proof fn lemma_pruned_delete(t: TreeView, existing: Set<Name>, gone: Name)
    requires
        t.wf(),
        t.contains(gone),
        gone != t.trunk_name,
        existing.contains(gone),
    ensures
        pruned(t, existing).delete(gone) == pruned(t, existing.remove(gone)),
{
    let less = existing.remove(gone);
    let p = pruned(t, existing);
    let d = p.delete(gone);
    let q = pruned(t, less);
    lemma_depth(t, gone);
    lemma_kept_parent(t, existing, gone, t.depth(gone));
    let above = kept_parent(t, existing, gone, t.depth(gone));
    assert forall|c: Name| t.contains(c) implies kept_parent(t, less, c, t.depth(c)) == (if kept_parent(
        t,
        existing,
        c,
        t.depth(c),
    ) == Some(gone) {
        above
    } else {
        kept_parent(t, existing, c, t.depth(c))
    }) && (kept_parent(t, existing, c, t.depth(c)) matches Some(a) ==> t.depth(a) < t.depth(c)) by {
        lemma_depth(t, c);
        lemma_kept_parent_remove(t, existing, gone, c, t.depth(c));
        lemma_kept_parent(t, existing, c, t.depth(c));
    }
    assert forall|n: Name| q.branches.contains_key(n) implies d.branches.contains_key(n)
        && d.branches[n] == q.branches[n] by {
        assert(t.contains(n) && n != gone && kept(t, existing, n));
        assert(p.contains(n));
        let want = q.branches[n];
        let have = p.spliced(gone, n);
        assert(have.parent == want.parent);
        assert(have.children =~= want.children) by {
            assert forall|c: Name| have.children.contains(c) <==> want.children.contains(c) by {
                if t.contains(c) {
                    assert(kept(t, less, c) <==> kept(t, existing, c) && c != gone);
                }
            }
        }
    }
    assert forall|n: Name| d.branches.contains_key(n) implies q.branches.contains_key(n) by {
        assert(p.contains(n));
    }
    assert(d.branches =~= q.branches);
}

impl StackTree {
    /// Untracks every branch but the trunk whose name is not among
    /// `existing_branch_names`. A branch that stays hangs under the nearest
    /// branch above it that stays, and keeps its cached commit and its pull
    /// request.
    pub fn prune(&mut self, existing_branch_names: &Vec<String>)
        requires
            old(self).wf(),
        ensures
            final(self).wf(),
            final(self)@ == pruned(old(self)@, names(existing_branch_names@).to_set()),
    {
        let ghost t = self@;
        let ghost existing = names(existing_branch_names@).to_set();
        proof {
            let all = existing.union(self.arena_names().skip(0).to_set());
            assert forall|n: Name| t.contains(n) implies kept(t, all, n) by {
                let j = self.index_of(n);
                assert(self.arena_names().skip(0)[j] == n);
            }
            lemma_pruned_all(t, all);
        }
        let mut i: usize = 0;
        while i < self.branches.len()
            invariant
                self.wf(),
                t.wf(),
                i <= self.branches.len(),
                existing == names(existing_branch_names@).to_set(),
                self@ == pruned(t, existing.union(self.arena_names().skip(i as int).to_set())),
            decreases self.branches.len() - i,
        {
            let ghost before = *self;
            let ghost here = self.name_at(i as int);
            let ghost rest = self.arena_names().skip(i as int);
            let ghost staying = existing.union(rest.to_set());
            proof {
                self.lemma_at(i as int);
                assert(rest[0] == here);
                assert(t.contains(here));
            }
            let stays = str_eq(self.branches[i].local.branch_name.as_str(), self.trunk_name.as_str())
                || holds_name(existing_branch_names, self.branches[i].local.branch_name.as_str());
            if stays {
                proof {
                    let after = self.arena_names().skip(i + 1);
                    let next = existing.union(after.to_set());
                    assert forall|n: Name| t.contains(n) implies kept(t, staying, n) == kept(t, next, n) by {
                        if rest.contains(n) && n != here {
                            let j = choose|j: int| 0 <= j < rest.len() && rest[j] == n;
                            assert(after[j - 1] == n);
                        }
                        if after.contains(n) {
                            let j = choose|j: int| 0 <= j < after.len() && after[j] == n;
                            assert(rest[j + 1] == n);
                        }
                    }
                    lemma_pruned_congruent(t, staying, next);
                }
                i += 1;
            } else {
                let name = self.branches[i].local.branch_name.clone();
                let gone = self.delete(name.as_str());
                proof {
                    assert(gone is Ok);
                    assert(before.index_of(here) == i);
                    let left = self.arena_names().skip(i as int);
                    let next = existing.union(left.to_set());
                    assert(left =~= rest.skip(1));
                    lemma_pruned_delete(t, staying, here);
                    assert forall|n: Name| t.contains(n) implies kept(t, staying.remove(here), n) == kept(
                        t,
                        next,
                        n,
                    ) by {
                        if rest.contains(n) && n != here {
                            let j = choose|j: int| 0 <= j < rest.len() && rest[j] == n;
                            assert(left[j - 1] == n);
                        }
                        if left.contains(n) {
                            let j = choose|j: int| 0 <= j < left.len() && left[j] == n;
                            assert(rest[j + 1] == n);
                            assert(before.name_at(i + j + 1) == n);
                        }
                    }
                    lemma_pruned_congruent(t, staying.remove(here), next);
                }
            }
        }
        proof {
            let none = existing.union(self.arena_names().skip(i as int).to_set());
            assert(self.arena_names().skip(i as int) =~= Seq::<Name>::empty());
            assert(none =~= existing);
        }
    }
}

} // verus!
