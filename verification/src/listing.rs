//! The tracked branches in the order of a walk through the tree: each branch
//! is followed by the branches below it, child by child.

use crate::model::{
    ascends, lemma_ascends_depth, lemma_ascends_more, lemma_ascends_unique, lemma_child_above,
    lemma_climbs_ascends, lemma_depth, lemma_depth_bound, under, Name, TreeView,
};
use crate::tree::{names, StackTree};
use vstd::prelude::*;

verus! {

/// Whether the parent of the entry at position `i` of `list` stands before it.
pub open spec fn parent_before(t: TreeView, list: Seq<Name>, i: int) -> bool {
    exists|j: int| 0 <= j < i && t.parent_of(list[i]) == Some(#[trigger] list[j])
}

/// Whether `list` is a walk through the branches at and below `top`: it starts
/// with `top`, holds each of those branches once and no other, and holds the
/// parent of each entry but the first before the entry.
pub open spec fn walk_of(t: TreeView, top: Name, list: Seq<Name>) -> bool {
    &&& list.len() > 0
    &&& list[0] == top
    &&& list.no_duplicates()
    &&& forall|m: Name| #[trigger] list.contains(m) <==> t.contains(m) && under(t, top, m)
    &&& forall|i: int| 0 < i < list.len() ==> #[trigger] parent_before(t, list, i)
}

/// Whether a tracked branch is one of `kids` or below one of them.
pub open spec fn under_one(t: TreeView, kids: Seq<Name>, m: Name) -> bool {
    exists|x: int| 0 <= x < kids.len() && under(t, #[trigger] kids[x], m)
}

/// Whether `list` is a walk through the branches at and below each of `kids`,
/// which are children of `top`: it holds each of those branches once and no
/// other, and holds the parent of each entry before the entry, unless that is
/// `top`.
pub open spec fn walks_of(t: TreeView, top: Name, kids: Seq<Name>, list: Seq<Name>) -> bool {
    &&& list.no_duplicates()
    &&& forall|m: Name| #[trigger] list.contains(m) <==> t.contains(m) && under_one(t, kids, m)
    &&& forall|i: int|
        0 <= i < list.len() ==> t.parent_of(list[i]) == Some(top) || #[trigger] parent_before(
            t,
            list,
            i,
        )
}

impl StackTree {
    /// The children of `name`, in the order in which its node lists them.
    pub open spec fn child_list(&self, name: Name) -> Seq<Name> {
        names(self.branches[self.index_of(name)].children@)
    }

    /// `name` and then the branches below it, `fuel` levels deep at most.
    pub open spec fn preorder(&self, name: Name, fuel: nat) -> Seq<Name>
        decreases fuel, 0nat,
    {
        if fuel == 0 {
            Seq::empty()
        } else {
            seq![name] + self.preorder_each(self.child_list(name), (fuel - 1) as nat)
        }
    }

    /// Each of `kids` in turn, followed by the branches below it.
    pub open spec fn preorder_each(&self, kids: Seq<Name>, fuel: nat) -> Seq<Name>
        decreases fuel, kids.len(),
    {
        if kids.len() == 0 {
            Seq::empty()
        } else {
            self.preorder_each(kids.drop_last(), fuel) + self.preorder(kids.last(), fuel)
        }
    }

    /// The children that a node lists are tracked, differ from each other, and
    /// have the node as their parent.
    pub proof fn lemma_child_list(&self, name: Name)
        requires
            self.wf(),
            self@.contains(name),
        ensures
            self.child_list(name).no_duplicates(),
            self.child_list(name).to_set() == self@.branches[name].children,
            forall|x: int|
                0 <= x < self.child_list(name).len() ==> self@.contains(
                    #[trigger] self.child_list(name)[x],
                ) && self@.parent_of(self.child_list(name)[x]) == Some(name),
    {
        let at = self.index_of(name);
        self.lemma_at(at);
        let kids = self.child_list(name);
        assert(self.branches[at].children_distinct());
        assert forall|x: int| 0 <= x < kids.len() implies self@.contains(#[trigger] kids[x])
            && self@.parent_of(kids[x]) == Some(name) by {
            assert(kids.to_set().contains(kids[x]));
            assert(self@.branches[name].children.contains(kids[x]));
        }
    }

    /// With fuel for every level that is left below a branch, the walk from the
    /// branch is a walk through the branches at and below it.
    pub proof fn lemma_preorder(&self, name: Name, fuel: nat)
        requires
            self.wf(),
            self@.contains(name),
            fuel + self@.depth(name) >= self.branches.len(),
        ensures
            walk_of(self@, name, self.preorder(name, fuel)),
        decreases fuel, 0nat,
    {
        let t = self@;
        let kids = self.child_list(name);
        lemma_depth_bound(t, name);
        self.lemma_size();
        self.lemma_child_list(name);
        assert forall|x: int| 0 <= x < kids.len() implies t.depth(#[trigger] kids[x]) == t.depth(name)
            + 1 by {
            lemma_depth(t, kids[x]);
        }
        self.lemma_preorder_each(name, kids, (fuel - 1) as nat);
        let below = self.preorder_each(kids, (fuel - 1) as nat);
        let list = self.preorder(name, fuel);
        assert(list == seq![name] + below);
        assert(!below.contains(name)) by {
            if below.contains(name) {
                let x = choose|x: int| 0 <= x < kids.len() && under(t, #[trigger] kids[x], name);
                let k = choose|k: nat| ascends(t, name, kids[x], k);
                lemma_ascends_depth(t, name, kids[x], k);
            }
        }
        assert(list.no_duplicates()) by {
            assert forall|a: int, b: int| 0 <= a < b < list.len() implies list[a] != list[b] by {
                if a == 0 {
                    assert(below[b - 1] == list[b]);
                    assert(below.contains(list[b]));
                } else {
                    assert(below[a - 1] == list[a] && below[b - 1] == list[b]);
                }
            }
        }
        assert forall|m: Name| #[trigger] list.contains(m) <==> t.contains(m) && under(t, name, m) by {
            if list.contains(m) {
                let a = choose|a: int| 0 <= a < list.len() && list[a] == m;
                if a == 0 {
                    assert(ascends(t, name, name, 0));
                } else {
                    assert(below[a - 1] == m);
                    assert(below.contains(m));
                    let x = choose|x: int| 0 <= x < kids.len() && under(t, #[trigger] kids[x], m);
                    let k = choose|k: nat| ascends(t, m, kids[x], k);
                    lemma_depth(t, kids[x]);
                    lemma_ascends_more(t, m, kids[x], k);
                }
            }
            if t.contains(m) && under(t, name, m) {
                let k = choose|k: nat| ascends(t, m, name, k);
                if k == 0 {
                    assert(list[0] == m);
                } else {
                    let c = lemma_child_above(t, name, m, k);
                    assert(kids.to_set().contains(c));
                    let x = choose|x: int| 0 <= x < kids.len() && kids[x] == c;
                    assert(under(t, kids[x], m));
                    assert(under_one(t, kids, m));
                    assert(below.contains(m));
                    let b = choose|b: int| 0 <= b < below.len() && below[b] == m;
                    assert(list[b + 1] == m);
                }
            }
        }
        assert forall|i: int| 0 < i < list.len() implies #[trigger] parent_before(t, list, i) by {
            assert(list[i] == below[i - 1]);
            if t.parent_of(below[i - 1]) == Some(name) {
                assert(list[0] == name);
            } else {
                assert(parent_before(t, below, i - 1));
                let j = choose|j: int| 0 <= j < i - 1 && t.parent_of(below[i - 1]) == Some(#[trigger] below[j]);
                assert(list[j + 1] == below[j]);
            }
        }
    }

    /// With fuel for every level that is left below them, the walks from some
    /// children of a branch are a walk through the branches at and below them.
    pub proof fn lemma_preorder_each(&self, top: Name, kids: Seq<Name>, fuel: nat)
        requires
            self.wf(),
            self@.contains(top),
            kids.no_duplicates(),
            forall|x: int|
                0 <= x < kids.len() ==> self@.contains(#[trigger] kids[x]) && self@.parent_of(kids[x])
                    == Some(top) && self@.depth(kids[x]) == self@.depth(top) + 1,
            fuel + self@.depth(top) + 1 >= self.branches.len(),
        ensures
            walks_of(self@, top, kids, self.preorder_each(kids, fuel)),
        decreases fuel, kids.len(),
    {
        let t = self@;
        let list = self.preorder_each(kids, fuel);
        if kids.len() == 0 {
            assert forall|m: Name| #[trigger] list.contains(m) <==> t.contains(m) && under_one(t, kids, m) by {}
        } else {
            let first = kids.drop_last();
            let last = kids.last();
            let a = self.preorder_each(first, fuel);
            let c = self.preorder(last, fuel);
            assert forall|x: int| 0 <= x < first.len() implies t.contains(#[trigger] first[x]) && t.parent_of(
                first[x],
            ) == Some(top) && t.depth(first[x]) == t.depth(top) + 1 by {
                assert(first[x] == kids[x]);
            }
            self.lemma_preorder_each(top, first, fuel);
            assert(t.contains(last) && t.depth(last) == t.depth(top) + 1) by {
                assert(kids[kids.len() - 1] == last);
            }
            self.lemma_preorder(last, fuel);
            assert(list == a + c);
            assert forall|x: int, y: int| 0 <= x < a.len() && 0 <= y < c.len() implies a[x] != c[y] by {
                if a[x] == c[y] {
                    let m = a[x];
                    assert(a.contains(m) && c.contains(m));
                    let z = choose|z: int| 0 <= z < first.len() && under(t, #[trigger] first[z], m);
                    let k1 = choose|k: nat| ascends(t, m, first[z], k);
                    let k2 = choose|k: nat| ascends(t, m, last, k);
                    lemma_ascends_depth(t, m, first[z], k1);
                    lemma_ascends_depth(t, m, last, k2);
                    assert(first[z] == kids[z]);
                    lemma_ascends_unique(t, m, first[z], last, k1);
                }
            }
            vstd::seq_lib::lemma_no_dup_in_concat(a, c);
            assert forall|m: Name| #[trigger] list.contains(m) <==> t.contains(m) && under_one(t, kids, m) by {
                vstd::seq_lib::lemma_seq_concat_contains_all_elements(a, c, m);
                if a.contains(m) {
                    let z = choose|z: int| 0 <= z < first.len() && under(t, #[trigger] first[z], m);
                    assert(kids[z] == first[z]);
                }
                if c.contains(m) {
                    assert(under(t, kids[kids.len() - 1], m));
                }
                if t.contains(m) && under_one(t, kids, m) {
                    let z = choose|z: int| 0 <= z < kids.len() && under(t, #[trigger] kids[z], m);
                    if z < first.len() {
                        assert(first[z] == kids[z]);
                        assert(under_one(t, first, m));
                    }
                }
            }
            assert forall|i: int| 0 <= i < list.len() implies t.parent_of(list[i]) == Some(top)
                || #[trigger] parent_before(t, list, i) by {
                if i < a.len() {
                    assert(list[i] == a[i]);
                    if t.parent_of(a[i]) != Some(top) {
                        assert(parent_before(t, a, i));
                        let j = choose|j: int| 0 <= j < i && t.parent_of(a[i]) == Some(#[trigger] a[j]);
                        assert(list[j] == a[j]);
                    }
                } else {
                    let y = i - a.len();
                    assert(list[i] == c[y]);
                    if y > 0 {
                        assert(parent_before(t, c, y));
                        let j = choose|j: int| 0 <= j < y && t.parent_of(c[y]) == Some(#[trigger] c[j]);
                        assert(list[j + a.len()] == c[j]);
                    }
                }
            }
        }
    }

    /// The listing of the branches holds each tracked branch once and nothing
    /// else, starts with the trunk, and holds the parent of every other branch
    /// before the branch.
    pub proof fn lemma_listing(&self)
        requires
            self.wf(),
        ensures
            walk_of(self@, self@.trunk_name, self.preorder(self@.trunk_name, self.branches.len() as nat)),
            forall|m: Name| #[trigger]
                self.preorder(self@.trunk_name, self.branches.len() as nat).contains(m)
                    <==> self@.contains(m),
            self.preorder(self@.trunk_name, self.branches.len() as nat).len() == self.branches.len(),
    {
        let t = self@;
        let list = self.preorder(t.trunk_name, self.branches.len() as nat);
        lemma_depth(t, t.trunk_name);
        self.lemma_preorder(t.trunk_name, self.branches.len() as nat);
        assert forall|m: Name| #[trigger] list.contains(m) <==> t.contains(m) by {
            if t.contains(m) {
                lemma_depth(t, m);
                lemma_climbs_ascends(t, m, t.depth(m));
                assert(under(t, t.trunk_name, m));
            }
        }
        self.lemma_model_basics();
        self.lemma_size();
        list.unique_seq_to_set();
        assert(list.to_set() =~= t.branches.dom());
    }

    /// Adds to `branch_names` the branch at position `at` and then the branches
    /// below it, `fuel` levels deep at most.
    fn fill_branches(&self, at: usize, fuel: usize, branch_names: &mut Vec<String>)
        requires
            self.wf(),
            at < self.branches.len(),
        ensures
            names(final(branch_names)@) == names(old(branch_names)@) + self.preorder(
                self.name_at(at as int),
                fuel as nat,
            ),
        decreases fuel,
    {
        let ghost start = names(branch_names@);
        let ghost here = self.name_at(at as int);
        if fuel == 0 {
            assert(start + Seq::<Name>::empty() =~= start);
            return ;
        }
        let node = &self.branches[at];
        branch_names.push(node.local.branch_name.clone());
        let ghost kids = names(node.children@);
        proof {
            self.lemma_at(at as int);
            assert(names(branch_names@) =~= start + seq![here]);
            assert(kids.take(0) =~= Seq::<Name>::empty());
            assert(start + seq![here] + Seq::<Name>::empty() =~= start + seq![here]);
        }
        let mut k: usize = 0;
        while k < node.children.len()
            invariant
                self.wf(),
                at < self.branches.len(),
                node == &self.branches[at as int],
                here == self.name_at(at as int),
                self@.contains(here),
                self@.branches[here] == node@,
                kids == names(node.children@),
                fuel > 0,
                k <= node.children.len(),
                names(branch_names@) == start + seq![here] + self.preorder_each(
                    kids.take(k as int),
                    (fuel - 1) as nat,
                ),
            decreases node.children.len() - k,
        {
            proof {
                assert(kids.to_set().contains(kids[k as int]));
                assert(self@.branches[here].children.contains(kids[k as int]));
                assert(self@.contains(kids[k as int]));
            }
            let down: usize = self.find_index(node.children[k].as_str()).unwrap();
            self.fill_branches(down, fuel - 1, branch_names);
            proof {
                let next = kids.take(k + 1);
                assert(next.drop_last() =~= kids.take(k as int));
                assert(next.last() == kids[k as int]);
                let done = self.preorder_each(kids.take(k as int), (fuel - 1) as nat);
                let more = self.preorder(kids[k as int], (fuel - 1) as nat);
                assert((start + seq![here] + done) + more =~= start + seq![here] + (done + more));
            }
            k += 1;
        }
        proof {
            assert(kids.take(kids.len() as int) =~= kids);
            let below = self.preorder_each(kids, (fuel - 1) as nat);
            assert(start + seq![here] + below =~= start + (seq![here] + below));
        }
    }

    /// The names of the tracked branches, the trunk first and each branch
    /// followed by the branches below it, child by child in the order in which
    /// its node lists them. Each tracked branch is listed once, after its
    /// parent.
    pub fn branches(&self) -> (r: Vec<String>)
        requires
            self.wf(),
        ensures
            names(r@) == self.preorder(self@.trunk_name, self.branches.len() as nat),
            walk_of(self@, self@.trunk_name, names(r@)),
            forall|m: Name| #[trigger] names(r@).contains(m) <==> self@.contains(m),
            r.len() == self.branches.len(),
    {
        proof {
            self.lemma_listing();
        }
        let mut branch_names: Vec<String> = Vec::new();
        let root: usize = self.find_index(self.trunk_name.as_str()).unwrap();
        self.fill_branches(root, self.branches.len(), &mut branch_names);
        assert(Seq::<Name>::empty() + self.preorder(self@.trunk_name, self.branches.len() as nat)
            =~= self.preorder(self@.trunk_name, self.branches.len() as nat));
        assert(names(Seq::<String>::empty()) =~= Seq::<Name>::empty());
        branch_names
    }
}

} // verus!
