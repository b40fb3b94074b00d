//! The tree of tracked branches, held as a flat list of nodes that name their
//! parent and their children.

use crate::errors::StError;
use crate::model::{
    lemma_delete_wf, lemma_depth, lemma_fresh_wf, lemma_insert_wf, lemma_set_metadata_wf, BranchView,
    Name, RemoteMetadata, TreeView,
};
use crate::text::str_eq;
use vstd::prelude::*;

verus! {

/// The characters of an optional string.
pub open spec fn opt_view(o: Option<String>) -> Option<Seq<char>> {
    match o {
        Some(s) => Some(s@),
        None => None,
    }
}

/// The names that a list of strings holds, in its order.
pub open spec fn names(v: Seq<String>) -> Seq<Name> {
    Seq::new(v.len(), |j: int| v[j]@)
}

/// A list without duplicates that has lost one entry has no duplicates, and
/// holds what it held but for that entry.
pub proof fn lemma_names_remove(v: Seq<String>, j: int)
    requires
        names(v).no_duplicates(),
        0 <= j < v.len(),
    ensures
        names(v.remove(j)) == names(v).remove(j),
        names(v.remove(j)).no_duplicates(),
        names(v.remove(j)).to_set() == names(v).to_set().remove(v[j]@),
{
    let a = names(v);
    let b = names(v.remove(j));
    assert(b =~= a.remove(j));
    assert forall|x: int, y: int| 0 <= x < y < b.len() implies b[x] != b[y] by {
        let x0 = if x < j { x } else { x + 1 };
        let y0 = if y < j { y } else { y + 1 };
        assert(b[x] == a[x0] && b[y] == a[y0]);
    }
    assert forall|n: Name| b.to_set().contains(n) <==> a.to_set().remove(v[j]@).contains(n) by {
        if b.contains(n) {
            let x = choose|x: int| 0 <= x < b.len() && b[x] == n;
            let x0 = if x < j { x } else { x + 1 };
            assert(a[x0] == n);
            assert(a[j] == v[j]@);
        }
        if a.contains(n) && n != v[j]@ {
            let x0 = choose|x: int| 0 <= x < a.len() && a[x] == n;
            let x = if x0 < j { x0 } else { x0 - 1 };
            assert(b[x] == n);
        }
    }
    assert(b.to_set() =~= a.to_set().remove(v[j]@));
}

/// Whether `list` holds `name`.
pub fn holds_name(list: &Vec<String>, name: &str) -> (r: bool)
    ensures
        r == names(list@).contains(name@),
{
    let mut i: usize = 0;
    while i < list.len()
        invariant
            i <= list.len(),
            forall|j: int| 0 <= j < i ==> names(list@)[j] != name@,
        decreases list.len() - i,
    {
        if str_eq(list[i].as_str(), name) {
            assert(names(list@)[i as int] == name@);
            return true;
        }
        i += 1;
    }
    false
}

/// Takes the entry that holds `name` out of a list that holds it once.
fn remove_name(list: &mut Vec<String>, name: &str)
    requires
        names(old(list)@).contains(name@),
        names(old(list)@).no_duplicates(),
    ensures
        names(final(list)@).no_duplicates(),
        names(final(list)@).to_set() == names(old(list)@).to_set().remove(name@),
{
    let mut j: usize = 0;
    while j < list.len()
        invariant
            j <= list.len(),
            *list == *old(list),
            names(list@).contains(name@),
            names(list@).no_duplicates(),
            forall|x: int| 0 <= x < j ==> names(list@)[x] != name@,
        decreases list.len() - j,
    {
        if str_eq(list[j].as_str(), name) {
            proof {
                lemma_names_remove(list@, j as int);
            }
            list.remove(j);
            return ;
        }
        j += 1;
    }
    assert(false);
}

/// What is known of a branch from the local repository alone.
#[derive(Debug, Clone, PartialEq, Eq)]
pub struct LocalMetadata {
    /// The name of the branch.
    pub branch_name: String,
    /// The commit that the parent pointed to when the branch was last known to
    /// be based on the parent's tip.
    pub parent_oid_cache: Option<String>,
}

impl LocalMetadata {
    /// The metadata of the branch `branch_name`, last seen on `parent_oid_cache`.
    pub fn new(branch_name: String, parent_oid_cache: Option<String>) -> (r: Self)
        ensures
            r.branch_name == branch_name,
            r.parent_oid_cache == parent_oid_cache,
    {
        LocalMetadata { branch_name, parent_oid_cache }
    }
}

/// A branch that the tree tracks.
#[derive(Debug, Clone, PartialEq, Eq)]
pub struct TrackedBranch {
    /// The name of the parent; `None` for the trunk.
    pub parent: Option<String>,
    /// The names of the children, none of them twice.
    pub children: Vec<String>,
    /// The name and the cached parent commit.
    pub local: LocalMetadata,
    /// The pull request of the branch, once it was submitted.
    pub remote: Option<RemoteMetadata>,
}

impl View for TrackedBranch {
    type V = BranchView;

    open spec fn view(&self) -> BranchView {
        BranchView {
            name: self.local.branch_name@,
            parent: opt_view(self.parent),
            children: names(self.children@).to_set(),
            parent_oid_cache: opt_view(self.local.parent_oid_cache),
            remote: self.remote,
        }
    }
}

impl TrackedBranch {
    /// A branch under `parent`, without children and without a pull request.
    pub fn new(local: LocalMetadata, parent: Option<String>) -> (r: Self)
        ensures
            r.local == local,
            r.parent == parent,
            r.children@ == Seq::<String>::empty(),
            r.remote is None,
            r@ == BranchView::leaf(
                local.branch_name@,
                opt_view(parent),
                opt_view(local.parent_oid_cache),
            ),
    {
        let r = TrackedBranch { parent, children: Vec::new(), local, remote: None };
        assert(names(r.children@).to_set() =~= Set::<Name>::empty());
        r
    }

    /// Whether no child is listed twice.
    pub open spec fn children_distinct(&self) -> bool {
        names(self.children@).no_duplicates()
    }
}

/// The tree of tracked branches.
///
/// `==` compares two trees as lists: it tells trees apart that hold the same
/// nodes in another order. `same_as` compares them as trees.
#[derive(Debug, Clone, PartialEq, Eq)]
pub struct StackTree {
    /// The name of the trunk.
    pub trunk_name: String,
    /// The tracked branches, each with a name of its own.
    pub branches: Vec<TrackedBranch>,
}

impl View for StackTree {
    type V = TreeView;

    open spec fn view(&self) -> TreeView {
        TreeView {
            trunk_name: self.trunk_name@,
            branches: Map::new(
                |n: Name| self.tracks(n),
                |n: Name| self.branches[self.index_of(n)]@,
            ),
        }
    }
}

impl StackTree {
    /// The name of the node at position `i`.
    pub open spec fn name_at(&self, i: int) -> Name {
        self.branches[i].local.branch_name@
    }

    /// The names of the nodes, in the order of the list.
    pub open spec fn arena_names(&self) -> Seq<Name> {
        Seq::new(self.branches.len() as nat, |i: int| self.name_at(i))
    }

    /// Whether a node of the list has the name `name`.
    pub open spec fn tracks(&self, name: Name) -> bool {
        exists|i: int| 0 <= i < self.branches.len() && self.name_at(i) == name
    }

    /// A position at which the list holds the node named `name`.
    pub open spec fn index_of(&self, name: Name) -> int {
        choose|i: int| 0 <= i < self.branches.len() && self.name_at(i) == name
    }

    /// Whether no two nodes of the list have the same name, and no node lists a
    /// child twice.
    pub open spec fn distinct(&self) -> bool {
        &&& forall|i: int, j: int|
            0 <= i < j < self.branches.len() ==> self.name_at(i) != self.name_at(j)
        &&& forall|i: int|
            0 <= i < self.branches.len() ==> (#[trigger] self.branches[i]).children_distinct()
    }

    /// Whether the list is a valid tree: names occur once, and its model has the
    /// structural invariants.
    pub open spec fn wf(&self) -> bool {
        &&& self.distinct()
        &&& self@.wf()
    }

    /// The node at each position is the node that the model holds under its name.
    pub proof fn lemma_at(&self, i: int)
        requires
            self.distinct(),
            0 <= i < self.branches.len(),
        ensures
            self.tracks(self.name_at(i)),
            self.index_of(self.name_at(i)) == i,
            self@.contains(self.name_at(i)),
            self@.branches[self.name_at(i)] == self.branches[i]@,
    {
    }

    /// The model is the map that holds each node of the list under its name.
    pub proof fn lemma_view_is(&self, m: Map<Name, BranchView>)
        requires
            self.distinct(),
            forall|i: int|
                0 <= i < self.branches.len() ==> m.contains_key(#[trigger] self.name_at(i)) && m[self.name_at(
                    i,
                )] == self.branches[i]@,
            forall|n: Name| #[trigger] m.contains_key(n) ==> self.tracks(n),
        ensures
            self@.branches == m,
    {
        assert forall|n: Name| self@.branches.contains_key(n) implies #[trigger] m.contains_key(n) by {
            let i = self.index_of(n);
            assert(self.name_at(i) == n);
        }
        assert forall|n: Name| #[trigger] m.contains_key(n) implies self@.branches[n] == m[n] by {
            let i = self.index_of(n);
            assert(self.name_at(i) == n);
        }
        assert(self@.branches =~= m);
    }

    /// A list that differs from another in one node, which kept its name and its
    /// children, stands for the other's model with that node replaced.
    pub proof fn lemma_changed_at(&self, before: StackTree, at: int, m: TreeView)
        requires
            before.distinct(),
            0 <= at < before.branches.len(),
            self.trunk_name == before.trunk_name,
            self.branches.len() == before.branches.len(),
            forall|i: int|
                0 <= i < before.branches.len() && i != at ==> #[trigger] self.branches[i]
                    == before.branches[i],
            self.name_at(at) == before.name_at(at),
            self.branches[at].children == before.branches[at].children,
            m.trunk_name == before@.trunk_name,
            m.branches == before@.branches.insert(before.name_at(at), self.branches[at]@),
        ensures
            self.distinct(),
            self@ == m,
    {
        assert forall|i: int| 0 <= i < self.branches.len() implies self.name_at(i) == before.name_at(
            i,
        ) by {
            if i != at {
                assert(self.branches[i] == before.branches[i]);
            }
        }
        assert forall|i: int| 0 <= i < self.branches.len() implies (
        #[trigger] self.branches[i]).children_distinct() by {
            assert(before.branches[i].children_distinct());
            if i != at {
                assert(self.branches[i] == before.branches[i]);
            }
        }
        assert forall|i: int| 0 <= i < self.branches.len() implies m.branches.contains_key(
            #[trigger] self.name_at(i),
        ) && m.branches[self.name_at(i)] == self.branches[i]@ by {
            before.lemma_at(i);
            if i != at {
                assert(self.branches[i] == before.branches[i]);
            }
        }
        assert forall|n: Name| #[trigger] m.branches.contains_key(n) implies self.tracks(n) by {
            if n == before.name_at(at) {
                assert(self.name_at(at) == n);
            } else {
                let i = before.index_of(n);
                assert(self.name_at(i) == n);
            }
        }
        self.lemma_view_is(m.branches);
    }

    /// Whether `after` is this tree but for the cached commit and the pull
    /// request of the node at position `at`.
    pub open spec fn changed_metadata_at(&self, after: StackTree, at: int) -> bool {
        &&& 0 <= at < self.branches.len()
        &&& after.trunk_name == self.trunk_name
        &&& after.branches@ == self.branches@.update(at, after.branches[at])
        &&& after.branches[at].local.branch_name@ == self.branches[at].local.branch_name@
        &&& opt_view(after.branches[at].parent) == opt_view(self.branches[at].parent)
        &&& after.branches[at].children == self.branches[at].children
    }

    /// A valid tree stays valid when the cached commit and the pull request of
    /// one of its nodes change, and differs from what it was in these alone.
    pub proof fn lemma_changed_metadata(&self, after: StackTree, at: int)
        requires
            self.wf(),
            self.changed_metadata_at(after, at),
        ensures
            after.wf(),
            after@ == self@.set_cache(self.name_at(at), after.branches[at]@.parent_oid_cache).set_remote(
                self.name_at(at),
                after.branches[at]@.remote,
            ),
    {
        let name = self.name_at(at);
        let node = after.branches[at];
        let m = self@.set_cache(name, node@.parent_oid_cache).set_remote(name, node@.remote);
        self.lemma_at(at);
        lemma_set_metadata_wf(self@, name, node@.parent_oid_cache, None);
        lemma_set_metadata_wf(self@.set_cache(name, node@.parent_oid_cache), name, None, node@.remote);
        assert(m.branches =~= self@.branches.insert(name, node@));
        after.lemma_changed_at(*self, at, m);
    }

    /// The first position of a node named `name`, if there is one.
    pub fn find_index(&self, name: &str) -> (r: Option<usize>)
        ensures
            match r {
                Some(i) => i < self.branches.len() && self.name_at(i as int) == name@ && forall|j: int|
                    0 <= j < i ==> self.name_at(j) != name@,
                None => !self.tracks(name@),
            },
    {
        let mut i: usize = 0;
        while i < self.branches.len()
            invariant
                i <= self.branches.len(),
                forall|j: int| 0 <= j < i ==> self.name_at(j) != name@,
            decreases self.branches.len() - i,
        {
            if str_eq(self.branches[i].local.branch_name.as_str(), name) {
                return Some(i);
            }
            i += 1;
        }
        None
    }

    /// A tree that tracks the trunk alone.
    pub fn new(trunk_name: String) -> (t: Self)
        ensures
            t.wf(),
            t@ == TreeView::fresh(trunk_name@),
    {
        let node = TrackedBranch::new(LocalMetadata::new(trunk_name.clone(), None), None);
        let mut branches: Vec<TrackedBranch> = Vec::new();
        branches.push(node);
        let t = StackTree { trunk_name, branches };
        proof {
            assert(names(t.branches[0].children@) =~= Seq::<Name>::empty());
            assert(t.name_at(0) == trunk_name@);
            t.lemma_view_is(TreeView::fresh(trunk_name@).branches);
            lemma_fresh_wf(trunk_name@);
        }
        t
    }

    /// The node of the trunk.
    pub fn trunk(&self) -> (r: &TrackedBranch)
        requires
            self.wf(),
        ensures
            r@ == self@.branches[self@.trunk_name],
            r@.name == self@.trunk_name,
            r@.parent is None,
    {
        let found = self.find_index(self.trunk_name.as_str());
        let i: usize = found.unwrap();
        proof {
            self.lemma_at(i as int);
        }
        &self.branches[i]
    }

    /// The node of the branch `branch_name`, or `None` if it is not tracked.
    pub fn get(&self, branch_name: &str) -> (r: Option<&TrackedBranch>)
        requires
            self.wf(),
        ensures
            r is Some <==> self@.contains(branch_name@),
            r matches Some(b) ==> b@ == self@.branches[branch_name@] && b@.name == branch_name@,
    {
        match self.find_index(branch_name) {
            Some(i) => {
                proof {
                    self.lemma_at(i as int);
                }
                Some(&self.branches[i])
            },
            None => None,
        }
    }

    /// The node of the branch `branch_name`, to be changed in place, or `None` if
    /// it is not tracked. The tree afterwards differs in that node alone, and is
    /// valid if the node has the name, the parent and the children that it had.
    pub fn get_mut(&mut self, branch_name: &str) -> (r: Option<&mut TrackedBranch>)
        requires
            old(self).wf(),
        ensures
            r is Some <==> old(self)@.contains(branch_name@),
            r is None ==> *final(self) == *old(self),
            r matches Some(b) ==> {
                let i = old(self).index_of(branch_name@);
                &&& 0 <= i < old(self).branches.len()
                &&& *b == old(self).branches[i]
                &&& b@ == old(self)@.branches[branch_name@]
                &&& final(self).trunk_name == old(self).trunk_name
                &&& final(self).branches@ == old(self).branches@.update(i, *final(b))
                &&& old(self).changed_metadata_at(*final(self), i) ==> final(self).wf()
            },
    {
        match self.find_index(branch_name) {
            Some(i) => {
                proof {
                    self.lemma_at(i as int);
                    let before = *self;
                    assert forall|after: StackTree| #[trigger]
                        before.changed_metadata_at(after, i as int) implies after.wf() by {
                        before.lemma_changed_metadata(after, i as int);
                    }
                }
                Some(&mut self.branches[i])
            },
            None => None,
        }
    }

    /// Tracks the branch of `local_metadata` as a new leaf under `parent_name`,
    /// with the cached parent commit that the metadata carries. Fails, and leaves
    /// the tree as it was, if the parent is not tracked or the branch is tracked
    /// already.
    pub fn insert(
        &mut self,
        parent_name: &str,
        local_metadata: LocalMetadata,
    ) -> (r: Result<(), StError>)
        requires
            old(self).wf(),
        ensures
            final(self).wf(),
            r is Ok <==> old(self)@.contains(parent_name@) && !old(self)@.contains(
                local_metadata.branch_name@,
            ),
            r is Ok ==> final(self)@ == old(self)@.insert(
                parent_name@,
                local_metadata.branch_name@,
                opt_view(local_metadata.parent_oid_cache),
            ),
            r is Ok ==> final(self)@.contains(local_metadata.branch_name@) && final(self)@.parent_of(
                local_metadata.branch_name@,
            ) == Some(parent_name@) && final(self)@.branches[parent_name@].children.contains(
                local_metadata.branch_name@,
            ),
            r is Err ==> *final(self) == *old(self),
            r matches Err(e) ==> if !old(self)@.contains(parent_name@) {
                e is ParentNotTracked
            } else {
                e matches StError::BranchAlreadyTracked(n) && n@ == local_metadata.branch_name@
            },
    {
        let pidx: usize = match self.find_index(parent_name) {
            Some(i) => i,
            None => {
                return Err(StError::ParentNotTracked);
            },
        };
        if self.find_index(local_metadata.branch_name.as_str()).is_some() {
            return Err(StError::BranchAlreadyTracked(local_metadata.branch_name));
        }
        let ghost before = *self;
        let ghost child = local_metadata.branch_name@;
        let ghost oid = opt_view(local_metadata.parent_oid_cache);
        let child_name = local_metadata.branch_name.clone();
        self.branches[pidx].children.push(child_name);
        let node = TrackedBranch::new(local_metadata, Some(parent_name.to_owned()));
        self.branches.push(node);
        proof {
            let after = *self;
            let m = before@.insert(parent_name@, child, oid).branches;
            let old_kids = names(before.branches[pidx as int].children@);
            let new_kids = names(after.branches[pidx as int].children@);
            before.lemma_at(pidx as int);
            assert(!old_kids.contains(child)) by {
                if old_kids.contains(child) {
                    assert(old_kids.to_set().contains(child));
                }
            }
            assert(new_kids =~= old_kids.push(child));
            assert(new_kids.to_set() =~= old_kids.to_set().insert(child)) by {
                assert forall|n: Name| new_kids.to_set().contains(n) <==> old_kids.to_set().insert(
                    child,
                ).contains(n) by {
                    if old_kids.contains(n) {
                        let j = choose|j: int| 0 <= j < old_kids.len() && old_kids[j] == n;
                        assert(new_kids[j] == n);
                    }
                    if n == child {
                        assert(new_kids[old_kids.len() as int] == n);
                    }
                }
            }
            assert(after.distinct()) by {
                assert forall|i: int, j: int| 0 <= i < j < after.branches.len() implies after.name_at(i)
                    != after.name_at(j) by {
                    assert(after.name_at(i) == before.name_at(i));
                    if j < before.branches.len() {
                        assert(after.name_at(j) == before.name_at(j));
                    }
                }
                assert forall|i: int| 0 <= i < after.branches.len() implies (
                #[trigger] after.branches[i]).children_distinct() by {
                    if i == pidx {
                    } else if i < before.branches.len() {
                        assert(after.branches[i] == before.branches[i]);
                    } else {
                        assert(names(after.branches[i].children@) =~= Seq::<Name>::empty());
                    }
                }
            }
            assert forall|i: int| 0 <= i < after.branches.len() implies m.contains_key(
                #[trigger] after.name_at(i),
            ) && m[after.name_at(i)] == after.branches[i]@ by {
                if i < before.branches.len() {
                    before.lemma_at(i);
                    if i != pidx {
                        assert(after.branches[i] == before.branches[i]);
                    }
                }
            }
            assert forall|n: Name| #[trigger] m.contains_key(n) implies after.tracks(n) by {
                if n == child {
                    assert(after.name_at(before.branches.len() as int) == n);
                } else {
                    let i = before.index_of(n);
                    assert(after.name_at(i) == n);
                }
            }
            after.lemma_view_is(m);
            lemma_insert_wf(before@, parent_name@, child, oid);
        }
        Ok(())
    }

    /// Untracks `branch_name` and returns its node. Its children hang under its
    /// parent afterwards. Fails, and leaves the tree as it was, if the branch is
    /// not tracked or is the trunk.
    pub fn delete(&mut self, branch_name: &str) -> (r: Result<TrackedBranch, StError>)
        requires
            old(self).wf(),
        ensures
            final(self).wf(),
            r is Ok <==> old(self)@.contains(branch_name@) && branch_name@ != old(self)@.trunk_name,
            r matches Ok(b) ==> b@ == old(self)@.branches[branch_name@] && final(self)@ == old(
                self,
            )@.delete(branch_name@),
            r is Ok ==> final(self).arena_names() == old(self).arena_names().remove(
                old(self).index_of(branch_name@),
            ),
            r is Err ==> *final(self) == *old(self),
            r matches Err(e) ==> if old(self)@.contains(branch_name@) {
                e is CannotDeleteTrunk
            } else {
                e matches StError::BranchNotTracked(n) && n@ == branch_name@
            },
    {
        let idx: usize = match self.find_index(branch_name) {
            Some(i) => i,
            None => {
                return Err(StError::BranchNotTracked(branch_name.to_owned()));
            },
        };
        if str_eq(branch_name, self.trunk_name.as_str()) {
            return Err(StError::CannotDeleteTrunk);
        }
        let ghost before = *self;
        let ghost gone = branch_name@;
        let ghost x = before@.branches[gone];
        let ghost g = x.parent.unwrap();
        proof {
            before.lemma_at(idx as int);
            lemma_depth(before@, gone);
            assert(before@.contains(g));
            before.lemma_at(before.index_of(g));
        }
        let node = self.branches.remove(idx);
        let parent_name: String = node.parent.as_ref().unwrap().clone();
        let ghost kids = names(node.children@);
        assert(self.tracks(g)) by {
            let i = before.index_of(g);
            let j = if i < idx { i } else { i - 1 };
            assert(self.name_at(j) == g);
        }
        let pidx: usize = self.find_index(parent_name.as_str()).unwrap();
        assert(self.branches[pidx as int] == before.branches[before.index_of(g)]) by {
            let i = if pidx < idx { pidx as int } else { pidx + 1 };
            assert(before.name_at(i) == g);
            before.lemma_at(i);
        }
        assert(names(self.branches[pidx as int].children@).contains(gone)) by {
            assert(before@.branches[g].children.contains(gone));
        }
        remove_name(&mut self.branches[pidx].children, branch_name);
        let ghost mid = *self;
        assert forall|i: int, j: int| 0 <= i < j < mid.branches.len() implies mid.name_at(i)
            != mid.name_at(j) by {
            let i0 = if i < idx { i } else { i + 1 };
            let j0 = if j < idx { j } else { j + 1 };
            assert(mid.name_at(i) == before.name_at(i0) && mid.name_at(j) == before.name_at(j0));
        }
        assert forall|j: int| 0 <= j < kids.len() implies mid.tracks(#[trigger] kids[j]) by {
            assert(x.children.contains(kids[j]));
            assert(before@.contains(kids[j]));
            lemma_depth(before@, kids[j]);
            let i = before.index_of(kids[j]);
            let i2 = if i < idx { i } else { i - 1 };
            assert(mid.name_at(i2) == kids[j]);
        }
        let mut k: usize = 0;
        while k < node.children.len()
            invariant
                k <= node.children.len(),
                kids == names(node.children@),
                parent_name@ == g,
                self.trunk_name == mid.trunk_name,
                self.branches.len() == mid.branches.len(),
                forall|j: int| 0 <= j < kids.len() ==> mid.tracks(#[trigger] kids[j]),
                forall|i: int, j: int|
                    0 <= i < j < mid.branches.len() ==> mid.name_at(i) != mid.name_at(j),
                forall|i: int|
                    0 <= i < self.branches.len() ==> (#[trigger] self.branches[i]).local
                        == mid.branches[i].local && self.branches[i].remote == mid.branches[i].remote
                        && self.branches[i].children == mid.branches[i].children,
                forall|i: int|
                    0 <= i < self.branches.len() ==> opt_view((#[trigger] self.branches[i]).parent) == (
                    if kids.take(k as int).contains(mid.name_at(i)) {
                        Some(g)
                    } else {
                        opt_view(mid.branches[i].parent)
                    }),
            decreases node.children.len() - k,
        {
            let ghost prev = *self;
            assert(self.tracks(kids[k as int])) by {
                let i = mid.index_of(kids[k as int]);
                assert(self.name_at(i) == kids[k as int]);
            }
            let cidx: usize = self.find_index(node.children[k].as_str()).unwrap();
            self.branches[cidx].parent = Some(parent_name.clone());
            proof {
                let done = kids.take(k as int);
                let done1 = kids.take(k + 1);
                assert(done1 =~= done.push(kids[k as int]));
                assert forall|i: int| 0 <= i < self.branches.len() implies opt_view(
                    (#[trigger] self.branches[i]).parent,
                ) == (if done1.contains(mid.name_at(i)) {
                    Some(g)
                } else {
                    opt_view(mid.branches[i].parent)
                }) by {
                    assert(self.name_at(i) == mid.name_at(i));
                    assert(prev.branches[i].local == mid.branches[i].local);
                    if done.contains(mid.name_at(i)) {
                        let j = choose|j: int| 0 <= j < done.len() && done[j] == mid.name_at(i);
                        assert(done1[j] == mid.name_at(i));
                    }
                    if i == cidx {
                        assert(done1[k as int] == mid.name_at(i));
                    } else {
                        assert(self.branches[i] == prev.branches[i]);
                        if done1.contains(mid.name_at(i)) {
                            let j = choose|j: int| 0 <= j < done1.len() && done1[j] == mid.name_at(i);
                            if j == k {
                                assert(prev.name_at(cidx as int) == mid.name_at(cidx as int));
                                assert(false);
                            } else {
                                assert(done[j] == mid.name_at(i));
                            }
                        }
                    }
                }
            }
            k += 1;
        }
        let ghost mid2 = *self;
        let mut k: usize = 0;
        while k < node.children.len()
            invariant
                k <= node.children.len(),
                pidx < self.branches.len(),
                self.trunk_name == mid2.trunk_name,
                self.branches.len() == mid2.branches.len(),
                forall|i: int|
                    0 <= i < self.branches.len() && i != pidx ==> #[trigger] self.branches[i]
                        == mid2.branches[i],
                self.branches[pidx as int].local == mid2.branches[pidx as int].local,
                self.branches[pidx as int].remote == mid2.branches[pidx as int].remote,
                self.branches[pidx as int].parent == mid2.branches[pidx as int].parent,
                self.branches[pidx as int].children@ == mid2.branches[pidx as int].children@
                    + node.children@.take(k as int),
            decreases node.children.len() - k,
        {
            let c = node.children[k].clone();
            self.branches[pidx].children.push(c);
            proof {
                assert(node.children@.take(k + 1) =~= node.children@.take(k as int).push(
                    node.children@[k as int],
                ));
                assert(self.branches[pidx as int].children@ =~= mid2.branches[pidx as int].children@
                    + node.children@.take(k + 1));
            }
            k += 1;
        }
        proof {
            let after = *self;
            let m = before@.delete(gone).branches;
            assert(node.children@.take(node.children.len() as int) =~= node.children@);
            assert(kids.take(kids.len() as int) =~= kids);
            let kept = names(mid.branches[pidx as int].children@);
            let joined = names(after.branches[pidx as int].children@);
            assert(joined =~= kept + kids);
            assert(mid.name_at(pidx as int) == g);
            assert forall|i: int| 0 <= i < after.branches.len() implies after.name_at(i)
                == before.name_at(if i < idx { i } else { i + 1 }) by {
                assert(after.branches[i].local == mid.branches[i].local);
            }
            // what the parent's children were, and what the deleted node's were
            assert(kept.to_set() == before@.branches[g].children.remove(gone));
            assert(kids.to_set() == x.children);
            assert forall|n: Name| kept.contains(n) implies !kids.contains(n) by {
                if kids.contains(n) {
                    assert(kept.to_set().contains(n));
                    assert(x.children.contains(n));
                    assert(before@.branches[g].children.contains(n));
                }
            }
            assert(joined.no_duplicates()) by {
                assert forall|a: int, b: int| 0 <= a < b < joined.len() implies joined[a] != joined[b] by {
                    if b < kept.len() {
                        assert(joined[a] == kept[a] && joined[b] == kept[b]);
                    } else if a >= kept.len() {
                        assert(joined[a] == kids[a - kept.len()] && joined[b] == kids[b - kept.len()]);
                    } else {
                        assert(joined[a] == kept[a] && joined[b] == kids[b - kept.len()]);
                        assert(kept.contains(joined[a]));
                        assert(kids.contains(joined[b]));
                    }
                }
            }
            assert(joined.to_set() =~= kept.to_set().union(kids.to_set())) by {
                assert forall|n: Name| joined.to_set().contains(n) <==> kept.to_set().union(
                    kids.to_set(),
                ).contains(n) by {
                    if joined.contains(n) {
                        let a = choose|a: int| 0 <= a < joined.len() && joined[a] == n;
                        if a < kept.len() {
                            assert(kept[a] == n);
                        } else {
                            assert(kids[a - kept.len()] == n);
                        }
                    }
                    if kept.contains(n) {
                        let a = choose|a: int| 0 <= a < kept.len() && kept[a] == n;
                        assert(joined[a] == n);
                    }
                    if kids.contains(n) {
                        let a = choose|a: int| 0 <= a < kids.len() && kids[a] == n;
                        assert(joined[a + kept.len()] == n);
                    }
                }
            }
            assert(after.distinct()) by {
                assert forall|i: int| 0 <= i < after.branches.len() implies (
                #[trigger] after.branches[i]).children_distinct() by {
                    if i != pidx {
                        let i0 = if i < idx { i } else { i + 1 };
                        assert(after.branches[i].children == before.branches[i0].children);
                        assert(before.branches[i0].children_distinct());
                    }
                }
            }
            assert forall|i: int| 0 <= i < after.branches.len() implies m.contains_key(
                #[trigger] after.name_at(i),
            ) && m[after.name_at(i)] == after.branches[i]@ by {
                let i0 = if i < idx { i } else { i + 1 };
                let n = before.name_at(i0);
                before.lemma_at(i0);
                lemma_depth(before@, n);
                lemma_depth(before@, g);
                assert(after.branches[i].local == before.branches[i0].local);
                assert(after.branches[i].remote == before.branches[i0].remote);
                assert(x.children.contains(n) <==> before@.parent_of(n) == Some(gone));
                assert(kids.contains(n) <==> x.children.contains(n));
                if n == g {
                    assert(after.name_at(pidx as int) == g);
                    assert(after.name_at(i) == g);
                    assert(i == pidx);
                    assert(after.branches[i]@.children =~= before@.branches[g].children.remove(
                        gone,
                    ).union(x.children));
                } else {
                    assert(i != pidx);
                    assert(after.branches[i].children == before.branches[i0].children);
                }
            }
            assert forall|n: Name| #[trigger] m.contains_key(n) implies after.tracks(n) by {
                let i0 = before.index_of(n);
                let i = if i0 < idx { i0 } else { i0 - 1 };
                assert(after.name_at(i) == n);
            }
            after.lemma_view_is(m);
            lemma_delete_wf(before@, gone);
            assert(after.arena_names() =~= before.arena_names().remove(idx as int));
        }
        Ok(node)
    }
}

} // verus!
