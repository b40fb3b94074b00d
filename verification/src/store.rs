//! The persisted form of the tree: a document that holds the name of the trunk
//! and, under the name of each tracked branch, its parent, its children, its
//! cached parent commit and its pull request. A document that is read back is
//! checked before it becomes a tree.

use crate::errors::StError;
use crate::model::{
    ascends, lemma_ascends_more, lemma_ascends_to_trunk, lemma_depth, lemma_depth_bound, BranchView,
    Name, RemoteMetadata, TreeView,
};
use crate::text::str_eq;
use crate::tree::{names, opt_view, LocalMetadata, StackTree, TrackedBranch};
use vstd::prelude::*;

verus! {

/// The part of a persisted branch that is known from the local repository.
#[derive(Debug, Clone, PartialEq, Eq)]
pub struct StoredLocal {
    /// The cached commit of the parent, if there is one.
    pub parent_oid_cache: Option<String>,
}

/// A branch as the store holds it, under its name.
#[derive(Debug, Clone, PartialEq, Eq)]
pub struct StoredBranch {
    /// The name of the parent; absent for the trunk.
    pub parent: Option<String>,
    /// The names of the children.
    pub children: Vec<String>,
    /// The cached parent commit.
    pub local: StoredLocal,
    /// The pull request, if the branch was submitted.
    pub remote: Option<RemoteMetadata>,
}

/// One entry of the map of branches: a name and the branch stored under it.
#[derive(Debug, Clone, PartialEq, Eq)]
pub struct StoredEntry {
    /// The name of the branch.
    pub name: String,
    /// What is stored of it.
    pub branch: StoredBranch,
}

/// The persisted tree.
#[derive(Debug, Clone, PartialEq, Eq)]
pub struct StoreDocument {
    /// The name of the trunk.
    pub trunk_name: String,
    /// The map from branch names to branches, as the list of its entries.
    pub branches: Vec<StoredEntry>,
}

/// A persisted branch, as a value.
pub struct StoredView {
    pub parent: Option<Name>,
    pub children: Set<Name>,
    pub parent_oid_cache: Option<Seq<char>>,
    pub remote: Option<RemoteMetadata>,
}

/// A persisted tree, as a value.
pub struct DocumentView {
    pub trunk_name: Name,
    pub branches: Map<Name, StoredView>,
}

impl View for StoredBranch {
    type V = StoredView;

    open spec fn view(&self) -> StoredView {
        StoredView {
            parent: opt_view(self.parent),
            children: names(self.children@).to_set(),
            parent_oid_cache: opt_view(self.local.parent_oid_cache),
            remote: self.remote,
        }
    }
}

impl StoreDocument {
    /// Whether an entry of the list has the name `name`.
    pub open spec fn has(&self, name: Name) -> bool {
        exists|i: int| 0 <= i < self.branches.len() && self.branches[i].name@ == name
    }

    /// A position at which the list holds the entry named `name`.
    pub open spec fn position(&self, name: Name) -> int {
        choose|i: int| 0 <= i < self.branches.len() && self.branches[i].name@ == name
    }

    /// Whether no name has two entries and no entry lists a child twice.
    pub open spec fn distinct(&self) -> bool {
        &&& forall|i: int, j: int|
            0 <= i < j < self.branches.len() ==> self.branches[i].name@ != self.branches[j].name@
        &&& forall|i: int|
            0 <= i < self.branches.len() ==> names(
                (#[trigger] self.branches[i]).branch.children@,
            ).no_duplicates()
    }
}

impl View for StoreDocument {
    type V = DocumentView;

    open spec fn view(&self) -> DocumentView {
        DocumentView {
            trunk_name: self.trunk_name@,
            branches: Map::new(
                |n: Name| self.has(n),
                |n: Name| self.branches[self.position(n)].branch@,
            ),
        }
    }
}

/// The document that persists a tree: each node under its name.
pub open spec fn document_of(t: TreeView) -> DocumentView {
    DocumentView {
        trunk_name: t.trunk_name,
        branches: Map::new(
            |n: Name| t.contains(n),
            |n: Name|
                StoredView {
                    parent: t.branches[n].parent,
                    children: t.branches[n].children,
                    parent_oid_cache: t.branches[n].parent_oid_cache,
                    remote: t.branches[n].remote,
                },
        ),
    }
}

/// The tree that a document describes: each entry becomes the node of the name
/// that it is stored under.
pub open spec fn tree_of(d: DocumentView) -> TreeView {
    TreeView {
        trunk_name: d.trunk_name,
        branches: Map::new(
            |n: Name| d.branches.contains_key(n),
            |n: Name|
                BranchView {
                    name: n,
                    parent: d.branches[n].parent,
                    children: d.branches[n].children,
                    parent_oid_cache: d.branches[n].parent_oid_cache,
                    remote: d.branches[n].remote,
                },
        ),
    }
}

/// Whether a document describes a valid tree.
pub open spec fn valid_document(d: DocumentView) -> bool {
    tree_of(d).wf()
}

/// A valid tree that is persisted and read back is the same tree: its document
/// is valid, and describes it.
pub proof fn lemma_document_roundtrip(t: TreeView)
    requires
        t.wf(),
    ensures
        tree_of(document_of(t)) == t,
        valid_document(document_of(t)),
{
    let u = tree_of(document_of(t));
    assert forall|n: Name| u.branches.contains_key(n) implies u.branches[n] == t.branches[n] by {
        assert(t.contains(n));
    }
    assert(u.branches =~= t.branches);
}

/// Whether every branch but the trunk names a tracked parent.
pub open spec fn parents_tracked(t: TreeView) -> bool {
    forall|n: Name| #[trigger]
        t.contains(n) && n != t.trunk_name ==> t.parent_of(n) is Some && t.contains(
            t.parent_of(n).unwrap(),
        )
}

/// Whether the children of each branch are the branches that name it as their
/// parent.
pub open spec fn children_match(t: TreeView) -> bool {
    forall|p: Name, c: Name|
        t.contains(p) ==> (#[trigger] t.branches[p].children.contains(c) <==> t.contains(c)
            && t.parent_of(c) == Some(p))
}

impl StackTree {
    /// The domain of the model is finite, and each node is stored under its name.
    pub proof fn lemma_model_basics(&self)
        requires
            self.distinct(),
        ensures
            self@.branches.dom().finite(),
            self@.branches.dom() == self.arena_names().to_set(),
            forall|n: Name| #[trigger] self@.contains(n) ==> self@.branches[n].name == n,
    {
        let listed = self.arena_names();
        vstd::seq_lib::seq_to_set_is_finite(listed);
        assert(self@.branches.dom() =~= listed.to_set()) by {
            assert forall|n: Name| self@.branches.dom().contains(n) <==> listed.to_set().contains(n) by {
                if self.tracks(n) {
                    assert(listed[self.index_of(n)] == n);
                }
                if listed.contains(n) {
                    let i = choose|i: int| 0 <= i < listed.len() && listed[i] == n;
                    assert(self.name_at(i) == n);
                }
            }
        }
        assert forall|n: Name| #[trigger] self@.contains(n) implies self@.branches[n].name == n by {
            self.lemma_at(self.index_of(n));
        }
    }

    /// The model tracks as many branches as the list has nodes.
    pub proof fn lemma_size(&self)
        requires
            self.distinct(),
        ensures
            self@.branches.dom().len() == self.branches.len(),
    {
        self.lemma_model_basics();
        assert(self.arena_names().no_duplicates());
        self.arena_names().unique_seq_to_set();
    }

    /// Whether no two nodes have the same name.
    fn names_distinct(&self) -> (r: bool)
        ensures
            r == (forall|i: int, j: int|
                0 <= i < j < self.branches.len() ==> self.name_at(i) != self.name_at(j)),
    {
        let mut j: usize = 0;
        while j < self.branches.len()
            invariant
                j <= self.branches.len(),
                forall|a: int, b: int| 0 <= a < b < j ==> self.name_at(a) != self.name_at(b),
            decreases self.branches.len() - j,
        {
            match self.find_index(self.branches[j].local.branch_name.as_str()) {
                Some(first) => {
                    if first != j {
                        assert(first < j) by {
                            if first > j {
                                assert(self.name_at(j as int) != self.branches[j as int].local.branch_name@);
                            }
                        }
                        assert(self.name_at(first as int) == self.name_at(j as int));
                        return false;
                    }
                },
                None => {
                    assert(self.name_at(j as int) == self.name_at(j as int));
                    return false;
                },
            }
            j += 1;
        }
        true
    }

    /// Whether no node lists a child twice.
    fn children_distinct(&self) -> (r: bool)
        ensures
            r == (forall|i: int|
                0 <= i < self.branches.len() ==> (#[trigger] self.branches[i]).children_distinct()),
    {
        let mut i: usize = 0;
        while i < self.branches.len()
            invariant
                i <= self.branches.len(),
                forall|a: int| 0 <= a < i ==> (#[trigger] self.branches[a]).children_distinct(),
            decreases self.branches.len() - i,
        {
            let kids = &self.branches[i].children;
            let mut b: usize = 0;
            while b < kids.len()
                invariant
                    i < self.branches.len(),
                    kids == &self.branches[i as int].children,
                    b <= kids.len(),
                    forall|x: int, y: int| 0 <= x < y < b ==> names(kids@)[x] != names(kids@)[y],
                decreases kids.len() - b,
            {
                let mut a: usize = 0;
                while a < b
                    invariant
                        i < self.branches.len(),
                        kids == &self.branches[i as int].children,
                        b < kids.len(),
                        a <= b,
                        forall|x: int| 0 <= x < a ==> names(kids@)[x] != names(kids@)[b as int],
                    decreases b - a,
                {
                    if str_eq(kids[a].as_str(), kids[b].as_str()) {
                        assert(names(kids@)[a as int] == names(kids@)[b as int]);
                        assert(!self.branches[i as int].children_distinct());
                        return false;
                    }
                    a += 1;
                }
                b += 1;
            }
            i += 1;
        }
        true
    }

    /// Whether the trunk is tracked and has no parent.
    fn trunk_is_root(&self) -> (r: bool)
        requires
            self.distinct(),
        ensures
            r == (self@.contains(self@.trunk_name) && self@.parent_of(self@.trunk_name) is None),
    {
        match self.find_index(self.trunk_name.as_str()) {
            Some(i) => {
                proof {
                    self.lemma_at(i as int);
                }
                self.branches[i].parent.is_none()
            },
            None => false,
        }
    }

    /// Whether every node but the trunk names a parent that is tracked.
    fn parents_are_tracked(&self) -> (r: bool)
        requires
            self.distinct(),
        ensures
            r == parents_tracked(self@),
    {
        let mut i: usize = 0;
        while i < self.branches.len()
            invariant
                self.distinct(),
                i <= self.branches.len(),
                forall|a: int|
                    0 <= a < i && self.name_at(a) != self@.trunk_name ==> self@.parent_of(
                        #[trigger] self.name_at(a),
                    ) is Some && self@.contains(self@.parent_of(self.name_at(a)).unwrap()),
            decreases self.branches.len() - i,
        {
            proof {
                self.lemma_at(i as int);
            }
            let node = &self.branches[i];
            if !str_eq(node.local.branch_name.as_str(), self.trunk_name.as_str()) {
                match &node.parent {
                    None => {
                        return false;
                    },
                    Some(p) => {
                        if self.find_index(p.as_str()).is_none() {
                            return false;
                        }
                    },
                }
            }
            i += 1;
        }
        proof {
            assert forall|n: Name| #[trigger] self@.contains(n) && n != self@.trunk_name implies self@.parent_of(
                n,
            ) is Some && self@.contains(self@.parent_of(n).unwrap()) by {
                let a = self.index_of(n);
                assert(self.name_at(a) == n);
            }
        }
        true
    }

    /// Whether each node is the parent of its children, and is a child of its
    /// parent.
    fn children_are_linked(&self) -> (r: bool)
        requires
            self.distinct(),
        ensures
            r == children_match(self@),
    {
        let ghost t = self@;
        let mut i: usize = 0;
        while i < self.branches.len()
            invariant
                self.distinct(),
                t == self@,
                i <= self.branches.len(),
                forall|a: int, c: Name|
                    0 <= a < i && #[trigger] t.branches[self.name_at(a)].children.contains(c) ==> t.contains(
                        c,
                    ) && t.parent_of(c) == Some(self.name_at(a)),
                forall|a: int|
                    0 <= a < i && t.parent_of(#[trigger] self.name_at(a)) is Some && t.contains(
                        t.parent_of(self.name_at(a)).unwrap(),
                    ) ==> t.branches[t.parent_of(self.name_at(a)).unwrap()].children.contains(
                        self.name_at(a),
                    ),
            decreases self.branches.len() - i,
        {
            let ghost here = self.name_at(i as int);
            proof {
                self.lemma_at(i as int);
            }
            let node = &self.branches[i];
            let ghost kids = names(node.children@);
            let mut k: usize = 0;
            while k < node.children.len()
                invariant
                    self.distinct(),
                    t == self@,
                    i < self.branches.len(),
                    node == &self.branches[i as int],
                    here == self.name_at(i as int),
                    kids == names(node.children@),
                    t.contains(here),
                    t.branches[here] == node@,
                    k <= node.children.len(),
                    forall|x: int|
                        0 <= x < k ==> t.contains(#[trigger] kids[x]) && t.parent_of(kids[x]) == Some(here),
                decreases node.children.len() - k,
            {
                let ghost c = kids[k as int];
                assert(kids.to_set().contains(c));
                match self.find_index(node.children[k].as_str()) {
                    None => {
                        assert(t.branches[here].children.contains(c) && !t.contains(c));
                        return false;
                    },
                    Some(ci) => {
                        proof {
                            self.lemma_at(ci as int);
                        }
                        let linked = match &self.branches[ci].parent {
                            Some(p) => str_eq(p.as_str(), node.local.branch_name.as_str()),
                            None => false,
                        };
                        if !linked {
                            assert(t.branches[here].children.contains(c) && t.parent_of(c) != Some(here));
                            return false;
                        }
                    },
                }
                k += 1;
            }
            assert forall|c: Name| #[trigger] t.branches[here].children.contains(c) implies t.contains(c)
                && t.parent_of(c) == Some(here) by {
                let x = choose|x: int| 0 <= x < kids.len() && kids[x] == c;
                assert(t.contains(kids[x]));
            }
            match &node.parent {
                None => {},
                Some(p) => {
                    match self.find_index(p.as_str()) {
                        None => {},
                        Some(pi) => {
                            proof {
                                self.lemma_at(pi as int);
                            }
                            let siblings = &self.branches[pi].children;
                            let mut k: usize = 0;
                            let mut found = false;
                            while k < siblings.len()
                                invariant
                                    k <= siblings.len(),
                                    found <==> exists|x: int|
                                        0 <= x < k && names(siblings@)[x] == here,
                                    here == node.local.branch_name@,
                                decreases siblings.len() - k,
                            {
                                if str_eq(siblings[k].as_str(), node.local.branch_name.as_str()) {
                                    assert(names(siblings@)[k as int] == here);
                                    found = true;
                                }
                                k += 1;
                            }
                            if !found {
                                assert(!names(siblings@).contains(here));
                                assert(t.contains(p@) && t.contains(here) && t.parent_of(here) == Some(p@)
                                    && !t.branches[p@].children.contains(here));
                                return false;
                            }
                            assert(names(siblings@).to_set().contains(here)) by {
                                let x = choose|x: int| 0 <= x < k && names(siblings@)[x] == here;
                                assert(names(siblings@)[x] == here);
                            }
                        },
                    }
                },
            }
            i += 1;
        }
        proof {
            assert forall|p: Name, c: Name| t.contains(p) implies (#[trigger] t.branches[p].children.contains(
                c,
            ) <==> t.contains(c) && t.parent_of(c) == Some(p)) by {
                let a = self.index_of(p);
                assert(self.name_at(a) == p);
                if t.contains(c) && t.parent_of(c) == Some(p) {
                    let b = self.index_of(c);
                    assert(self.name_at(b) == c);
                }
            }
        }
        true
    }

    /// Whether the trunk is reached from every node by following parents.
    fn all_rooted(&self) -> (r: bool)
        requires
            self.distinct(),
            parents_tracked(self@),
        ensures
            r ==> forall|n: Name| #[trigger] self@.contains(n) ==> self@.rooted(n),
            self@.wf() ==> r,
    {
        let ghost t = self@;
        let limit: usize = self.branches.len();
        let mut i: usize = 0;
        while i < self.branches.len()
            invariant
                self.distinct(),
                parents_tracked(t),
                t == self@,
                limit == self.branches.len(),
                i <= self.branches.len(),
                forall|a: int| 0 <= a < i ==> t.rooted(#[trigger] self.name_at(a)),
            decreases self.branches.len() - i,
        {
            let ghost start = self.name_at(i as int);
            let mut at: usize = i;
            let mut steps: usize = 0;
            proof {
                self.lemma_at(i as int);
                if t.wf() {
                    lemma_depth_bound(t, start);
                    self.lemma_size();
                }
            }
            loop
                invariant
                    self.distinct(),
                    parents_tracked(t),
                    t == self@,
                    limit == self.branches.len(),
                    i < self.branches.len(),
                    start == self.name_at(i as int),
                    at < self.branches.len(),
                    steps <= limit,
                    ascends(t, start, self.name_at(at as int), steps as nat),
                    t.wf() ==> t.depth(self.name_at(at as int)) + steps == t.depth(start) && t.depth(start)
                        < limit,
                ensures
                    t.rooted(start),
                decreases limit - steps,
            {
                let ghost here = self.name_at(at as int);
                proof {
                    self.lemma_at(at as int);
                }
                if str_eq(self.branches[at].local.branch_name.as_str(), self.trunk_name.as_str()) {
                    proof {
                        lemma_ascends_to_trunk(t, start, steps as nat);
                    }
                    break ;
                }
                if steps == limit {
                    proof {
                        if t.wf() {
                            lemma_depth(t, here);
                        }
                    }
                    return false;
                }
                let up: usize = match &self.branches[at].parent {
                    Some(p) => self.find_index(p.as_str()).unwrap(),
                    None => {
                        return false;
                    },
                };
                proof {
                    self.lemma_at(up as int);
                    lemma_ascends_more(t, start, here, steps as nat);
                    if t.wf() {
                        lemma_depth(t, here);
                    }
                }
                at = up;
                steps += 1;
            }
            i += 1;
        }
        proof {
            assert forall|n: Name| #[trigger] self@.contains(n) implies self@.rooted(n) by {
                let a = self.index_of(n);
                assert(self.name_at(a) == n);
            }
        }
        true
    }

    /// Whether the list is a valid tree.
    pub fn is_valid(&self) -> (r: bool)
        ensures
            r == self.wf(),
    {
        if !self.names_distinct() || !self.children_distinct() {
            return false;
        }
        proof {
            self.lemma_model_basics();
        }
        if !self.trunk_is_root() || !self.parents_are_tracked() || !self.children_are_linked() {
            return false;
        }
        self.all_rooted()
    }

    /// The document that persists the tree.
    pub fn to_document(&self) -> (doc: StoreDocument)
        requires
            self.wf(),
        ensures
            doc.distinct(),
            doc@ == document_of(self@),
            valid_document(doc@),
    {
        let mut entries: Vec<StoredEntry> = Vec::new();
        let mut i: usize = 0;
        while i < self.branches.len()
            invariant
                i <= self.branches.len(),
                entries.len() == i,
                forall|a: int|
                    0 <= a < i ==> (#[trigger] entries[a]).name@ == self.name_at(a) && names(
                        entries[a].branch.children@,
                    ) == names(self.branches[a].children@) && opt_view(entries[a].branch.parent) == opt_view(
                        self.branches[a].parent,
                    ) && opt_view(entries[a].branch.local.parent_oid_cache) == opt_view(
                        self.branches[a].local.parent_oid_cache,
                    ) && entries[a].branch.remote == self.branches[a].remote,
            decreases self.branches.len() - i,
        {
            let node = &self.branches[i];
            let entry = StoredEntry {
                name: node.local.branch_name.clone(),
                branch: StoredBranch {
                    parent: copy_opt(&node.parent),
                    children: copy_names(&node.children),
                    local: StoredLocal { parent_oid_cache: copy_opt(&node.local.parent_oid_cache) },
                    remote: node.remote,
                },
            };
            entries.push(entry);
            i += 1;
        }
        let doc = StoreDocument { trunk_name: self.trunk_name.clone(), branches: entries };
        proof {
            let want = document_of(self@);
            assert(doc.distinct()) by {
                assert forall|a: int| 0 <= a < doc.branches.len() implies names(
                    (#[trigger] doc.branches[a]).branch.children@,
                ).no_duplicates() by {
                    assert(self.branches[a].children_distinct());
                }
            }
            assert forall|n: Name| doc@.branches.contains_key(n) implies want.branches.contains_key(n)
                && doc@.branches[n] == want.branches[n] by {
                let a = doc.position(n);
                assert(self.name_at(a) == n);
                self.lemma_at(a);
            }
            assert forall|n: Name| want.branches.contains_key(n) implies doc@.branches.contains_key(n) by {
                let a = self.index_of(n);
                assert(doc.branches[a].name@ == n);
            }
            assert(doc@.branches =~= want.branches);
            lemma_document_roundtrip(self@);
        }
        doc
    }

    /// The tree that a document describes. Fails with `StoreCorrupt` if the
    /// document names a branch twice, lists a child twice, or does not describe a
    /// valid tree.
    pub fn from_document(doc: StoreDocument) -> (r: Result<StackTree, StError>)
        ensures
            r is Ok <==> doc.distinct() && valid_document(doc@),
            r matches Ok(tree) ==> tree.wf() && tree@ == tree_of(doc@),
            r matches Err(e) ==> e is StoreCorrupt,
    {
        let ghost given = doc;
        let mut entries = reversed(doc.branches);
        let mut nodes: Vec<TrackedBranch> = Vec::new();
        let total: usize = entries.len();
        let mut i: usize = 0;
        while i < total
            invariant
                total == given.branches.len(),
                i <= total,
                nodes.len() == i,
                entries.len() == total - i,
                forall|a: int| 0 <= a < total - i ==> (#[trigger] entries[a]) == given.branches[total - 1 - a],
                forall|a: int|
                    0 <= a < i ==> (#[trigger] nodes[a]).local.branch_name == given.branches[a].name
                        && nodes[a].children == given.branches[a].branch.children && nodes[a].parent
                        == given.branches[a].branch.parent && nodes[a].local.parent_oid_cache
                        == given.branches[a].branch.local.parent_oid_cache && nodes[a].remote
                        == given.branches[a].branch.remote,
            decreases total - i,
        {
            let entry = entries.pop().unwrap();
            nodes.push(
                TrackedBranch {
                    parent: entry.branch.parent,
                    children: entry.branch.children,
                    local: LocalMetadata {
                        branch_name: entry.name,
                        parent_oid_cache: entry.branch.local.parent_oid_cache,
                    },
                    remote: entry.branch.remote,
                },
            );
            i += 1;
        }
        let tree = StackTree { trunk_name: doc.trunk_name, branches: nodes };
        let ok = tree.is_valid();
        proof {
            assert forall|a: int| 0 <= a < given.branches.len() implies tree.name_at(a)
                == given.branches[a].name@ && tree.branches[a].children == given.branches[a].branch.children by {
                assert(nodes[a].local.branch_name == given.branches[a].name);
            }
            assert(tree.distinct() <==> given.distinct()) by {
                if tree.distinct() {
                    assert forall|a: int, b: int| 0 <= a < b < given.branches.len() implies given.branches[a].name@
                        != given.branches[b].name@ by {
                        assert(tree.name_at(a) != tree.name_at(b));
                    }
                    assert forall|a: int| 0 <= a < given.branches.len() implies names(
                        (#[trigger] given.branches[a]).branch.children@,
                    ).no_duplicates() by {
                        assert(tree.branches[a].children_distinct());
                    }
                }
                if given.distinct() {
                    assert forall|a: int, b: int| 0 <= a < b < tree.branches.len() implies tree.name_at(a)
                        != tree.name_at(b) by {
                        assert(given.branches[a].name@ != given.branches[b].name@);
                    }
                    assert forall|a: int| 0 <= a < tree.branches.len() implies (
                    #[trigger] tree.branches[a]).children_distinct() by {
                        assert(names(given.branches[a].branch.children@).no_duplicates());
                    }
                }
            }
            if given.distinct() {
                let want = tree_of(given@);
                assert forall|n: Name| tree@.branches.contains_key(n) implies want.branches.contains_key(n)
                    && tree@.branches[n] == want.branches[n] by {
                    let a = tree.index_of(n);
                    assert(given.branches[a].name@ == n);
                    tree.lemma_at(a);
                }
                assert forall|n: Name| want.branches.contains_key(n) implies tree@.branches.contains_key(
                    n,
                ) by {
                    let a = given.position(n);
                    assert(tree.name_at(a) == n);
                }
                assert(tree@.branches =~= want.branches);
            }
        }
        if ok {
            Ok(tree)
        } else {
            Err(StError::StoreCorrupt)
        }
    }
}

/// The entries of a list, the last of them first.
fn reversed(list: Vec<StoredEntry>) -> (r: Vec<StoredEntry>)
    ensures
        r.len() == list.len(),
        forall|a: int| 0 <= a < r.len() ==> #[trigger] r[a] == list[list.len() - 1 - a],
{
    let ghost given = list@;
    let mut rest = list;
    let mut out: Vec<StoredEntry> = Vec::new();
    while rest.len() > 0
        invariant
            rest.len() + out.len() == given.len(),
            forall|a: int| 0 <= a < rest.len() ==> #[trigger] rest[a] == given[a],
            forall|a: int| 0 <= a < out.len() ==> #[trigger] out[a] == given[given.len() - 1 - a],
        decreases rest.len(),
    {
        let last = rest.pop().unwrap();
        out.push(last);
    }
    out
}

/// A copy of an optional string.
fn copy_opt(o: &Option<String>) -> (r: Option<String>)
    ensures
        opt_view(r) == opt_view(*o),
{
    match o {
        Some(s) => Some(s.clone()),
        None => None,
    }
}

/// A copy of a list of names.
fn copy_names(list: &Vec<String>) -> (r: Vec<String>)
    ensures
        names(r@) == names(list@),
{
    let mut out: Vec<String> = Vec::new();
    let mut i: usize = 0;
    while i < list.len()
        invariant
            i <= list.len(),
            out.len() == i,
            forall|a: int| 0 <= a < i ==> out[a]@ == list[a]@,
        decreases list.len() - i,
    {
        out.push(list[i].clone());
        i += 1;
    }
    assert(names(out@) =~= names(list@));
    out
}

} // verus!
