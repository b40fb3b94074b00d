//! The mathematical model of a tree of tracked branches: a map from branch
//! names to nodes, each of which names its parent and its children.

use vstd::prelude::*;

verus! {

/// A branch name, as the sequence of its characters.
pub type Name = Seq<char>;

/// The pull request that a branch was submitted as.
#[derive(Debug, Clone, Copy, PartialEq, Eq)]
pub struct RemoteMetadata {
    /// The number of the pull request.
    pub pr_number: u64,
    /// The id of the navigation comment on the pull request, once there is one.
    pub comment_id: Option<u64>,
}

impl RemoteMetadata {
    /// The record of the pull request `pr_number`, which has no navigation
    /// comment yet.
    pub fn new(pr_number: u64) -> (r: Self)
        ensures
            r == (RemoteMetadata { pr_number, comment_id: None }),
    {
        RemoteMetadata { pr_number, comment_id: None }
    }
}

/// One tracked branch, as a value.
pub struct BranchView {
    /// The name of the branch.
    pub name: Name,
    /// The name of the branch that this one is based on; `None` for the trunk.
    pub parent: Option<Name>,
    /// The names of the branches that are based on this one.
    pub children: Set<Name>,
    /// The commit that the parent pointed to when this branch was last known
    /// to be based on the parent's tip.
    pub parent_oid_cache: Option<Seq<char>>,
    /// The pull request of the branch, once it was submitted.
    pub remote: Option<RemoteMetadata>,
}

/// The tree of tracked branches, as a value.
pub struct TreeView {
    /// The name of the root.
    pub trunk_name: Name,
    /// Every tracked branch, by its name.
    pub branches: Map<Name, BranchView>,
}

impl BranchView {
    /// A node without children and without a pull request.
    pub open spec fn leaf(name: Name, parent: Option<Name>, oid: Option<Seq<char>>) -> BranchView {
        BranchView { name, parent, children: Set::empty(), parent_oid_cache: oid, remote: None }
    }

    /// This node with other children.
    pub open spec fn with_children(self, children: Set<Name>) -> BranchView {
        BranchView { children, ..self }
    }

    /// This node under another parent.
    pub open spec fn with_parent(self, parent: Option<Name>) -> BranchView {
        BranchView { parent, ..self }
    }

    /// This node with another cached commit of its parent.
    pub open spec fn with_cache(self, oid: Option<Seq<char>>) -> BranchView {
        BranchView { parent_oid_cache: oid, ..self }
    }

    /// This node with another record of its pull request.
    pub open spec fn with_remote(self, remote: Option<RemoteMetadata>) -> BranchView {
        BranchView { remote, ..self }
    }
}

impl TreeView {
    /// Whether `name` is tracked.
    pub open spec fn contains(self, name: Name) -> bool {
        self.branches.contains_key(name)
    }

    /// The parent that the node of `name` records.
    pub open spec fn parent_of(self, name: Name) -> Option<Name> {
        self.branches[name].parent
    }

    /// Whether `k` steps from a node to its parent lead from `name` to the trunk.
    pub open spec fn climbs(self, name: Name, k: nat) -> bool
        decreases k,
    {
        if name == self.trunk_name {
            k == 0
        } else {
            &&& k > 0
            &&& self.contains(name)
            &&& self.parent_of(name) is Some
            &&& self.climbs(self.parent_of(name).unwrap(), (k - 1) as nat)
        }
    }

    /// Whether the trunk is reached from `name` by following parents.
    pub open spec fn rooted(self, name: Name) -> bool {
        exists|k: nat| self.climbs(name, k)
    }

    /// The number of steps from `name` up to the trunk.
    pub open spec fn depth(self, name: Name) -> nat {
        choose|k: nat| self.climbs(name, k)
    }

    /// The structural invariants of the tree: the trunk is tracked and is the one
    /// node without a parent, every other node's parent is tracked, a node's
    /// children are exactly the nodes that name it as their parent, and the
    /// trunk is reached from every node.
    pub open spec fn wf(self) -> bool {
        &&& self.branches.dom().finite()
        &&& self.contains(self.trunk_name)
        &&& self.parent_of(self.trunk_name) is None
        &&& forall|n: Name| #[trigger] self.contains(n) ==> self.branches[n].name == n
        &&& forall|n: Name| #[trigger]
            self.contains(n) && n != self.trunk_name ==> self.parent_of(n) is Some
                && self.contains(self.parent_of(n).unwrap())
        &&& forall|p: Name, c: Name|
            self.contains(p) ==> (#[trigger] self.branches[p].children.contains(c) <==> self.contains(c)
                && self.parent_of(c) == Some(p))
        &&& forall|n: Name| #[trigger] self.contains(n) ==> self.rooted(n)
    }

    /// The tree that tracks the trunk alone.
    pub open spec fn fresh(trunk: Name) -> TreeView {
        TreeView { trunk_name: trunk, branches: map![trunk => BranchView::leaf(trunk, None, None)] }
    }

    /// The tree after `child` was tracked as a new leaf under `parent`.
    pub open spec fn insert(self, parent: Name, child: Name, oid: Option<Seq<char>>) -> TreeView {
        let p = self.branches[parent];
        TreeView {
            trunk_name: self.trunk_name,
            branches: self.branches.insert(parent, p.with_children(p.children.insert(child))).insert(
                child,
                BranchView::leaf(child, Some(parent), oid),
            ),
        }
    }

    /// The node of `name` after the node of `gone` was spliced out of the tree.
    pub open spec fn spliced(self, gone: Name, name: Name) -> BranchView {
        let x = self.branches[gone];
        let b = self.branches[name];
        if x.parent == Some(name) {
            b.with_children(b.children.remove(gone).union(x.children))
        } else if b.parent == Some(gone) {
            b.with_parent(x.parent)
        } else {
            b
        }
    }

    /// The tree after `gone` was untracked: its children hang under its parent.
    pub open spec fn delete(self, gone: Name) -> TreeView {
        TreeView {
            trunk_name: self.trunk_name,
            branches: Map::new(
                |n: Name| self.contains(n) && n != gone,
                |n: Name| self.spliced(gone, n),
            ),
        }
    }

    /// The tree with another cached parent commit on the node of `name`.
    pub open spec fn set_cache(self, name: Name, oid: Option<Seq<char>>) -> TreeView {
        TreeView {
            trunk_name: self.trunk_name,
            branches: self.branches.insert(name, self.branches[name].with_cache(oid)),
        }
    }

    /// The tree with another pull-request record on the node of `name`.
    pub open spec fn set_remote(self, name: Name, remote: Option<RemoteMetadata>) -> TreeView {
        TreeView {
            trunk_name: self.trunk_name,
            branches: self.branches.insert(name, self.branches[name].with_remote(remote)),
        }
    }

    /// Whether `other` tracks the same branches under the same parents.
    pub open spec fn same_shape(self, other: TreeView) -> bool {
        &&& self.trunk_name == other.trunk_name
        &&& self.branches.dom() == other.branches.dom()
        &&& forall|n: Name| #[trigger]
            self.contains(n) ==> self.branches[n].name == other.branches[n].name
                && self.branches[n].parent == other.branches[n].parent
                && self.branches[n].children == other.branches[n].children
    }
}

/// The number of steps to the trunk is unique.
pub proof fn lemma_climbs_unique(t: TreeView, name: Name, k1: nat, k2: nat)
    requires
        t.climbs(name, k1),
        t.climbs(name, k2),
    ensures
        k1 == k2,
    decreases k1,
{
    if name != t.trunk_name {
        lemma_climbs_unique(t, t.parent_of(name).unwrap(), (k1 - 1) as nat, (k2 - 1) as nat);
    }
}

/// In a valid tree the depth of a tracked branch is the number of steps to the
/// trunk, and one more than its parent's.
pub proof fn lemma_depth(t: TreeView, name: Name)
    requires
        t.wf(),
        t.contains(name),
    ensures
        t.climbs(name, t.depth(name)),
        name == t.trunk_name ==> t.depth(name) == 0,
        name != t.trunk_name ==> t.depth(name) == t.depth(t.parent_of(name).unwrap()) + 1,
{
    assert(t.rooted(name));
    let k = t.depth(name);
    assert(t.climbs(name, k));
    if name != t.trunk_name {
        let p = t.parent_of(name).unwrap();
        assert(t.contains(p));
        assert(t.rooted(p));
        lemma_climbs_unique(t, p, t.depth(p), (k - 1) as nat);
    }
}

/// Two trees of the same shape have the same paths to the trunk.
pub proof fn lemma_same_shape_climbs(t: TreeView, u: TreeView, name: Name, k: nat)
    requires
        t.same_shape(u),
        t.climbs(name, k),
    ensures
        u.climbs(name, k),
    decreases k,
{
    if name != t.trunk_name {
        assert(t.contains(name));
        lemma_same_shape_climbs(t, u, t.parent_of(name).unwrap(), (k - 1) as nat);
    }
}

/// A tree of the same shape as a valid one is valid.
pub proof fn lemma_same_shape_wf(t: TreeView, u: TreeView)
    requires
        t.wf(),
        t.same_shape(u),
    ensures
        u.wf(),
{
    assert(u.contains(u.trunk_name));
    assert forall|n: Name| #[trigger] u.contains(n) implies u.branches[n].name == n by {
        assert(t.contains(n));
    }
    assert forall|n: Name| #[trigger] u.contains(n) && n != u.trunk_name implies u.parent_of(n) is Some
        && u.contains(u.parent_of(n).unwrap()) by {
        assert(t.contains(n));
    }
    assert forall|p: Name, c: Name| u.contains(p) implies (#[trigger] u.branches[p].children.contains(c)
        <==> u.contains(c) && u.parent_of(c) == Some(p)) by {
        assert(t.contains(p));
        assert(t.branches[p].children.contains(c) <==> t.contains(c) && t.parent_of(c) == Some(p));
        if t.contains(c) {
            assert(u.parent_of(c) == t.parent_of(c));
        }
    }
    assert forall|n: Name| #[trigger] u.contains(n) implies u.rooted(n) by {
        assert(t.contains(n));
        assert(t.rooted(n));
        let k = choose|k: nat| t.climbs(n, k);
        lemma_same_shape_climbs(t, u, n, k);
    }
}

/// The tree that tracks the trunk alone is valid.
pub proof fn lemma_fresh_wf(trunk: Name)
    ensures
        TreeView::fresh(trunk).wf(),
{
    let t = TreeView::fresh(trunk);
    assert(t.branches.dom() =~= set![trunk]);
    assert(t.contains(trunk));
    assert forall|n: Name| #[trigger] t.contains(n) implies t.rooted(n) by {
        assert(n == trunk);
        assert(t.climbs(n, 0));
    }
    assert forall|p: Name, c: Name| t.contains(p) implies (#[trigger] t.branches[p].children.contains(c)
        <==> t.contains(c) && t.parent_of(c) == Some(p)) by {
        assert(p == trunk);
    }
}

/// Paths to the trunk stay what they were when a new leaf is tracked.
pub proof fn lemma_insert_climbs(
    t: TreeView,
    parent: Name,
    child: Name,
    oid: Option<Seq<char>>,
    name: Name,
    k: nat,
)
    requires
        t.wf(),
        t.contains(parent),
        !t.contains(child),
        t.contains(name),
        t.climbs(name, k),
    ensures
        t.insert(parent, child, oid).climbs(name, k),
    decreases k,
{
    let u = t.insert(parent, child, oid);
    if name != t.trunk_name {
        let p = t.parent_of(name).unwrap();
        assert(t.contains(p));
        assert(u.contains(name));
        assert(u.parent_of(name) == Some(p));
        lemma_insert_climbs(t, parent, child, oid, p, (k - 1) as nat);
    }
}

/// Tracking an untracked branch under a tracked one keeps the tree valid, makes
/// the parent the new node's parent and adds the new node to the parent's
/// children.
pub proof fn lemma_insert_wf(t: TreeView, parent: Name, child: Name, oid: Option<Seq<char>>)
    requires
        t.wf(),
        t.contains(parent),
        !t.contains(child),
    ensures
        t.insert(parent, child, oid).wf(),
        t.insert(parent, child, oid).contains(child),
        t.insert(parent, child, oid).parent_of(child) == Some(parent),
        t.insert(parent, child, oid).branches[parent].children.contains(child),
        t.insert(parent, child, oid).branches[child].parent_oid_cache == oid,
{
    let u = t.insert(parent, child, oid);
    assert(u.branches.dom() =~= t.branches.dom().insert(child));
    assert(u.contains(u.trunk_name));
    assert(child != parent);
    assert(child != t.trunk_name);
    assert forall|n: Name| #[trigger] u.contains(n) implies u.branches[n].name == n by {
        if n != child {
            assert(t.contains(n));
        }
    }
    assert forall|n: Name| #[trigger] u.contains(n) && n != u.trunk_name implies u.parent_of(n) is Some
        && u.contains(u.parent_of(n).unwrap()) by {
        if n != child {
            assert(t.contains(n));
            assert(u.parent_of(n) == t.parent_of(n));
        }
    }
    assert forall|p: Name, c: Name| u.contains(p) implies (#[trigger] u.branches[p].children.contains(c)
        <==> u.contains(c) && u.parent_of(c) == Some(p)) by {
        if p == child {
            if t.contains(c) && t.parent_of(c) == Some(child) {
                assert(c != t.trunk_name);
                assert(t.contains(t.parent_of(c).unwrap()));
            }
        } else {
            assert(t.contains(p));
            assert(t.branches[p].children.contains(c) <==> t.contains(c) && t.parent_of(c) == Some(p));
            if c != child && t.contains(c) {
                assert(u.parent_of(c) == t.parent_of(c));
            }
        }
    }
    assert forall|n: Name| #[trigger] u.contains(n) implies u.rooted(n) by {
        if n == child {
            assert(t.rooted(parent));
            let k = choose|k: nat| t.climbs(parent, k);
            lemma_insert_climbs(t, parent, child, oid, parent, k);
            assert(u.climbs(child, k + 1));
        } else {
            assert(t.contains(n));
            assert(t.rooted(n));
            let k = choose|k: nat| t.climbs(n, k);
            lemma_insert_climbs(t, parent, child, oid, n, k);
        }
    }
}

/// After a branch was spliced out, every other branch still reaches the trunk,
/// by no more steps than before.
pub proof fn lemma_delete_climbs(t: TreeView, gone: Name, name: Name, k: nat) -> (j: nat)
    requires
        t.wf(),
        t.contains(gone),
        gone != t.trunk_name,
        t.contains(name),
        name != gone,
        t.climbs(name, k),
    ensures
        t.delete(gone).climbs(name, j),
        j <= k,
    decreases k,
{
    let u = t.delete(gone);
    if name == t.trunk_name {
        0
    } else {
        let p = t.parent_of(name).unwrap();
        assert(t.contains(p));
        assert(u.contains(name));
        lemma_depth(t, gone);
        lemma_depth(t, name);
        lemma_climbs_unique(t, name, k, t.depth(name));
        if p == gone {
            let g = t.parent_of(gone).unwrap();
            assert(t.contains(g));
            assert(g != gone);
            assert(t.parent_of(gone) != Some(name));
            assert(u.parent_of(name) == Some(g));
            let j = lemma_delete_climbs(t, gone, g, (k - 2) as nat);
            assert(u.climbs(name, j + 1));
            (j + 1) as nat
        } else {
            assert(u.parent_of(name) == Some(p));
            let j = lemma_delete_climbs(t, gone, p, (k - 1) as nat);
            assert(u.climbs(name, j + 1));
            (j + 1) as nat
        }
    }
}

/// Untracking a branch other than the trunk keeps the tree valid.
pub proof fn lemma_delete_wf(t: TreeView, gone: Name)
    requires
        t.wf(),
        t.contains(gone),
        gone != t.trunk_name,
    ensures
        t.delete(gone).wf(),
{
    let u = t.delete(gone);
    let x = t.branches[gone];
    let g = x.parent.unwrap();
    lemma_depth(t, gone);
    assert(t.contains(g));
    assert(g != gone);
    assert(u.branches.dom() =~= t.branches.dom().remove(gone));
    assert(u.contains(u.trunk_name));
    assert(t.parent_of(gone) != Some(t.trunk_name) ==> u.parent_of(u.trunk_name) is None);
    assert forall|n: Name| #[trigger] u.contains(n) implies u.branches[n].name == n by {
        assert(t.contains(n));
    }
    assert forall|n: Name| #[trigger] u.contains(n) && n != u.trunk_name implies u.parent_of(n) is Some
        && u.contains(u.parent_of(n).unwrap()) by {
        assert(t.contains(n));
        lemma_depth(t, n);
        if t.parent_of(n) == Some(gone) {
            assert(x.parent != Some(n));
        }
    }
    assert forall|p: Name, c: Name| u.contains(p) implies (#[trigger] u.branches[p].children.contains(c)
        <==> u.contains(c) && u.parent_of(c) == Some(p)) by {
        assert(t.contains(p));
        assert(t.branches[p].children.contains(c) <==> t.contains(c) && t.parent_of(c) == Some(p));
        assert(x.children.contains(c) <==> t.contains(c) && t.parent_of(c) == Some(gone));
        if t.contains(c) {
            lemma_depth(t, c);
        }
        lemma_depth(t, p);
    }
    assert forall|n: Name| #[trigger] u.contains(n) implies u.rooted(n) by {
        assert(t.contains(n));
        assert(t.rooted(n));
        let k = choose|k: nat| t.climbs(n, k);
        lemma_delete_climbs(t, gone, n, k);
    }
}

/// Another cached commit or pull-request record on a node leaves the shape of
/// the tree, and so its validity, as it was.
pub proof fn lemma_set_metadata_wf(
    t: TreeView,
    name: Name,
    oid: Option<Seq<char>>,
    remote: Option<RemoteMetadata>,
)
    requires
        t.wf(),
        t.contains(name),
    ensures
        t.set_cache(name, oid).wf(),
        t.set_remote(name, remote).wf(),
        t.same_shape(t.set_cache(name, oid)),
        t.same_shape(t.set_remote(name, remote)),
{
    let u = t.set_cache(name, oid);
    let v = t.set_remote(name, remote);
    assert(u.branches.dom() =~= t.branches.dom());
    assert(v.branches.dom() =~= t.branches.dom());
    lemma_same_shape_wf(t, u);
    lemma_same_shape_wf(t, v);
}

/// The names on the way from `name` up to the trunk, `k` steps away.
pub open spec fn path_names(t: TreeView, name: Name, k: nat) -> Set<Name>
    decreases k,
{
    if name == t.trunk_name || k == 0 {
        set![name]
    } else {
        path_names(t, t.parent_of(name).unwrap(), (k - 1) as nat).insert(name)
    }
}

/// The way from a branch up to the trunk passes `k + 1` tracked branches, none
/// of them deeper than the branch itself.
pub proof fn lemma_path_names(t: TreeView, name: Name, k: nat)
    requires
        t.wf(),
        t.contains(name),
        t.climbs(name, k),
    ensures
        path_names(t, name, k).finite(),
        path_names(t, name, k).len() == k + 1,
        path_names(t, name, k).subset_of(t.branches.dom()),
        forall|m: Name| #[trigger] path_names(t, name, k).contains(m) ==> t.depth(m) <= k,
    decreases k,
{
    lemma_depth(t, name);
    lemma_climbs_unique(t, name, k, t.depth(name));
    if name == t.trunk_name || k == 0 {
    } else {
        let p = t.parent_of(name).unwrap();
        assert(t.contains(p));
        lemma_path_names(t, p, (k - 1) as nat);
        let rest = path_names(t, p, (k - 1) as nat);
        assert(!rest.contains(name));
        assert(rest.insert(name).len() == rest.len() + 1);
    }
}

/// A tracked branch is fewer steps from the trunk than there are tracked
/// branches.
pub proof fn lemma_depth_bound(t: TreeView, name: Name)
    requires
        t.wf(),
        t.contains(name),
    ensures
        t.depth(name) < t.branches.dom().len(),
{
    lemma_depth(t, name);
    lemma_path_names(t, name, t.depth(name));
    vstd::set_lib::lemma_len_subset(path_names(t, name, t.depth(name)), t.branches.dom());
}

/// What untracking a branch does: the branch is gone and every other branch
/// stays and still reaches the trunk; each child of the branch hangs under the
/// branch's parent, whose children are what they were, without the branch and
/// with the branch's children; every other branch keeps its parent; and every
/// branch keeps its cached commit and its pull request.
pub proof fn lemma_delete_splices(t: TreeView, gone: Name)
    requires
        t.wf(),
        t.contains(gone),
        gone != t.trunk_name,
    ensures
        t.delete(gone).wf(),
        !t.delete(gone).contains(gone),
        forall|n: Name|
            t.contains(n) && n != gone ==> #[trigger] t.delete(gone).contains(n) && t.delete(gone).rooted(
                n,
            ),
        forall|c: Name| #[trigger]
            t.branches[gone].children.contains(c) ==> t.delete(gone).contains(c) && t.delete(
                gone,
            ).parent_of(c) == t.parent_of(gone),
        t.delete(gone).branches[t.parent_of(gone).unwrap()].children == t.branches[t.parent_of(
            gone,
        ).unwrap()].children.remove(gone).union(t.branches[gone].children),
        forall|n: Name|
            t.contains(n) && n != gone && !t.branches[gone].children.contains(n) ==> #[trigger] t.delete(
                gone,
            ).parent_of(n) == t.parent_of(n),
        forall|n: Name|
            t.contains(n) && n != gone ==> (#[trigger] t.delete(gone).branches[n]).parent_oid_cache
                == t.branches[n].parent_oid_cache && t.delete(gone).branches[n].remote
                == t.branches[n].remote,
{
    let u = t.delete(gone);
    let x = t.branches[gone];
    let g = x.parent.unwrap();
    lemma_delete_wf(t, gone);
    lemma_depth(t, gone);
    assert(t.contains(g));
    lemma_depth(t, g);
    assert forall|n: Name| t.contains(n) && n != gone implies #[trigger] u.contains(n) && u.rooted(
        n,
    ) by {
        assert(u.contains(n));
    }
    assert forall|c: Name| #[trigger] x.children.contains(c) implies u.contains(c) && u.parent_of(c)
        == t.parent_of(gone) by {
        assert(t.contains(c) && t.parent_of(c) == Some(gone));
        lemma_depth(t, c);
    }
    assert forall|n: Name|
        t.contains(n) && n != gone && !x.children.contains(n) implies #[trigger] u.parent_of(n)
        == t.parent_of(n) by {
        assert(t.parent_of(n) != Some(gone));
    }
}

/// Whether `k` steps from a node to its parent lead from `from` to `to`, and
/// pass the trunk at most as the last of them.
pub open spec fn ascends(t: TreeView, from: Name, to: Name, k: nat) -> bool
    decreases k,
{
    if k == 0 {
        from == to
    } else {
        &&& from != t.trunk_name
        &&& t.contains(from)
        &&& t.parent_of(from) is Some
        &&& ascends(t, t.parent_of(from).unwrap(), to, (k - 1) as nat)
    }
}

/// Steps that lead to the trunk are the steps from a branch up to the trunk.
pub proof fn lemma_ascends_to_trunk(t: TreeView, from: Name, k: nat)
    requires
        ascends(t, from, t.trunk_name, k),
    ensures
        t.climbs(from, k),
        t.rooted(from),
    decreases k,
{
    if k > 0 {
        lemma_ascends_to_trunk(t, t.parent_of(from).unwrap(), (k - 1) as nat);
    }
    assert(t.climbs(from, k));
}

/// Steps that lead to a branch other than the trunk go on to its parent.
pub proof fn lemma_ascends_more(t: TreeView, from: Name, to: Name, k: nat)
    requires
        ascends(t, from, to, k),
        to != t.trunk_name,
        t.contains(to),
        t.parent_of(to) is Some,
    ensures
        ascends(t, from, t.parent_of(to).unwrap(), k + 1),
    decreases k,
{
    if k > 0 {
        lemma_ascends_more(t, t.parent_of(from).unwrap(), to, (k - 1) as nat);
    } else {
        assert(ascends(t, t.parent_of(to).unwrap(), t.parent_of(to).unwrap(), 0));
    }
}

/// Whether `name` is `top` or a branch below it.
pub open spec fn under(t: TreeView, top: Name, name: Name) -> bool {
    exists|k: nat| ascends(t, name, top, k)
}

/// The steps from a branch up to the trunk lead to the trunk.
pub proof fn lemma_climbs_ascends(t: TreeView, name: Name, k: nat)
    requires
        t.climbs(name, k),
    ensures
        ascends(t, name, t.trunk_name, k),
    decreases k,
{
    if name != t.trunk_name {
        lemma_climbs_ascends(t, t.parent_of(name).unwrap(), (k - 1) as nat);
    }
}

/// A branch that is reached by `k` steps up from another is tracked, and `k`
/// steps nearer to the trunk.
pub proof fn lemma_ascends_depth(t: TreeView, from: Name, to: Name, k: nat)
    requires
        t.wf(),
        t.contains(from),
        ascends(t, from, to, k),
    ensures
        t.contains(to),
        t.depth(from) == t.depth(to) + k,
    decreases k,
{
    if k > 0 {
        let p = t.parent_of(from).unwrap();
        assert(t.contains(p));
        lemma_ascends_depth(t, p, to, (k - 1) as nat);
        lemma_depth(t, from);
    }
}

/// The same number of steps up from a branch leads to the same branch.
pub proof fn lemma_ascends_unique(t: TreeView, from: Name, a: Name, b: Name, k: nat)
    requires
        ascends(t, from, a, k),
        ascends(t, from, b, k),
    ensures
        a == b,
    decreases k,
{
    if k > 0 {
        lemma_ascends_unique(t, t.parent_of(from).unwrap(), a, b, (k - 1) as nat);
    }
}

/// The way up from a branch to a branch above it passes a child of the latter,
/// one step earlier.
pub proof fn lemma_child_above(t: TreeView, top: Name, name: Name, k: nat) -> (c: Name)
    requires
        t.wf(),
        t.contains(name),
        ascends(t, name, top, k),
        k > 0,
    ensures
        t.contains(top),
        t.branches[top].children.contains(c),
        ascends(t, name, c, (k - 1) as nat),
    decreases k,
{
    let p = t.parent_of(name).unwrap();
    assert(t.contains(p));
    if k == 1 {
        assert(ascends(t, p, top, 0));
        assert(p == top);
        assert(ascends(t, name, name, 0));
        assert(t.branches[top].children.contains(name));
        name
    } else {
        lemma_child_above(t, top, p, (k - 1) as nat)
    }
}

} // verus!
