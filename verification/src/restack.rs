//! Staleness of a branch with respect to its parent, and the pass that brings
//! the branches of a stack up to date, one rebase at a time.

use crate::errors::StError;
use crate::model::{lemma_climbs_unique, lemma_depth, lemma_set_metadata_wf, Name, TreeView};
use crate::text::str_eq;
use crate::tree::{names, StackTree};
use vstd::prelude::*;

verus! {

/// The commit that a local branch points to.
#[derive(Debug, Clone, PartialEq, Eq)]
pub struct BranchTip {
    /// The name of the branch.
    pub branch: String,
    /// The id of the commit at its tip.
    pub oid: String,
}

/// The tips of the local branches of a repository, as they were read. Where a
/// branch is listed more than once, its last entry counts.
#[derive(Debug, Clone, PartialEq, Eq)]
pub struct RepoTips {
    /// The entries, in the order in which they were recorded.
    pub tips: Vec<BranchTip>,
}

/// The map from branch names to tips that a list of entries stands for.
pub open spec fn tips_map(entries: Seq<BranchTip>) -> Map<Name, Seq<char>>
    decreases entries.len(),
{
    if entries.len() == 0 {
        Map::empty()
    } else {
        tips_map(entries.drop_last()).insert(entries.last().branch@, entries.last().oid@)
    }
}

impl View for RepoTips {
    type V = Map<Name, Seq<char>>;

    open spec fn view(&self) -> Map<Name, Seq<char>> {
        tips_map(self.tips@)
    }
}

impl RepoTips {
    /// No tip is known.
    pub fn new() -> (r: Self)
        ensures
            r@ == Map::<Name, Seq<char>>::empty(),
    {
        RepoTips { tips: Vec::new() }
    }

    /// Records that `branch` points to `oid`, in place of what was known of it.
    pub fn set(&mut self, branch: String, oid: String)
        ensures
            final(self)@ == old(self)@.insert(branch@, oid@),
    {
        self.tips.push(BranchTip { branch, oid });
        assert(self.tips@.drop_last() =~= old(self).tips@);
    }

    /// The tip of `branch`, if it is known.
    pub fn get(&self, branch: &str) -> (r: Option<&String>)
        ensures
            r is Some <==> self@.contains_key(branch@),
            r matches Some(oid) ==> oid@ == self@[branch@],
    {
        let mut i: usize = self.tips.len();
        proof {
            assert(self.tips@.take(self.tips.len() as int) =~= self.tips@);
        }
        while i > 0
            invariant
                i <= self.tips.len(),
                self@.contains_key(branch@) <==> tips_map(self.tips@.take(i as int)).contains_key(
                    branch@,
                ),
                self@.contains_key(branch@) ==> self@[branch@] == tips_map(self.tips@.take(i as int))[branch@],
            decreases i,
        {
            proof {
                assert(self.tips@.take(i as int).drop_last() =~= self.tips@.take(i - 1));
            }
            i -= 1;
            if str_eq(self.tips[i].branch.as_str(), branch) {
                return Some(&self.tips[i].oid);
            }
        }
        None
    }
}

/// Whether `name`, `k` steps below the trunk, or a branch above it has no
/// cached parent commit, or one that is not its parent's tip.
pub open spec fn stale(t: TreeView, tips: Map<Name, Seq<char>>, name: Name, k: nat) -> bool
    decreases k,
{
    if name == t.trunk_name || k == 0 {
        false
    } else {
        let parent = t.parent_of(name).unwrap();
        ||| !fresh_on_parent(t, tips, name)
        ||| stale(t, tips, parent, (k - 1) as nat)
    }
}

/// Whether the cached parent commit of `name` is the tip of its parent.
pub open spec fn fresh_on_parent(t: TreeView, tips: Map<Name, Seq<char>>, name: Name) -> bool {
    let parent = t.parent_of(name).unwrap();
    &&& tips.contains_key(parent)
    &&& t.branches[name].parent_oid_cache == Some(tips[parent])
}

/// Whether `name` has to be rebased: it is not the trunk, and it or a branch
/// between it and the trunk is not based on its parent's tip.
pub open spec fn needs_restack(t: TreeView, tips: Map<Name, Seq<char>>, name: Name) -> bool {
    stale(t, tips, name, t.depth(name))
}

impl StackTree {
    /// Whether `branch_name` has to be rebased onto its parent: never the trunk;
    /// any other branch if its cached parent commit is missing or is not the
    /// parent's tip in `tips`, or if its parent has to be rebased. Fails if the
    /// branch is not tracked.
    pub fn needs_restack(&self, tips: &RepoTips, branch_name: &str) -> (r: Result<bool, StError>)
        requires
            self.wf(),
        ensures
            r is Ok <==> self@.contains(branch_name@),
            r matches Ok(b) ==> b == needs_restack(self@, tips@, branch_name@),
            branch_name@ == self@.trunk_name ==> r == Ok::<bool, StError>(false),
            r matches Err(e) ==> e matches StError::BranchNotTracked(n) && n@ == branch_name@,
    {
        let mut at: usize = match self.find_index(branch_name) {
            Some(i) => i,
            None => {
                return Err(StError::BranchNotTracked(branch_name.to_owned()));
            },
        };
        let ghost t = self@;
        proof {
            self.lemma_at(at as int);
            lemma_depth(t, branch_name@);
        }
        loop
            invariant
                self.wf(),
                t == self@,
                at < self.branches.len(),
                t.contains(branch_name@),
                needs_restack(t, tips@, branch_name@) == needs_restack(t, tips@, self.name_at(at as int)),
            decreases t.depth(self.name_at(at as int)),
        {
            let ghost here = self.name_at(at as int);
            proof {
                self.lemma_at(at as int);
                lemma_depth(t, here);
            }
            let node = &self.branches[at];
            let parent = match &node.parent {
                Some(p) => p,
                None => {
                    return Ok(false);
                },
            };
            let cache = match &node.local.parent_oid_cache {
                Some(c) => c,
                None => {
                    return Ok(true);
                },
            };
            match tips.get(parent.as_str()) {
                None => {
                    return Ok(true);
                },
                Some(tip) => {
                    if !str_eq(tip.as_str(), cache.as_str()) {
                        return Ok(true);
                    }
                },
            }
            proof {
                assert(t.contains(parent@));
                lemma_depth(t, parent@);
            }
            let up: usize = self.find_index(parent.as_str()).unwrap();
            proof {
                self.lemma_at(up as int);
            }
            at = up;
        }
    }

    /// Takes note of how the rebase of `branch_name` onto its parent ended. After
    /// a rebase that went through, the branch has the parent's tip as its cached
    /// parent commit. After a conflict the pass is over: nothing changes, and the
    /// branch is reported. Fails, and changes nothing, if the branch is not
    /// tracked, too.
    pub fn finish_rebase(&mut self, branch_name: &str, outcome: RebaseOutcome) -> (r: Result<
        (),
        StError,
    >)
        requires
            old(self).wf(),
        ensures
            final(self).wf(),
            r is Ok <==> old(self)@.contains(branch_name@) && outcome is Rebased,
            r is Ok ==> final(self)@ == old(self)@.set_cache(
                branch_name@,
                Some(outcome->parent_tip@),
            ),
            r is Err ==> *final(self) == *old(self),
            r matches Err(e) ==> if outcome is Conflict {
                e matches StError::RebaseConflict(n) && n@ == branch_name@
            } else {
                e matches StError::BranchNotTracked(n) && n@ == branch_name@
            },
    {
        let parent_tip = match outcome {
            RebaseOutcome::Conflict => {
                return Err(StError::RebaseConflict(branch_name.to_owned()));
            },
            RebaseOutcome::Rebased { parent_tip } => parent_tip,
        };
        let at: usize = match self.find_index(branch_name) {
            Some(i) => i,
            None => {
                return Err(StError::BranchNotTracked(branch_name.to_owned()));
            },
        };
        let ghost before = *self;
        self.branches[at].local.parent_oid_cache = Some(parent_tip);
        proof {
            before.lemma_at(at as int);
            self.lemma_changed_at(before, at as int, before@.set_cache(branch_name@, Some(parent_tip@)));
            lemma_set_metadata_wf(before@, branch_name@, Some(parent_tip@), None);
        }
        Ok(())
    }
}

/// How a rebase ended.
#[derive(Debug, Clone, PartialEq, Eq)]
pub enum RebaseOutcome {
    /// The branch is based on its parent, whose tip is the commit `parent_tip`.
    Rebased { parent_tip: String },
    /// The rebase stopped at a conflict.
    Conflict,
}

/// The rebase that a restack pass asks for next.
#[derive(Debug, Clone, PartialEq, Eq)]
pub struct RebaseStep {
    /// The position in the stack of the branch to rebase.
    pub index: usize,
    /// The branch to rebase.
    pub branch: String,
    /// The branch to rebase it onto: the one before it in the stack.
    pub onto: String,
}

/// Whether the branch at position `i` of `stack` is tracked and needs no rebase.
pub open spec fn settled_at(t: TreeView, tips: Map<Name, Seq<char>>, stack: Seq<Name>, i: int) -> bool {
    t.contains(stack[i]) && !needs_restack(t, tips, stack[i])
}

impl StackTree {
    /// The next rebase of a restack pass over `stack` that has dealt with the
    /// positions before `from`: that of the first branch at or after `from`, the
    /// trunk at position 0 left out, that needs one, onto the branch before it
    /// in the stack; `None` if no branch is left that needs one. Fails at the
    /// first branch on the way that is not tracked.
    pub fn next_rebase(
        &self,
        tips: &RepoTips,
        stack: &Vec<String>,
        from: usize,
    ) -> (r: Result<Option<RebaseStep>, StError>)
        requires
            self.wf(),
        ensures
            match r {
                Ok(None) => forall|i: int|
                    1 <= i && from <= i < stack.len() ==> settled_at(self@, tips@, names(stack@), i),
                Ok(Some(step)) => {
                    &&& 1 <= step.index < stack.len()
                    &&& from <= step.index
                    &&& forall|i: int|
                        1 <= i && from <= i < step.index ==> settled_at(self@, tips@, names(stack@), i)
                    &&& self@.contains(names(stack@)[step.index as int])
                    &&& needs_restack(self@, tips@, names(stack@)[step.index as int])
                    &&& step.branch@ == names(stack@)[step.index as int]
                    &&& step.onto@ == names(stack@)[step.index - 1]
                },
                Err(e) => exists|at: int|
                    {
                        &&& 1 <= at < stack.len()
                        &&& from <= at
                        &&& forall|i: int|
                            1 <= i && from <= i < at ==> settled_at(self@, tips@, names(stack@), i)
                        &&& !self@.contains(#[trigger] names(stack@)[at])
                        &&& e matches StError::BranchNotTracked(n)
                        &&& n@ == names(stack@)[at]
                    },
            },
    {
        let mut i: usize = if from < 1 {
            1
        } else {
            from
        };
        while i < stack.len()
            invariant
                self.wf(),
                1 <= i,
                from <= i,
                forall|j: int| 1 <= j && from <= j < i ==> settled_at(self@, tips@, names(stack@), j),
            decreases stack.len() - i,
        {
            match self.needs_restack(tips, stack[i].as_str()) {
                Err(e) => {
                    assert(!self@.contains(names(stack@)[i as int]));
                    return Err(e);
                },
                Ok(true) => {
                    return Ok(
                        Some(
                            RebaseStep { index: i, branch: stack[i].clone(), onto: stack[i - 1].clone() },
                        ),
                    );
                },
                Ok(false) => {},
            }
            i += 1;
        }
        Ok(None)
    }
}

/// Whether `stack` leads from the trunk down through tracked branches, each
/// the child of the one before it.
pub open spec fn is_stack(t: TreeView, stack: Seq<Name>) -> bool {
    &&& stack.len() >= 1
    &&& stack[0] == t.trunk_name
    &&& forall|i: int|
        1 <= i < stack.len() ==> t.contains(#[trigger] stack[i]) && t.parent_of(stack[i]) == Some(
            stack[i - 1],
        )
}

/// The tree and the tips after a restack pass has dealt with the branches of
/// `stack` before position `upto` and no rebase has failed: each branch that
/// needed a rebase when its turn came was rebased onto its parent, which left
/// its own tip on the commit that `new_tips` holds at its position, and has its
/// parent's tip as its cached parent commit.
pub open spec fn restack_run(
    t: TreeView,
    tips: Map<Name, Seq<char>>,
    stack: Seq<Name>,
    new_tips: Seq<Seq<char>>,
    upto: nat,
) -> (TreeView, Map<Name, Seq<char>>)
    decreases upto,
{
    if upto <= 1 {
        (t, tips)
    } else {
        let (u, tp) = restack_run(t, tips, stack, new_tips, (upto - 1) as nat);
        let branch = stack[upto - 1];
        let parent = stack[upto - 2];
        if needs_restack(u, tp, branch) {
            (u.set_cache(branch, Some(tp[parent])), tp.insert(branch, new_tips[upto - 1]))
        } else {
            (u, tp)
        }
    }
}

/// In a stack, the branch at position `i` is `i` steps below the trunk.
pub proof fn lemma_stack_depth(t: TreeView, stack: Seq<Name>, i: int)
    requires
        t.wf(),
        is_stack(t, stack),
        0 <= i < stack.len(),
    ensures
        t.contains(stack[i]),
        t.climbs(stack[i], i as nat),
        t.depth(stack[i]) == i,
    decreases i,
{
    if i > 0 {
        lemma_stack_depth(t, stack, i - 1);
        assert(t.contains(stack[i]));
        assert(t.climbs(stack[i], i as nat));
    }
    lemma_depth(t, stack[i]);
    lemma_climbs_unique(t, stack[i], i as nat, t.depth(stack[i]));
}

/// A branch of a stack needs no rebase if it and the branches above it have
/// their parent's tip as cached parent commit.
pub proof fn lemma_fresh_chain(t: TreeView, tips: Map<Name, Seq<char>>, stack: Seq<Name>, i: int)
    requires
        t.wf(),
        is_stack(t, stack),
        0 <= i < stack.len(),
        forall|j: int| 1 <= j <= i ==> fresh_on_parent(t, tips, #[trigger] stack[j]),
    ensures
        !stale(t, tips, stack[i], i as nat),
        !needs_restack(t, tips, stack[i]),
    decreases i,
{
    lemma_stack_depth(t, stack, i);
    if i > 0 {
        lemma_fresh_chain(t, tips, stack, i - 1);
        assert(fresh_on_parent(t, tips, stack[i]));
    }
}

/// What holds after each step of a restack pass in which no rebase fails.
pub proof fn lemma_restack_run(
    t: TreeView,
    tips: Map<Name, Seq<char>>,
    stack: Seq<Name>,
    new_tips: Seq<Seq<char>>,
    upto: nat,
)
    requires
        t.wf(),
        is_stack(t, stack),
        new_tips.len() == stack.len(),
        forall|i: int| 0 <= i < stack.len() - 1 ==> tips.contains_key(#[trigger] stack[i]),
        1 <= upto <= stack.len(),
    ensures
        ({
            let (u, tp) = restack_run(t, tips, stack, new_tips, upto);
            &&& u.wf()
            &&& t.same_shape(u)
            &&& is_stack(u, stack)
            &&& forall|i: int| 0 <= i < stack.len() - 1 ==> tp.contains_key(#[trigger] stack[i])
            &&& forall|i: int| 1 <= i < upto ==> fresh_on_parent(u, tp, #[trigger] stack[i])
        }),
    decreases upto,
{
    if upto > 1 {
        lemma_restack_run(t, tips, stack, new_tips, (upto - 1) as nat);
        let (u, tp) = restack_run(t, tips, stack, new_tips, (upto - 1) as nat);
        let (v, tq) = restack_run(t, tips, stack, new_tips, upto);
        let branch = stack[upto - 1];
        let parent = stack[upto - 2];
        lemma_stack_depth(u, stack, upto - 1);
        lemma_stack_depth(u, stack, upto - 2);
        assert(u.contains(branch));
        if needs_restack(u, tp, branch) {
            lemma_set_metadata_wf(u, branch, Some(tp[parent]), None);
            assert(u.same_shape(v));
            assert(t.same_shape(v)) by {
                assert forall|n: Name| #[trigger] t.contains(n) implies t.branches[n].name
                    == v.branches[n].name && t.branches[n].parent == v.branches[n].parent
                    && t.branches[n].children == v.branches[n].children by {
                    assert(u.contains(n));
                }
            }
            assert(is_stack(v, stack)) by {
                assert forall|i: int| 1 <= i < stack.len() implies v.contains(#[trigger] stack[i])
                    && v.parent_of(stack[i]) == Some(stack[i - 1]) by {
                    assert(u.contains(stack[i]));
                }
            }
            assert forall|i: int| 1 <= i < upto implies fresh_on_parent(v, tq, #[trigger] stack[i]) by {
                lemma_stack_depth(u, stack, i);
                lemma_stack_depth(u, stack, i - 1);
                assert(u.contains(stack[i]) && u.parent_of(stack[i]) == Some(stack[i - 1]));
                assert(tp.contains_key(stack[i - 1]));
                if i < upto - 1 {
                    assert(fresh_on_parent(u, tp, stack[i]));
                    assert(stack[i] != branch);
                    assert(stack[i - 1] != branch);
                }
            }
        } else {
            assert(stale(u, tp, branch, u.depth(branch)) == false);
            assert(fresh_on_parent(u, tp, branch));
        }
    }
}

/// After a restack pass over a stack in which no rebase failed, no branch of
/// the stack needs a rebase, and each has its parent's tip as cached parent
/// commit. This holds whatever commits the rebases produced, as long as the
/// tip of every branch that has a child in the stack was known.
pub proof fn lemma_restack_settles(
    t: TreeView,
    tips: Map<Name, Seq<char>>,
    stack: Seq<Name>,
    new_tips: Seq<Seq<char>>,
)
    requires
        t.wf(),
        is_stack(t, stack),
        new_tips.len() == stack.len(),
        forall|i: int| 0 <= i < stack.len() - 1 ==> tips.contains_key(#[trigger] stack[i]),
    ensures
        ({
            let (u, tp) = restack_run(t, tips, stack, new_tips, stack.len());
            &&& u.wf()
            &&& forall|i: int| 0 <= i < stack.len() ==> !needs_restack(u, tp, #[trigger] stack[i])
            &&& forall|i: int|
                1 <= i < stack.len() ==> (#[trigger] u.branches[stack[i]]).parent_oid_cache == Some(
                    tp[stack[i - 1]],
                )
        }),
{
    lemma_restack_run(t, tips, stack, new_tips, stack.len());
    let (u, tp) = restack_run(t, tips, stack, new_tips, stack.len());
    assert forall|i: int| 0 <= i < stack.len() implies !needs_restack(u, tp, #[trigger] stack[i]) by {
        lemma_fresh_chain(u, tp, stack, i);
    }
    assert forall|i: int| 1 <= i < stack.len() implies (#[trigger] u.branches[stack[i]]).parent_oid_cache
        == Some(tp[stack[i - 1]]) by {
        assert(fresh_on_parent(u, tp, stack[i]));
    }
}

} // verus!
