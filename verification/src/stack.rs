//! A stack of branches: each branch with its parent, its children and its
//! pull request.
use vstd::prelude::*;
use crate::collections::{Dup, StrMap, StrSet};
use crate::cache::opt_view;
use crate::github::{PullRequest, PullRequestView};
use crate::text::{views, str_eq};

verus! {

pub struct StackBranch {
    pub name: String,
    pub parent: Option<String>,
    pub children: Vec<String>,
    pub commit_hash: String,
    pub pull_request: Option<PullRequest>,
    pub is_current: bool,
}

pub open spec fn opt_pr_view(o: Option<PullRequest>) -> Option<PullRequestView> {
    match o {
        Some(pr) => Some(pr@),
        None => None,
    }
}

pub struct StackBranchView {
    pub name: Seq<char>,
    pub parent: Option<Seq<char>>,
    pub children: Seq<Seq<char>>,
    pub commit_hash: Seq<char>,
    pub pull_request: Option<PullRequestView>,
    pub is_current: bool,
}

impl View for StackBranch {
    type V = StackBranchView;

    open spec fn view(&self) -> StackBranchView {
        StackBranchView {
            name: self.name@,
            parent: opt_view(self.parent),
            children: views(self.children@),
            commit_hash: self.commit_hash@,
            pull_request: opt_pr_view(self.pull_request),
            is_current: self.is_current,
        }
    }
}

impl Dup for StackBranch {
    fn dup(&self) -> (r: Self) {
        StackBranch {
            name: self.name.clone(),
            parent: match &self.parent {
                Some(p) => Some(p.clone()),
                None => None,
            },
            children: crate::collections::dup_strings(&self.children),
            commit_hash: self.commit_hash.clone(),
            pull_request: match &self.pull_request {
                Some(pr) => Some(pr.dup()),
                None => None,
            },
            is_current: self.is_current,
        }
    }
}

pub struct Stack {
    pub branches: StrMap<StackBranch>,
    pub roots: Vec<String>,
    pub current_branch: String,
}

pub type BranchModel = Map<Seq<char>, StackBranchView>;

/// `rank` falls from child to parent and stays below the number of
/// branches: following parents never comes back to a branch.
pub open spec fn parents_ranked(bm: BranchModel, rank: spec_fn(Seq<char>) -> nat) -> bool {
    forall|k: Seq<char>|
        #[trigger] bm.contains_key(k) ==> rank(k) < bm.len() && match bm[k].parent {
            Some(p) => bm.contains_key(p) ==> rank(p) < rank(k),
            None => true,
        }
}

/// Parent links form no cycle.
pub open spec fn parents_acyclic(bm: BranchModel) -> bool {
    exists|rank: spec_fn(Seq<char>) -> nat| parents_ranked(bm, rank)
}

/// Every listed child has a record.
pub open spec fn children_recorded(bm: BranchModel) -> bool {
    forall|k: Seq<char>, i: int|
        bm.contains_key(k) && 0 <= i < bm[k].children.len() ==> #[trigger] bm.contains_key(
            #[trigger] bm[k].children[i],
        )
}

/// `b` and its ancestors, nearest first, following at most `fuel` parents.
pub open spec fn chain_up(bm: BranchModel, b: Seq<char>, fuel: nat) -> Seq<Seq<char>>
    decreases fuel,
{
    if fuel == 0 || !bm.contains_key(b) {
        Seq::empty()
    } else {
        seq![b] + match bm[b].parent {
            Some(p) => chain_up(bm, p, (fuel - 1) as nat),
            None => Seq::empty(),
        }
    }
}

/// `b` and its ancestors, nearest first.
pub open spec fn ancestors(bm: BranchModel, b: Seq<char>) -> Seq<Seq<char>> {
    chain_up(bm, b, bm.len())
}

/// `path` follows child links from its first element to its last.
pub open spec fn child_path(bm: BranchModel, path: Seq<Seq<char>>) -> bool {
    &&& path.len() >= 1
    &&& forall|i: int|
        0 <= i < path.len() - 1 ==> bm.contains_key(#[trigger] path[i]) && bm[path[i]].children.contains(
            path[i + 1],
        )
}

/// The branches reachable from `b` through child links, `b` included.
pub open spec fn reachable(bm: BranchModel, b: Seq<char>) -> Set<Seq<char>> {
    Set::new(
        |x: Seq<char>|
            exists|path: Seq<Seq<char>>| #[trigger]
                child_path(bm, path) && path[0] == b && path.last() == x,
    )
}

/// The names that make up the stack of `b`: its ancestors and every
/// branch reachable from it.
pub open spec fn stack_names(bm: BranchModel, b: Seq<char>) -> Set<Seq<char>> {
    ancestors(bm, b).to_set() + reachable(bm, b).remove(b)
}

/// `ks` lists the stack of `b`: its ancestors from the root down to `b`,
/// then each other branch reachable from `b` once, every one after a
/// branch that names it as a child.
pub open spec fn stack_listing(bm: BranchModel, b: Seq<char>, ks: Seq<Seq<char>>) -> bool {
    let a = ancestors(bm, b);
    let d = ks.skip(a.len() as int);
    &&& a.len() <= ks.len()
    &&& ks.take(a.len() as int) == a.reverse()
    &&& forall|i: int| 0 <= i < ks.len() ==> bm.contains_key(#[trigger] ks[i])
    &&& d.no_duplicates()
    &&& d.to_set() == reachable(bm, b).remove(b)
    &&& forall|i: int| a.len() <= i < ks.len() ==> #[trigger] listed_after_parent(bm, ks, i)
}

/// Where the walk down the child links stands: the branches still to
/// visit, the branches seen, and the branches listed so far.
pub struct WalkState {
    pub pending: Seq<Seq<char>>,
    pub seen: Set<Seq<char>>,
    pub listed: Seq<Seq<char>>,
}

/// The walk after the children `cs` of a branch are taken in order: each
/// one not yet seen is seen, listed and left to visit.
pub open spec fn add_children(cs: Seq<Seq<char>>, st: WalkState) -> WalkState
    decreases cs.len(),
{
    if cs.len() == 0 {
        st
    } else {
        let s = add_children(cs.drop_last(), st);
        let c = cs.last();
        if s.seen.contains(c) {
            s
        } else {
            WalkState { pending: s.pending.push(c), seen: s.seen.insert(c), listed: s.listed.push(c) }
        }
    }
}

/// One step of the walk: the last branch still to visit is taken, and its
/// children are added if it is a recorded branch.
pub open spec fn walk_step(bm: BranchModel, st: WalkState) -> WalkState {
    let cur = st.pending.last();
    let rest = WalkState { pending: st.pending.drop_last(), seen: st.seen, listed: st.listed };
    if bm.contains_key(cur) {
        add_children(bm[cur].children, rest)
    } else {
        rest
    }
}

/// The walk after at most `fuel` steps; it stops when nothing is left to
/// visit.
pub open spec fn walk_down(bm: BranchModel, st: WalkState, fuel: nat) -> WalkState
    decreases fuel,
{
    if fuel == 0 || st.pending.len() == 0 {
        st
    } else {
        walk_down(bm, walk_step(bm, st), (fuel - 1) as nat)
    }
}

/// The walk from `b` before its first step.
pub open spec fn walk_start(b: Seq<char>) -> WalkState {
    WalkState { pending: seq![b], seen: set![b], listed: Seq::empty() }
}

/// One more step continues the walk while something is left to visit.
proof fn lemma_walk_next(bm: BranchModel, st: WalkState, n: nat)
    requires
        walk_down(bm, st, n).pending.len() > 0,
    ensures
        walk_down(bm, st, n + 1) == walk_step(bm, walk_down(bm, st, n)),
    decreases n,
{
    if n == 0 {
        assert(walk_down(bm, st, 0) == st);
        assert(walk_down(bm, walk_step(bm, st), 0) == walk_step(bm, st));
        assert(walk_down(bm, st, 1) == walk_down(bm, walk_step(bm, st), 0));
    } else {
        assert(st.pending.len() > 0);
        assert(walk_down(bm, st, n) == walk_down(bm, walk_step(bm, st), (n - 1) as nat));
        assert(walk_down(bm, st, n + 1) == walk_down(bm, walk_step(bm, st), n));
        lemma_walk_next(bm, walk_step(bm, st), (n - 1) as nat);
    }
}

/// Once the walk has nothing left to visit, more steps change nothing: a
/// finished walk lists the same branches whatever the number of steps
/// allowed.
pub proof fn lemma_walk_settled(bm: BranchModel, st: WalkState, f1: nat, f2: nat)
    requires
        walk_down(bm, st, f1).pending.len() == 0,
        f1 <= f2,
    ensures
        walk_down(bm, st, f2) == walk_down(bm, st, f1),
    decreases f1,
{
    if f1 > 0 && st.pending.len() > 0 {
        lemma_walk_settled(bm, walk_step(bm, st), (f1 - 1) as nat, (f2 - 1) as nat);
    }
}

/// `ks` lists the ancestors of `b` from the root down, then the branches
/// below `b` in the order of the walk from `b`, run to its end.
pub open spec fn walk_listing(bm: BranchModel, b: Seq<char>, ks: Seq<Seq<char>>) -> bool {
    exists|f: nat|
        #![trigger walk_down(bm, walk_start(b), f)]
        walk_down(bm, walk_start(b), f).pending.len() == 0 && ks == ancestors(bm, b).reverse()
            + walk_down(bm, walk_start(b), f).listed
}

/// Some branch listed before position `i` names `ks[i]` as a child.
pub open spec fn listed_after_parent(bm: BranchModel, ks: Seq<Seq<char>>, i: int) -> bool {
    exists|j: int| #![trigger ks[j]] 0 <= j < i && bm[ks[j]].children.contains(ks[i])
}

/// A pull request that keeps a stack clean: open or draft.
pub open spec fn pr_is_live(pr: Option<PullRequestView>) -> bool {
    match pr {
        Some(p) => p.state == "open"@ || p.state == "draft"@,
        None => true,
    }
}

proof fn lemma_chain_up_fuel(bm: BranchModel, rank: spec_fn(Seq<char>) -> nat, b: Seq<char>, f1: nat, f2: nat)
    requires
        parents_ranked(bm, rank),
        bm.contains_key(b) ==> rank(b) < f1 && rank(b) < f2,
    ensures
        chain_up(bm, b, f1) == chain_up(bm, b, f2),
    decreases f1,
{
    if f1 > 0 && f2 > 0 && bm.contains_key(b) {
        match bm[b].parent {
            Some(p) => {
                lemma_chain_up_fuel(bm, rank, p, (f1 - 1) as nat, (f2 - 1) as nat);
            },
            None => {},
        }
    }
}

/// A path that ends on a branch closed under children stays in the closed
/// set.
pub(crate) proof fn lemma_closed_contains_reachable(
    bm: BranchModel,
    closed: Set<Seq<char>>,
    path: Seq<Seq<char>>,
)
    requires
        child_path(bm, path),
        closed.contains(path[0]),
        forall|x: Seq<char>, i: int|
            closed.contains(x) && bm.contains_key(x) && 0 <= i < bm[x].children.len()
                ==> #[trigger] closed.contains(#[trigger] bm[x].children[i]),
    ensures
        closed.contains(path.last()),
    decreases path.len(),
{
    if path.len() > 1 {
        let prefix = path.drop_last();
        assert(child_path(bm, prefix)) by {
            assert forall|i: int| 0 <= i < prefix.len() - 1 implies bm.contains_key(
                #[trigger] prefix[i],
            ) && bm[prefix[i]].children.contains(prefix[i + 1]) by {
                assert(prefix[i] == path[i]);
                assert(prefix[i + 1] == path[i + 1]);
            }
        }
        lemma_closed_contains_reachable(bm, closed, prefix);
        let y = prefix.last();
        let k = path.len() - 2;
        assert(path[k] == y);
        assert(bm.contains_key(y) && bm[y].children.contains(path[k + 1]));
        let ci = choose|ci: int| 0 <= ci < bm[y].children.len() && bm[y].children[ci] == path[k + 1];
        assert(closed.contains(bm[y].children[ci]));
    }
}

proof fn lemma_visited_bounded(
    bm: BranchModel,
    b: Seq<char>,
    keys: Seq<Seq<char>>,
    alen: nat,
    visited: Set<Seq<char>>,
)
    requires
        bm.dom().finite(),
        alen <= keys.len(),
        forall|i: int| 0 <= i < keys.len() ==> bm.contains_key(#[trigger] keys[i]),
        visited == keys.skip(alen as int).to_set().insert(b),
    ensures
        visited.finite(),
        visited.len() <= bm.len() + 1,
{
    assert(visited.subset_of(bm.dom().insert(b))) by {
        assert forall|x: Seq<char>| visited.contains(x) implies bm.dom().insert(b).contains(x) by {
            if x != b {
                assert(keys.skip(alen as int).to_set().contains(x));
                let q = choose|q: int| 0 <= q < keys.skip(alen as int).len() && keys.skip(alen as int)[q] == x;
                assert(keys[alen + q] == x);
            }
        }
    }
    vstd::set_lib::lemma_len_subset(visited, bm.dom().insert(b));
}

impl Stack {
    /// The record of `name` and those of its ancestors, nearest first,
    /// following parent links while they lead to a recorded branch.
    pub(crate) fn ancestor_chain(&self, name: &str) -> (up: Vec<&StackBranch>)
        requires
            self.branches.wf(),
            parents_acyclic(self.branches@),
        ensures
            up@.len() == ancestors(self.branches@, name@).len(),
            forall|i: int| 0 <= i < up@.len() ==> self.branches@.contains_key(
                #[trigger] ancestors(self.branches@, name@)[i],
            ),
            forall|i: int| 0 <= i < up@.len() ==> #[trigger] up@[i]@
                == self.branches@[ancestors(self.branches@, name@)[i]],
    {
        let ghost bm = self.branches@;
        let ghost b = name@;
        let ghost rank = choose|rank: spec_fn(Seq<char>) -> nat| parents_ranked(bm, rank);
        proof {
            self.branches.lemma_wf();
        }
        // The branch and its ancestors, nearest first.
        let mut up: Vec<&StackBranch> = Vec::new();
        let ghost mut up_keys: Seq<Seq<char>> = Seq::empty();
        let mut current: String = name.to_owned();
        let ghost mut steps: nat = 0;
        proof {
            if bm.contains_key(b) {
                assert(rank(b) < bm.len());
            }
        }
        loop
            invariant_except_break
                bm.contains_key(current@) ==> rank(current@) + steps < bm.len(),
                up_keys + chain_up(bm, current@, (bm.len() - steps) as nat) == ancestors(bm, b),
            invariant
                bm == self.branches@,
                self.branches.wf(),
                parents_ranked(bm, rank),
                bm.dom().finite(),
                up@.len() == up_keys.len(),
                forall|i: int| 0 <= i < up_keys.len() ==> bm.contains_key(#[trigger] up_keys[i]),
                forall|i: int| 0 <= i < up_keys.len() ==> #[trigger] up@[i]@ == bm[up_keys[i]],
                steps == up_keys.len(),
                steps <= bm.len(),
            ensures
                up@.len() == up_keys.len(),
                forall|i: int| 0 <= i < up_keys.len() ==> bm.contains_key(#[trigger] up_keys[i]),
                forall|i: int| 0 <= i < up_keys.len() ==> #[trigger] up@[i]@ == bm[up_keys[i]],
                up_keys == ancestors(bm, b),
            decreases
                if bm.contains_key(current@) {
                    rank(current@) + 1
                } else {
                    0
                },
        {
            let ghost fuel = (bm.len() - steps) as nat;
            match self.branches.get(current.as_str()) {
                Some(branch) => {
                    let ghost old_keys = up_keys;
                    up.push(branch);
                    proof {
                        assert(fuel > 0);
                        assert(up@.last()@ == bm[current@]);
                        up_keys = up_keys.push(current@);
                        assert forall|i: int| 0 <= i < up_keys.len() implies #[trigger] up@[i]@
                            == bm[up_keys[i]] by {
                            if i < old_keys.len() {
                                assert(up_keys[i] == old_keys[i]);
                            }
                        }
                        steps = steps + 1;
                    }
                    match &branch.parent {
                        Some(p) => {
                            proof {
                                let pv = p@;
                                assert(bm[current@].parent == Some(pv));
                                assert(chain_up(bm, current@, fuel) =~= seq![current@] + chain_up(
                                    bm,
                                    pv,
                                    (fuel - 1) as nat,
                                ));
                                assert(up_keys + chain_up(bm, pv, (fuel - 1) as nat) =~= (old_keys
                                    + chain_up(bm, current@, fuel)));
                                if bm.contains_key(pv) {
                                    assert(rank(pv) < rank(current@));
                                }
                            }
                            current = p.clone();
                        },
                        None => {
                            proof {
                                assert(chain_up(bm, current@, fuel) =~= seq![current@]);
                                assert(up_keys =~= old_keys + chain_up(bm, current@, fuel));
                            }
                            break ;
                        },
                    }
                },
                None => {
                    proof {
                        assert(chain_up(bm, current@, fuel) =~= Seq::<Seq<char>>::empty());
                        assert(up_keys + chain_up(bm, current@, fuel) =~= up_keys);
                    }
                    break ;
                },
            }
        }
        up
    }
}

impl Stack {
    /// The names of the stack around `branch_name` and the branches
    /// themselves: first its ancestors from the root down to the branch,
    /// then every other branch reachable through child links, each listed
    /// after a branch that names it as a child.
    pub fn get_stack_for_branch(&self, branch_name: &str) -> (r: Vec<&StackBranch>)
        requires
            self.branches.wf(),
            parents_acyclic(self.branches@),
            children_recorded(self.branches@),
        ensures
            exists|ks: Seq<Seq<char>>|
                #[trigger] stack_listing(self.branches@, branch_name@, ks) && walk_listing(self.branches@, branch_name@, ks)
                    && ks.len() == r@.len() && forall|i: int| 0 <= i < ks.len() ==> #[trigger] r@[i]@ == self.branches@[ks[i]],
    {
        let ghost bm = self.branches@;
        let ghost b = branch_name@;
        proof {
            self.branches.lemma_wf();
        }
        let up = self.ancestor_chain(branch_name);
        let ghost up_keys = ancestors(bm, b);
        // Root first.
        let mut stack: Vec<&StackBranch> = Vec::new();
        let mut k: usize = up.len();
        while k > 0
            invariant
                k <= up@.len(),
                up@.len() == up_keys.len(),
                forall|i: int| 0 <= i < up_keys.len() ==> #[trigger] up@[i]@ == bm[up_keys[i]],
                stack@.len() == up_keys.len() - k,
                forall|i: int| 0 <= i < stack@.len() ==> #[trigger] stack@[i]@ == bm[up_keys.reverse()[i]],
            decreases k,
        {
            k = k - 1;
            stack.push(up[k]);
            proof {
                assert(up_keys.reverse()[stack@.len() - 1] == up_keys[k as int]);
            }
        }
        let ghost a = up_keys.reverse();
        let ghost alen = a.len();
        let ghost mut keys: Seq<Seq<char>> = a;
        proof {
            assert(keys.len() == stack@.len());
            assert forall|i: int| 0 <= i < keys.len() implies bm.contains_key(#[trigger] keys[i]) by {
                assert(keys[i] == up_keys[up_keys.len() - 1 - i]);
            }
        }

        // Every branch reachable through child links.
        proof {
            if bm.contains_key(b) {
                assert(bm.len() > 0) by {
                    vstd::set_lib::lemma_set_empty_equivalency_len(bm.dom());
                }
                assert(ancestors(bm, b)[0] == b);
                assert(a[alen - 1] == b);
                assert(keys[alen - 1] == b);
            }
        }
        let mut queue: Vec<String> = Vec::new();
        queue.push(branch_name.to_owned());
        let mut visited = StrSet::new();
        visited.insert(branch_name.to_owned());
        let ghost mut steps: nat = 0;
        proof {
            assert(visited@ =~= set![b]);
            assert(child_path(bm, seq![b]));
            assert(reachable(bm, b).contains(b)) by {
                assert(child_path(bm, seq![b]) && seq![b][0] == b && seq![b].last() == b);
            }
            assert(keys.skip(alen as int) =~= Seq::<Seq<char>>::empty());
            assert(visited@ =~= keys.skip(alen as int).to_set().insert(b));
            assert(views(queue@) =~= seq![b]);
        }
        while queue.len() > 0
            invariant
                bm == self.branches@,
                self.branches.wf(),
                children_recorded(bm),
                bm.dom().finite(),
                visited.wf(),
                visited@.contains(b),
                keys.len() == stack@.len(),
                alen <= keys.len(),
                keys.take(alen as int) == a,
                bm.contains_key(b) ==> alen > 0 && keys[alen - 1] == b,
                forall|i: int| 0 <= i < keys.len() ==> bm.contains_key(#[trigger] keys[i]),
                forall|i: int| 0 <= i < keys.len() ==> #[trigger] stack@[i]@ == bm[keys[i]],
                keys.skip(alen as int).no_duplicates(),
                visited@ == keys.skip(alen as int).to_set().insert(b),
                !keys.skip(alen as int).contains(b),
                views(queue@).no_duplicates(),
                forall|i: int| 0 <= i < queue@.len() ==> #[trigger] visited@.contains(views(queue@)[i]),
                forall|i: int|
                    0 <= i < queue@.len() && bm.contains_key(#[trigger] views(queue@)[i])
                        ==> exists|j: int| 0 <= j < keys.len() && keys[j] == views(queue@)[i],
                forall|x: Seq<char>| #[trigger] visited@.contains(x) ==> reachable(bm, b).contains(x),
                forall|x: Seq<char>, i: int|
                    visited@.contains(x) && bm.contains_key(x) && 0 <= i < bm[x].children.len()
                        && !views(queue@).contains(x) ==> #[trigger] visited@.contains(
                        #[trigger] bm[x].children[i],
                    ),
                forall|i: int| alen <= i < keys.len() ==> #[trigger] listed_after_parent(bm, keys, i),
                walk_down(bm, walk_start(b), steps).pending == views(queue@),
                walk_down(bm, walk_start(b), steps).seen == visited@,
                walk_down(bm, walk_start(b), steps).listed == keys.skip(alen as int),
            decreases bm.len() + 1 - visited@.len(), queue@.len(),
        {
            let ghost st0 = walk_down(bm, walk_start(b), steps);
            proof {
                lemma_visited_bounded(bm, b, keys, alen, visited@);
            }
            let ghost vlen0 = visited@.len();
            let ghost q0 = views(queue@);
            let current = queue.pop().unwrap();
            let ghost cur = current@;
            let ghost rest = WalkState { pending: st0.pending.drop_last(), seen: st0.seen, listed: st0.listed };
            proof {
                assert(q0 =~= views(queue@).push(cur));
                assert(views(queue@) =~= q0.drop_last());
                assert(q0[q0.len() - 1] == cur);
                assert(visited@.contains(cur));
                assert(!views(queue@).contains(cur)) by {
                    if views(queue@).contains(cur) {
                        let t = choose|t: int| 0 <= t < views(queue@).len() && views(queue@)[t] == cur;
                        assert(q0[t] == cur);
                    }
                }
                assert forall|i: int| 0 <= i < queue@.len() implies #[trigger] visited@.contains(views(queue@)[i]) by {
                    assert(views(queue@)[i] == q0[i]);
                }
                assert forall|i: int| 0 <= i < queue@.len() && bm.contains_key(#[trigger] views(queue@)[i])
                        implies exists|j: int| 0 <= j < keys.len() && keys[j] == views(queue@)[i] by {
                    assert(views(queue@)[i] == q0[i]);
                }
                assert(views(queue@).no_duplicates()) by {
                    assert forall|x: int, y: int| 0 <= x < views(queue@).len() && 0 <= y < views(queue@).len() && x != y
                        implies views(queue@)[x] != views(queue@)[y] by {
                        assert(views(queue@)[x] == q0[x]);
                        assert(views(queue@)[y] == q0[y]);
                    }
                }
            }
            match self.branches.get(current.as_str()) {
                Some(branch) => {
                    let ghost ck = choose|j: int| 0 <= j < keys.len() && keys[j] == cur;
                    proof {
                        assert(0 <= ck < keys.len() && keys[ck] == cur);
                        assert(branch@ == bm[cur]);
                    }
                    let nc = branch.children.len();
                    let mut ci: usize = 0;
                    while ci < nc
                        invariant
                            bm == self.branches@,
                            self.branches.wf(),
                            children_recorded(bm),
                            bm.dom().finite(),
                            bm.contains_key(cur),
                            branch@ == bm[cur],
                            nc == bm[cur].children.len(),
                            ci <= nc,
                            0 <= ck < keys.len() && keys[ck] == cur,
                            visited.wf(),
                            visited@.contains(b),
                            visited@.contains(cur),
                            visited@.len() >= vlen0,
                            visited@.len() == vlen0 ==> queue@.len() + 1 == q0.len(),
                            !views(queue@).contains(cur),
                            keys.len() == stack@.len(),
                            alen <= keys.len(),
                            keys.take(alen as int) == a,
                            bm.contains_key(b) ==> alen > 0 && keys[alen - 1] == b,
                            forall|i: int| 0 <= i < keys.len() ==> bm.contains_key(#[trigger] keys[i]),
                            forall|i: int| 0 <= i < keys.len() ==> #[trigger] stack@[i]@ == bm[keys[i]],
                            keys.skip(alen as int).no_duplicates(),
                            visited@ == keys.skip(alen as int).to_set().insert(b),
                            !keys.skip(alen as int).contains(b),
                            views(queue@).no_duplicates(),
                            forall|i: int| 0 <= i < queue@.len() ==> #[trigger] visited@.contains(views(queue@)[i]),
                            forall|i: int|
                                0 <= i < queue@.len() && bm.contains_key(#[trigger] views(queue@)[i])
                                    ==> exists|j: int| 0 <= j < keys.len() && keys[j] == views(queue@)[i],
                            forall|x: Seq<char>| #[trigger] visited@.contains(x) ==> reachable(bm, b).contains(x),
                            forall|x: Seq<char>, i: int|
                                visited@.contains(x) && bm.contains_key(x) && 0 <= i < bm[x].children.len()
                                    && !views(queue@).contains(x) && x != cur ==> #[trigger] visited@.contains(
                                    #[trigger] bm[x].children[i],
                                ),
                            forall|i: int| 0 <= i < ci ==> visited@.contains(#[trigger] bm[cur].children[i]),
                            forall|i: int| alen <= i < keys.len() ==> #[trigger] listed_after_parent(bm, keys, i),
                            add_children(bm[cur].children.take(ci as int), rest).pending == views(queue@),
                            add_children(bm[cur].children.take(ci as int), rest).seen == visited@,
                            add_children(bm[cur].children.take(ci as int), rest).listed == keys.skip(alen as int),
                        decreases nc - ci,
                    {
                        let child = &branch.children[ci];
                        let ghost cv = child@;
                        let ghost sprev = add_children(bm[cur].children.take(ci as int), rest);
                        proof {
                            assert(bm[cur].children.take(ci + 1).drop_last() =~= bm[cur].children.take(ci as int));
                            assert(bm[cur].children.take(ci + 1).last() == cv);
                            assert(cv == bm[cur].children[ci as int]);
                            assert(bm.contains_key(cv));
                            assert(bm[cur].children.contains(cv));
                        }
                        if !visited.contains(child.as_str()) {
                            let ghost kv0 = keys;
                            let ghost vq0 = views(queue@);
                            visited.insert(child.clone());
                            stack.push(self.branches.get(child.as_str()).unwrap());
                            queue.push(child.clone());
                            proof {
                                keys = keys.push(cv);
                                assert(views(queue@) =~= vq0.push(cv));
                                assert(keys.take(alen as int) =~= kv0.take(alen as int));
                                assert(keys.skip(alen as int) =~= kv0.skip(alen as int).push(cv));
                                assert(!kv0.skip(alen as int).contains(cv)) by {
                                    if kv0.skip(alen as int).contains(cv) {
                                        assert(kv0.skip(alen as int).to_set().contains(cv));
                                    }
                                }
                                assert(keys.skip(alen as int).no_duplicates()) by {
                                    let o = kv0.skip(alen as int);
                                    let nn = keys.skip(alen as int);
                                    assert forall|x: int, y: int| 0 <= x < nn.len() && 0 <= y < nn.len() && x != y
                                        implies nn[x] != nn[y] by {
                                        if x == o.len() {
                                            assert(o.contains(nn[y]));
                                        } else if y == o.len() {
                                            assert(o.contains(nn[x]));
                                        }
                                    }
                                }
                                assert(kv0.skip(alen as int).push(cv) =~= kv0.skip(alen as int) + seq![cv]);
                                Seq::lemma_to_set_insert_commutes(kv0.skip(alen as int), cv);
                                assert(visited@ =~= keys.skip(alen as int).to_set().insert(b));
                                assert(!keys.skip(alen as int).contains(b)) by {
                                    if keys.skip(alen as int).contains(b) {
                                        let t = choose|t: int| 0 <= t < keys.skip(alen as int).len() && keys.skip(alen as int)[t] == b;
                                        if t < kv0.skip(alen as int).len() {
                                            assert(kv0.skip(alen as int)[t] == b);
                                        }
                                    }
                                }
                                assert(views(queue@).no_duplicates()) by {
                                    assert forall|x: int, y: int| 0 <= x < views(queue@).len() && 0 <= y < views(queue@).len() && x != y
                                        implies views(queue@)[x] != views(queue@)[y] by {
                                        if x == vq0.len() {
                                            assert(visited@.contains(vq0[y]));
                                        } else if y == vq0.len() {
                                            assert(visited@.contains(vq0[x]));
                                        }
                                    }
                                }
                                assert forall|i: int| 0 <= i < keys.len() implies #[trigger] stack@[i]@ == bm[keys[i]] by {
                                    if i < kv0.len() {
                                        assert(keys[i] == kv0[i]);
                                    }
                                }
                                assert forall|i: int| 0 <= i < keys.len() implies bm.contains_key(#[trigger] keys[i]) by {
                                    if i < kv0.len() {
                                        assert(keys[i] == kv0[i]);
                                    }
                                }
                                assert forall|i: int| 0 <= i < queue@.len() implies #[trigger] visited@.contains(views(queue@)[i]) by {
                                    if i < vq0.len() {
                                        assert(views(queue@)[i] == vq0[i]);
                                    }
                                }
                                assert forall|i: int| 0 <= i < queue@.len() && bm.contains_key(#[trigger] views(queue@)[i])
                                    implies exists|j: int| 0 <= j < keys.len() && keys[j] == views(queue@)[i] by {
                                    if i < vq0.len() {
                                        assert(views(queue@)[i] == vq0[i]);
                                        let j = choose|j: int| 0 <= j < kv0.len() && kv0[j] == vq0[i];
                                        assert(keys[j] == kv0[j]);
                                    } else {
                                        assert(keys[kv0.len() as int] == cv);
                                    }
                                }
                                // The new branch is reachable: extend a path to its parent.
                                assert(reachable(bm, b).contains(cur));
                                let p = choose|p: Seq<Seq<char>>| #[trigger] child_path(bm, p) && p[0] == b && p.last() == cur;
                                let p2 = p.push(cv);
                                assert(child_path(bm, p2)) by {
                                    assert forall|i: int| 0 <= i < p2.len() - 1 implies bm.contains_key(#[trigger] p2[i])
                                        && bm[p2[i]].children.contains(p2[i + 1]) by {
                                        if i < p.len() - 1 {
                                            assert(p2[i] == p[i]);
                                            assert(p2[i + 1] == p[i + 1]);
                                        } else {
                                            assert(p2[i] == cur);
                                            assert(p2[i + 1] == cv);
                                        }
                                    }
                                }
                                assert(p2[0] == b && p2.last() == cv);
                                assert(reachable(bm, b).contains(cv));
                                assert forall|x: Seq<char>| #[trigger] visited@.contains(x) implies reachable(bm, b).contains(x) by {
                                    if x != cv {
                                    }
                                }
                                assert forall|i: int| alen <= i < keys.len() implies #[trigger] listed_after_parent(bm, keys, i) by {
                                    if i < kv0.len() {
                                        assert(listed_after_parent(bm, kv0, i));
                                        assert(keys[i] == kv0[i]);
                                        let j = choose|j: int| #![trigger kv0[j]] 0 <= j < i && bm[kv0[j]].children.contains(kv0[i]);
                                        assert(keys[j] == kv0[j]);
                                    } else {
                                        assert(keys[ck] == cur);
                                        assert(bm[keys[ck]].children.contains(keys[i]));
                                    }
                                }
                                assert forall|x: Seq<char>, i: int|
                                    visited@.contains(x) && bm.contains_key(x) && 0 <= i < bm[x].children.len()
                                        && !views(queue@).contains(x) && x != cur implies #[trigger] visited@.contains(
                                        #[trigger] bm[x].children[i],
                                    ) by {
                                    if x != cv {
                                        assert(!vq0.contains(x)) by {
                                            if vq0.contains(x) {
                                                let t = choose|t: int| 0 <= t < vq0.len() && vq0[t] == x;
                                                assert(views(queue@)[t] == x);
                                            }
                                        }
                                    } else {
                                        assert(views(queue@)[vq0.len() as int] == cv);
                                    }
                                }
                                assert(!views(queue@).contains(cur)) by {
                                    if views(queue@).contains(cur) {
                                        let t = choose|t: int| 0 <= t < views(queue@).len() && views(queue@)[t] == cur;
                                        if t < vq0.len() {
                                            assert(vq0[t] == cur);
                                        }
                                    }
                                }
                            }
                        }
                        ci = ci + 1;
                    }
                    proof {
                        assert(bm[cur].children.take(nc as int) =~= bm[cur].children);
                    }
                },
                None => {},
            }
            proof {
                lemma_visited_bounded(bm, b, keys, alen, visited@);
                lemma_walk_next(bm, walk_start(b), steps);
                steps = steps + 1;
            }
        }
        proof {
            let d = keys.skip(alen as int);
            assert(views(queue@) =~= Seq::<Seq<char>>::empty());
            let closed = visited@;
            assert(reachable(bm, b) =~= visited@) by {
                assert forall|x: Seq<char>| reachable(bm, b).contains(x) implies visited@.contains(x) by {
                    let p = choose|p: Seq<Seq<char>>| #[trigger] child_path(bm, p) && p[0] == b && p.last() == x;
                    lemma_closed_contains_reachable(bm, closed, p);
                }
            }
            assert(d.to_set() =~= reachable(bm, b).remove(b));
            assert(keys.len() == stack@.len());
            assert(stack_listing(bm, b, keys));
            assert(keys =~= a + keys.skip(alen as int)) by {
                assert(keys.take(alen as int) == a);
            }
            assert(walk_listing(bm, b, keys));
        }
        stack
    }
}


/// Whatever order `ks` lists it in, it names exactly the stack of `b`.
pub proof fn lemma_listing_names_stack(bm: BranchModel, b: Seq<char>, ks: Seq<Seq<char>>)
    requires
        stack_listing(bm, b, ks),
    ensures
        forall|i: int| 0 <= i < ks.len() ==> stack_names(bm, b).contains(#[trigger] ks[i]),
        forall|x: Seq<char>| #[trigger] stack_names(bm, b).contains(x) ==> exists|i: int|
            0 <= i < ks.len() && ks[i] == x,
{
    let a = ancestors(bm, b);
    let alen = a.len() as int;
    let d = ks.skip(alen);
    assert forall|i: int| 0 <= i < ks.len() implies stack_names(bm, b).contains(#[trigger] ks[i]) by {
        if i < alen {
            assert(ks.take(alen)[i] == ks[i]);
            assert(a.reverse()[i] == a[alen - 1 - i]);
            assert(a.to_set().contains(a[alen - 1 - i]));
        } else {
            assert(d[i - alen] == ks[i]);
            assert(d.to_set().contains(d[i - alen]));
        }
    }
    assert forall|x: Seq<char>| #[trigger] stack_names(bm, b).contains(x) implies exists|i: int|
        0 <= i < ks.len() && ks[i] == x by {
        if a.to_set().contains(x) {
            let t = choose|t: int| 0 <= t < a.len() && a[t] == x;
            assert(a.reverse()[alen - 1 - t] == a[t]);
            assert(ks.take(alen)[alen - 1 - t] == ks[alen - 1 - t]);
        } else {
            assert(d.to_set().contains(x));
            let q = choose|q: int| 0 <= q < d.len() && d[q] == x;
            assert(ks[alen + q] == d[q]);
        }
    }
}

impl Stack {
    /// Whether no branch of the stack around `branch_name` has a pull
    /// request that is neither open nor a draft.
    pub fn is_stack_clean(&self, branch_name: &str) -> (r: bool)
        requires
            self.branches.wf(),
            parents_acyclic(self.branches@),
            children_recorded(self.branches@),
        ensures
            r == forall|k: Seq<char>| #[trigger] stack_names(self.branches@, branch_name@).contains(k)
                ==> pr_is_live(self.branches@[k].pull_request),
    {
        let stack = self.get_stack_for_branch(branch_name);
        let ghost bm = self.branches@;
        let ghost ks = choose|ks: Seq<Seq<char>>|
            #[trigger] stack_listing(bm, branch_name@, ks) && ks.len() == stack@.len()
                && forall|i: int| 0 <= i < ks.len() ==> #[trigger] stack@[i]@ == bm[ks[i]];
        proof {
            lemma_listing_names_stack(bm, branch_name@, ks);
        }
        let mut i: usize = 0;
        while i < stack.len()
            invariant
                i <= stack@.len(),
                ks.len() == stack@.len(),
                forall|j: int| 0 <= j < ks.len() ==> #[trigger] stack@[j]@ == bm[ks[j]],
                forall|j: int| 0 <= j < i ==> pr_is_live(bm[#[trigger] ks[j]].pull_request),
                forall|j: int| 0 <= j < ks.len() ==> stack_names(bm, branch_name@).contains(#[trigger] ks[j]),
                bm == self.branches@,
            decreases stack@.len() - i,
        {
            let branch = stack[i];
            proof {
                assert(branch@ == bm[ks[i as int]]);
            }
            match &branch.pull_request {
                Some(pr) => {
                    if !(str_eq(pr.state.as_str(), "open") || str_eq(pr.state.as_str(), "draft")) {
                        proof {
                            assert(stack_names(bm, branch_name@).contains(ks[i as int]));
                            assert(!pr_is_live(bm[ks[i as int]].pull_request));
                        }
                        return false;
                    }
                },
                None => {},
            }
            i = i + 1;
        }
        proof {
            assert forall|k: Seq<char>| #[trigger] stack_names(bm, branch_name@).contains(k)
                implies pr_is_live(bm[k].pull_request) by {
                let j = choose|j: int| 0 <= j < ks.len() && ks[j] == k;
                assert(pr_is_live(bm[ks[j]].pull_request));
            }
        }
        true
    }
}

/// Following parents from `c` leaves the recorded branches, or reaches a
/// branch without a parent, within `f` recorded branches.
pub open spec fn ends_within(bm: BranchModel, c: Seq<char>, f: nat) -> bool
    decreases f,
{
    if !bm.contains_key(c) {
        true
    } else if f == 0 {
        false
    } else {
        match bm[c].parent {
            None => true,
            Some(p) => ends_within(bm, p, (f - 1) as nat),
        }
    }
}

/// How many recorded branches the parent chain from `c` passes through,
/// counting at most `f`.
pub open spec fn chain_nodes(bm: BranchModel, c: Seq<char>, f: nat) -> nat
    decreases f,
{
    if !bm.contains_key(c) || f == 0 {
        0
    } else {
        1 + match bm[c].parent {
            None => 0,
            Some(p) => chain_nodes(bm, p, (f - 1) as nat),
        }
    }
}

proof fn lemma_ends_within_stable(bm: BranchModel, c: Seq<char>, f: nat, g: nat)
    requires
        ends_within(bm, c, f),
        f <= g,
    ensures
        ends_within(bm, c, g),
        chain_nodes(bm, c, f) == chain_nodes(bm, c, g),
        chain_nodes(bm, c, f) <= f,
    decreases f,
{
    if bm.contains_key(c) && f > 0 {
        match bm[c].parent {
            None => {},
            Some(p) => lemma_ends_within_stable(bm, p, (f - 1) as nat, (g - 1) as nat),
        }
    }
}

/// Every recorded branch's parent chain ends within the number of records.
pub open spec fn chains_end(bm: BranchModel) -> bool {
    forall|k: Seq<char>| #[trigger] bm.contains_key(k) ==> ends_within(bm, k, bm.len())
}

/// Parent chains that all end give a ranking, so parents form no cycle.
pub proof fn lemma_chains_end_acyclic(bm: BranchModel)
    requires
        chains_end(bm),
    ensures
        parents_acyclic(bm),
{
    let n = bm.len();
    let rank = |k: Seq<char>| (chain_nodes(bm, k, n) - 1) as nat;
    assert forall|k: Seq<char>| #[trigger] bm.contains_key(k) implies rank(k) < bm.len() && match bm[k].parent {
        Some(p) => bm.contains_key(p) ==> rank(p) < rank(k),
        None => true,
    } by {
        assert(ends_within(bm, k, n));
        lemma_ends_within_stable(bm, k, n, n);
        assert(n > 0);
        match bm[k].parent {
            Some(p) => {
                if bm.contains_key(p) {
                    assert(ends_within(bm, p, (n - 1) as nat));
                    lemma_ends_within_stable(bm, p, (n - 1) as nat, n);
                    assert(chain_nodes(bm, k, n) == 1 + chain_nodes(bm, p, (n - 1) as nat));
                    assert(chain_nodes(bm, p, n) >= 1);
                }
            },
            None => {},
        }
    }
    assert(parents_ranked(bm, rank));
}

/// Every recorded child names its parent as its parent.
pub open spec fn children_consistent(bm: BranchModel) -> bool {
    forall|k: Seq<char>, i: int|
        bm.contains_key(k) && 0 <= i < bm[k].children.len() && bm.contains_key(#[trigger] bm[k].children[i])
            ==> bm[bm[k].children[i]].parent == Some(k)
}

impl Stack {
    /// Whether the parent chain from `branch` ends within `fuel` records.
    fn chain_ends(&self, branch: &str, fuel: usize) -> (r: bool)
        requires
            self.branches.wf(),
        ensures
            r == ends_within(self.branches@, branch@, fuel as nat),
    {
        let ghost bm = self.branches@;
        let mut cur: &str = branch;
        let mut f: usize = fuel;
        loop
            invariant
                self.branches.wf(),
                bm == self.branches@,
                ends_within(bm, cur@, f as nat) == ends_within(bm, branch@, fuel as nat),
            decreases f,
        {
            match self.branches.get(cur) {
                None => {
                    return true;
                },
                Some(b) => {
                    if f == 0 {
                        return false;
                    }
                    match &b.parent {
                        None => {
                            return true;
                        },
                        Some(p) => {
                            cur = p.as_str();
                            f = f - 1;
                        },
                    }
                },
            }
        }
    }

    /// Whether every parent chain ends: then parents form no cycle.
    pub fn parent_chains_end(&self) -> (r: bool)
        requires
            self.branches.wf(),
        ensures
            r == chains_end(self.branches@),
            r ==> parents_acyclic(self.branches@),
    {
        let ghost bm = self.branches@;
        proof {
            self.branches.lemma_wf();
        }
        let n = self.branches.len();
        let mut i: usize = 0;
        while i < n
            invariant
                self.branches.wf(),
                bm == self.branches@,
                n == self.branches.keys().len(),
                bm.len() == n,
                forall|k: Seq<char>| #[trigger] bm.contains_key(k) ==> exists|j: int|
                    0 <= j < self.branches.keys().len() && self.branches.keys()[j] == k,
                forall|j: int| 0 <= j < self.branches.keys().len() ==> bm.contains_key(#[trigger] self.branches.keys()[j]),
                i <= n,
                forall|j: int| 0 <= j < i ==> ends_within(bm, #[trigger] self.branches.keys()[j], n as nat),
            decreases n - i,
        {
            let k = self.branches.key_at(i);
            if !self.chain_ends(k.as_str(), n) {
                proof {
                    assert(bm.contains_key(self.branches.keys()[i as int]));
                }
                return false;
            }
            i = i + 1;
        }
        proof {
            assert forall|k: Seq<char>| #[trigger] bm.contains_key(k) implies ends_within(bm, k, bm.len()) by {
                let j = choose|j: int| 0 <= j < self.branches.keys().len() && self.branches.keys()[j] == k;
            }
            lemma_chains_end_acyclic(bm);
        }
        true
    }

    /// Whether every listed child has a record and names its lister as its
    /// parent.
    pub fn children_well_linked(&self) -> (r: bool)
        requires
            self.branches.wf(),
        ensures
            r == (children_recorded(self.branches@) && children_consistent(self.branches@)),
    {
        let ghost bm = self.branches@;
        proof {
            self.branches.lemma_wf();
        }
        let n = self.branches.len();
        let mut i: usize = 0;
        while i < n
            invariant
                self.branches.wf(),
                bm == self.branches@,
                n == self.branches.keys().len(),
                n == self.branches.vals().len(),
                forall|k: Seq<char>| #[trigger] bm.contains_key(k) ==> exists|j: int|
                    0 <= j < self.branches.keys().len() && self.branches.keys()[j] == k,
                forall|j: int| 0 <= j < n ==> bm.contains_key(#[trigger] self.branches.keys()[j])
                    && bm[self.branches.keys()[j]] == self.branches.vals()[j],
                i <= n,
                forall|j: int, c: int|
                    0 <= j < i && 0 <= c < bm[self.branches.keys()[j]].children.len() ==> bm.contains_key(
                        #[trigger] bm[self.branches.keys()[j]].children[c],
                    ) && bm[bm[self.branches.keys()[j]].children[c]].parent == Some(self.branches.keys()[j]),
            decreases n - i,
        {
            let k = self.branches.key_at(i);
            let b = self.branches.value_at(i);
            let ghost kv = self.branches.keys()[i as int];
            proof {
                assert(bm[kv] == b@);
            }
            let mut c: usize = 0;
            while c < b.children.len()
                invariant
                    self.branches.wf(),
                    bm == self.branches@,
                    bm.contains_key(kv),
                    bm[kv] == b@,
                    k@ == kv,
                    c <= b.children@.len(),
                    forall|t: int| 0 <= t < c ==> bm.contains_key(#[trigger] bm[kv].children[t]) && bm[bm[kv].children[t]].parent == Some(kv),
                decreases b.children@.len() - c,
            {
                let child = &b.children[c];
                proof {
                    assert(bm[kv].children[c as int] == child@);
                }
                match self.branches.get(child.as_str()) {
                    None => {
                        return false;
                    },
                    Some(cb) => {
                        let names_parent = match &cb.parent {
                            Some(p) => str_eq(p.as_str(), k.as_str()),
                            None => false,
                        };
                        if !names_parent {
                            return false;
                        }
                    },
                }
                c = c + 1;
            }
            i = i + 1;
        }
        proof {
            assert forall|kk: Seq<char>, t: int|
                bm.contains_key(kk) && 0 <= t < bm[kk].children.len() implies #[trigger] bm.contains_key(
                    #[trigger] bm[kk].children[t]) && bm[bm[kk].children[t]].parent == Some(kk) by {
                let j = choose|j: int| 0 <= j < self.branches.keys().len() && self.branches.keys()[j] == kk;
            }
        }
        true
    }
}

/// The parent the last relationship naming `b` as child gives it.
pub open spec fn last_parent(rels: Seq<(Seq<char>, Seq<char>)>, b: Seq<char>) -> Option<Seq<char>>
    decreases rels.len(),
{
    if rels.len() == 0 {
        None
    } else if rels.last().0 == b {
        Some(rels.last().1)
    } else {
        last_parent(rels.drop_last(), b)
    }
}

/// The children the relationships give `b`, in order.
pub open spec fn children_in(rels: Seq<(Seq<char>, Seq<char>)>, b: Seq<char>) -> Seq<Seq<char>>
    decreases rels.len(),
{
    if rels.len() == 0 {
        Seq::empty()
    } else {
        let rest = children_in(rels.drop_last(), b);
        if rels.last().1 == b {
            rest.push(rels.last().0)
        } else {
            rest
        }
    }
}

/// The characters of (child, parent) relationships.
pub open spec fn rel_views(r: Seq<(String, String)>) -> Seq<(Seq<char>, Seq<char>)> {
    r.map_values(|e: (String, String)| (e.0@, e.1@))
}

/// The record a stack holds for branch `b`.
pub open spec fn built_record(
    b: Seq<char>,
    current: Seq<char>,
    commits: Map<Seq<char>, Seq<char>>,
    prs: Map<Seq<char>, PullRequestView>,
    rels: Seq<(Seq<char>, Seq<char>)>,
) -> StackBranchView {
    StackBranchView {
        name: b,
        parent: last_parent(rels, b),
        children: children_in(rels, b),
        commit_hash: if commits.contains_key(b) {
            commits[b]
        } else {
            Seq::empty()
        },
        pull_request: if prs.contains_key(b) {
            Some(prs[b])
        } else {
            None
        },
        is_current: b == current,
    }
}

/// A branch that belongs in a stack analysis: a trunk branch, or one not
/// merged into the trunk.
pub open spec fn stack_member(merged: Set<Seq<char>>, b: Seq<char>) -> bool {
    crate::navigate::spec_is_main(b) || !merged.contains(b)
}

/// The branches a stack analysis works on, in order: merged branches are
/// left out, trunk branches never are.
pub fn stack_members(all_branches: &Vec<String>, merged: &StrSet) -> (r: Vec<String>)
    ensures
        views(r@) == views(all_branches@).filter(|b: Seq<char>| stack_member(merged@, b)),
{
    let ghost av = views(all_branches@);
    let ghost keep = |b: Seq<char>| stack_member(merged@, b);
    let mut r: Vec<String> = Vec::new();
    let mut i: usize = 0;
    proof {
        assert(av.take(0).filter(keep) =~= Seq::<Seq<char>>::empty());
    }
    while i < all_branches.len()
        invariant
            av == views(all_branches@),
            keep == (|b: Seq<char>| stack_member(merged@, b)),
            i <= all_branches@.len(),
            views(r@) == av.take(i as int).filter(keep),
        decreases all_branches@.len() - i,
    {
        let b = &all_branches[i];
        let ghost before = views(r@);
        proof {
            assert(av.take(i + 1) =~= av.take(i as int).push(b@));
            av.take(i as int).lemma_filter_push(b@, keep);
            assert(av[i as int] == b@);
        }
        if crate::navigate::is_main_branch(b.as_str()) || !merged.contains(b.as_str()) {
            r.push(b.clone());
            proof {
                assert(views(r@) =~= before.push(b@));
            }
        }
        i = i + 1;
    }
    proof {
        assert(av.take(i as int) =~= av);
    }
    r
}

/// The stack of `branches`: each with its commit, its pull request, its
/// parent and children from `relationships` (child, parent), and whether it
/// is the current branch; the roots are the branches without a parent.
pub fn build_stack(
    branches: &Vec<String>,
    current: &str,
    commits: &StrMap<String>,
    prs: &StrMap<PullRequest>,
    relationships: &Vec<(String, String)>,
) -> (r: Stack)
    requires
        commits.wf(),
        prs.wf(),
    ensures
        r.branches.wf(),
        r.branches@.dom() == views(branches@).to_set(),
        forall|b: Seq<char>| #[trigger] r.branches@.contains_key(b) ==> r.branches@[b] == built_record(
            b,
            current@,
            commits@,
            prs@,
            rel_views(relationships@),
        ),
        views(r.roots@).no_duplicates(),
        views(r.roots@).to_set() == r.branches@.dom().filter(|b: Seq<char>| r.branches@[b].parent is None),
        r.current_branch@ == current@,
{
    let ghost rv = rel_views(relationships@);
    let mut map: StrMap<StackBranch> = StrMap::new();
    let mut i: usize = 0;
    while i < branches.len()
        invariant
            commits.wf(),
            prs.wf(),
            map.wf(),
            i <= branches@.len(),
            map@.dom() == views(branches@).take(i as int).to_set(),
            forall|b: Seq<char>| #[trigger] map@.contains_key(b) ==> map@[b] == built_record(b, current@, commits@, prs@, rv.take(0)),
        decreases branches@.len() - i,
    {
        let name = &branches[i];
        let commit_hash = match commits.get(name.as_str()) {
            Some(h) => h.clone(),
            None => String::new(),
        };
        let pull_request = match prs.get(name.as_str()) {
            Some(pr) => Some(pr.dup()),
            None => None,
        };
        let children: Vec<String> = Vec::new();
        let record = StackBranch {
            name: name.clone(),
            parent: None,
            children,
            commit_hash,
            pull_request,
            is_current: crate::text::str_eq(name.as_str(), current),
        };
        proof {
            assert(views(record.children@) =~= Seq::<Seq<char>>::empty());
            assert(rv.take(0) =~= Seq::<(Seq<char>, Seq<char>)>::empty());
            assert(record@ == built_record(name@, current@, commits@, prs@, rv.take(0)));
            assert(views(branches@).take(i + 1) =~= views(branches@).take(i as int) + seq![name@]);
            Seq::lemma_to_set_insert_commutes(views(branches@).take(i as int), name@);
            assert(views(branches@).take(i as int).push(name@) =~= views(branches@).take(i as int) + seq![name@]);
        }
        map.insert(name.clone(), record);
        i = i + 1;
    }
    proof {
        assert(views(branches@).take(i as int) =~= views(branches@));
    }
    let ghost dom = map@.dom();
    let mut k: usize = 0;
    while k < relationships.len()
        invariant
            map.wf(),
            rv == rel_views(relationships@),
            map@.dom() == dom,
            k <= relationships@.len(),
            forall|b: Seq<char>| #[trigger] map@.contains_key(b) ==> map@[b] == built_record(b, current@, commits@, prs@, rv.take(k as int)),
        decreases relationships@.len() - k,
    {
        let child = &relationships[k].0;
        let parent = &relationships[k].1;
        let ghost pre = rv.take(k as int);
        let ghost post = rv.take(k + 1);
        proof {
            assert(post.drop_last() =~= pre);
            assert(post.last() == (child@, parent@));
        }
        let ghost m0 = map@;
        let updated = match map.get(child.as_str()) {
            Some(cb) => {
                let mut nb = cb.dup();
                nb.parent = Some(parent.clone());
                Some(nb)
            },
            None => None,
        };
        match updated {
            Some(nb) => {
                map.insert(child.clone(), nb);
            },
            None => {},
        }
        let ghost m1 = map@;
        let updated2 = match map.get(parent.as_str()) {
            Some(pb) => {
                let mut nb = pb.dup();
                let ghost before = views(nb.children@);
                nb.children.push(child.clone());
                proof {
                    assert(views(nb.children@) =~= before.push(child@));
                }
                Some(nb)
            },
            None => None,
        };
        match updated2 {
            Some(nb) => {
                map.insert(parent.clone(), nb);
            },
            None => {},
        }
        proof {
            assert forall|b: Seq<char>| #[trigger] map@.contains_key(b) implies map@[b] == built_record(
                b,
                current@,
                commits@,
                prs@,
                post,
            ) by {
                assert(m0.contains_key(b));
                assert(m0[b] == built_record(b, current@, commits@, prs@, pre));
                assert(last_parent(post, b) == if child@ == b { Some(parent@) } else { last_parent(pre, b) });
                assert(children_in(post, b) == if parent@ == b { children_in(pre, b).push(child@) } else { children_in(pre, b) });
            }
        }
        k = k + 1;
    }
    proof {
        assert(rv.take(k as int) =~= rv);
        map.lemma_wf();
    }
    // Roots: the branches without a parent.
    let ghost bm = map@;
    let ghost keys = map.keys();
    let mut roots: Vec<String> = Vec::new();
    let n = map.len();
    let mut t: usize = 0;
    while t < n
        invariant
            map.wf(),
            bm == map@,
            keys == map.keys(),
            keys.no_duplicates(),
            n == keys.len(),
            keys.len() == map.vals().len(),
            forall|j: int| 0 <= j < keys.len() ==> #[trigger] bm[keys[j]] == map.vals()[j],
            forall|j: int| 0 <= j < keys.len() ==> bm.contains_key(#[trigger] keys[j]),
            forall|b: Seq<char>| #[trigger] bm.contains_key(b) ==> bm[b].name == b,
            t <= n,
            views(roots@).no_duplicates(),
            views(roots@).to_set() == keys.take(t as int).to_set().filter(|b: Seq<char>| bm[b].parent is None),
            forall|q: int| 0 <= q < roots@.len() ==> keys.take(t as int).contains(#[trigger] views(roots@)[q]),
        decreases n - t,
    {
        let rec = map.value_at(t);
        let ghost kk = keys[t as int];
        let ghost r0 = views(roots@);
        proof {
            assert(rec@ == bm[kk]);
            assert(keys.take(t + 1) =~= keys.take(t as int).push(kk));
            assert(keys.take(t as int).push(kk) =~= keys.take(t as int) + seq![kk]);
            Seq::lemma_to_set_insert_commutes(keys.take(t as int), kk);
            assert(!keys.take(t as int).contains(kk)) by {
                if keys.take(t as int).contains(kk) {
                    let q = choose|q: int| 0 <= q < t && keys.take(t as int)[q] == kk;
                    assert(keys[q] == kk);
                }
            }
        }
        if rec.parent.is_none() {
            roots.push(rec.name.clone());
            proof {
                assert(rec.name@ == kk);
                assert(views(roots@) =~= r0.push(kk));
                assert(!r0.contains(kk)) by {
                    if r0.contains(kk) {
                        let q = choose|q: int| 0 <= q < r0.len() && r0[q] == kk;
                        assert(keys.take(t as int).contains(r0[q]));
                    }
                }
                assert(views(roots@).no_duplicates()) by {
                    let nr = views(roots@);
                    assert forall|a: int, b: int| 0 <= a < nr.len() && 0 <= b < nr.len() && a != b implies nr[a] != nr[b] by {
                        if a == r0.len() {
                            assert(r0.contains(nr[b]));
                        } else if b == r0.len() {
                            assert(r0.contains(nr[a]));
                        }
                    }
                }
                assert(r0.push(kk) =~= r0 + seq![kk]);
                Seq::lemma_to_set_insert_commutes(r0, kk);
            }
        }
        proof {
            assert(views(roots@).to_set() =~= keys.take(t + 1).to_set().filter(|b: Seq<char>| bm[b].parent is None));
            assert forall|q: int| 0 <= q < roots@.len() implies keys.take(t + 1).contains(#[trigger] views(roots@)[q]) by {
                if q < r0.len() {
                    assert(views(roots@)[q] == r0[q]);
                    let w = choose|w: int| 0 <= w < t && keys.take(t as int)[w] == r0[q];
                    assert(keys.take(t + 1)[w] == r0[q]);
                } else {
                    assert(keys.take(t + 1)[t as int] == kk);
                }
            }
        }
        t = t + 1;
    }
    proof {
        assert(keys.take(n as int) =~= keys);
        assert(keys.to_set() == bm.dom());
    }
    Stack { branches: map, roots, current_branch: current.to_owned() }
}

/// The discovered set and work queue after the children `kids` of a
/// branch are found: each child not yet discovered is added to both, in
/// order.
pub open spec fn discovered_after(
    d: Set<Seq<char>>,
    q: Seq<Seq<char>>,
    kids: Seq<Seq<char>>,
) -> (Set<Seq<char>>, Seq<Seq<char>>)
    decreases kids.len(),
{
    if kids.len() == 0 {
        (d, q)
    } else {
        let (d1, q1) = discovered_after(d, q, kids.drop_last());
        let c = kids.last();
        if d1.contains(c) {
            (d1, q1)
        } else {
            (d1.insert(c), q1.push(c))
        }
    }
}

/// Take the children found for a branch into the discovered set, queueing
/// each newly discovered one for its own children to be found.
pub fn discover_children(discovered: &mut StrSet, queue: &mut Vec<String>, children: &Vec<String>)
    requires
        old(discovered).wf(),
    ensures
        final(discovered).wf(),
        (final(discovered)@, views(final(queue)@)) == discovered_after(
            old(discovered)@,
            views(old(queue)@),
            views(children@),
        ),
{
    let ghost kv = views(children@);
    let ghost d0 = discovered@;
    let ghost q0 = views(queue@);
    let mut i: usize = 0;
    while i < children.len()
        invariant
            discovered.wf(),
            kv == views(children@),
            i <= kv.len(),
            (discovered@, views(queue@)) == discovered_after(d0, q0, kv.take(i as int)),
        decreases kv.len() - i,
    {
        let c = &children[i];
        proof {
            assert(kv[i as int] == c@);
            assert(kv.take(i + 1).drop_last() =~= kv.take(i as int));
            assert(kv.take(i + 1).last() == c@);
        }
        let ghost qb = views(queue@);
        if discovered.insert(c.clone()) {
            queue.push(c.clone());
            proof {
                assert(views(queue@) =~= qb.push(c@));
            }
        }
        i = i + 1;
    }
    proof {
        assert(kv.take(i as int) =~= kv);
    }
}

/// The names of `all` that are in `keep`, in order.
pub fn branches_in(all: &Vec<String>, keep: &StrSet) -> (r: Vec<String>)
    requires
        keep.wf(),
    ensures
        views(r@) == views(all@).filter(|b: Seq<char>| keep@.contains(b)),
{
    let ghost av = views(all@);
    let ghost f = |b: Seq<char>| keep@.contains(b);
    let mut r: Vec<String> = Vec::new();
    let mut i: usize = 0;
    proof {
        assert(av.take(0).filter(f) =~= Seq::<Seq<char>>::empty());
    }
    while i < all.len()
        invariant
            keep.wf(),
            av == views(all@),
            f == (|b: Seq<char>| keep@.contains(b)),
            i <= av.len(),
            views(r@) == av.take(i as int).filter(f),
        decreases av.len() - i,
    {
        proof {
            assert(av.take(i + 1) =~= av.take(i as int).push(av[i as int]));
            av.take(i as int).lemma_filter_push(av[i as int], f);
            assert(av[i as int] == all@[i as int]@);
        }
        if keep.contains(all[i].as_str()) {
            let ghost before = views(r@);
            r.push(all[i].clone());
            proof {
                assert(views(r@) =~= before.push(av[i as int]));
            }
        }
        i = i + 1;
    }
    proof {
        assert(av.take(i as int) =~= av);
    }
    r
}

/// The pull requests of `ps` whose head branch is in `keep`, by head
/// branch; a later one wins.
pub open spec fn prs_by_head(ps: Seq<PullRequestView>, keep: Set<Seq<char>>) -> Map<Seq<char>, PullRequestView>
    decreases ps.len(),
{
    if ps.len() == 0 {
        Map::empty()
    } else {
        let m = prs_by_head(ps.drop_last(), keep);
        if keep.contains(ps.last().head_ref) {
            m.insert(ps.last().head_ref, ps.last())
        } else {
            m
        }
    }
}

/// The fetched pull requests whose head branch was discovered, by head
/// branch.
pub fn discovered_prs(prs: &Vec<PullRequest>, keep: &StrSet) -> (r: StrMap<PullRequest>)
    requires
        keep.wf(),
    ensures
        r.wf(),
        r@ == prs_by_head(prs@.map_values(|p: PullRequest| p@), keep@),
{
    let ghost ps = prs@.map_values(|p: PullRequest| p@);
    let mut r: StrMap<PullRequest> = StrMap::new();
    let mut i: usize = 0;
    while i < prs.len()
        invariant
            keep.wf(),
            r.wf(),
            ps == prs@.map_values(|p: PullRequest| p@),
            i <= prs@.len(),
            r@ == prs_by_head(ps.take(i as int), keep@),
        decreases prs@.len() - i,
    {
        let pr = &prs[i];
        proof {
            assert(ps.take(i + 1).drop_last() =~= ps.take(i as int));
            assert(ps.take(i + 1).last() == pr@);
        }
        if keep.contains(pr.head_ref.as_str()) {
            r.insert(pr.head_ref.clone(), pr.dup());
        }
        i = i + 1;
    }
    proof {
        assert(ps.take(i as int) =~= ps);
    }
    r
}

/// Every record is stored under its own name.
pub open spec fn names_are_keys(bm: BranchModel) -> bool {
    forall|k: Seq<char>| #[trigger] bm.contains_key(k) ==> bm[k].name == k
}

impl Stack {
    /// Whether every record is stored under its own name.
    pub fn records_named_by_keys(&self) -> (r: bool)
        requires
            self.branches.wf(),
        ensures
            r == names_are_keys(self.branches@),
    {
        let ghost bm = self.branches@;
        proof {
            self.branches.lemma_wf();
        }
        let n = self.branches.len();
        let mut i: usize = 0;
        while i < n
            invariant
                self.branches.wf(),
                bm == self.branches@,
                n == self.branches.keys().len(),
                n == self.branches.vals().len(),
                forall|k: Seq<char>| #[trigger] bm.contains_key(k) ==> exists|j: int|
                    0 <= j < self.branches.keys().len() && self.branches.keys()[j] == k,
                forall|j: int| 0 <= j < n ==> #[trigger] bm.contains_key(self.branches.keys()[j])
                    && bm[self.branches.keys()[j]] == self.branches.vals()[j],
                i <= n,
                forall|j: int| 0 <= j < i ==> #[trigger] bm[self.branches.keys()[j]].name == self.branches.keys()[j],
            decreases n - i,
        {
            let k = self.branches.key_at(i);
            let v = self.branches.value_at(i);
            proof {
                assert(bm.contains_key(self.branches.keys()[i as int]));
            }
            if !str_eq(v.name.as_str(), k.as_str()) {
                return false;
            }
            i = i + 1;
        }
        proof {
            assert forall|k: Seq<char>| #[trigger] bm.contains_key(k) implies bm[k].name == k by {
                let j = choose|j: int| 0 <= j < self.branches.keys().len() && self.branches.keys()[j] == k;
                assert(bm.contains_key(self.branches.keys()[j]));
            }
        }
        true
    }
}

} // verus!
