//! Which branches a restack rebases, onto what, and in which order, and the
//! pre-restack tips it keeps to rebase from.
use vstd::prelude::*;
use crate::collections::{StrMap, StrSet};
use crate::navigate::spec_is_main;
use crate::stack::{
    child_path, children_recorded, lemma_closed_contains_reachable, parents_acyclic,
    parents_ranked, reachable, stack_listing, walk_listing, BranchModel, Stack, StackBranch,
    StackBranchView,
};
use crate::sync::{branch_depth, depth_up};
use crate::text::views;

verus! {

/// Why a single-branch restack has nothing to rebase.
#[derive(Debug, PartialEq, Eq)]
pub enum RestackStop {
    /// The current branch is not in the stack.
    NotInStack,
    /// The current branch is a main branch.
    OnRootBranch,
    /// The current branch has no parent.
    NoParent,
}

/// The (branch, parent) pairs of the records listed in `ks`, leaving out
/// main branches and branches without a parent, in order.
pub open spec fn rebase_pairs(bm: BranchModel, ks: Seq<Seq<char>>) -> Seq<(Seq<char>, Seq<char>)>
    decreases ks.len(),
{
    if ks.len() == 0 {
        Seq::empty()
    } else {
        let rest = rebase_pairs(bm, ks.drop_last());
        let br = bm[ks.last()];
        if !spec_is_main(br.name) && br.parent is Some {
            rest.push((br.name, br.parent.unwrap()))
        } else {
            rest
        }
    }
}

/// The characters of (branch, parent) pairs.
pub open spec fn pair_views(r: Seq<(String, String)>) -> Seq<(Seq<char>, Seq<char>)> {
    r.map_values(|e: (String, String)| (e.0@, e.1@))
}

/// The branches `stax restack` rebases, each with the parent it goes onto:
/// with `all`, every non-main branch with a parent in the stack of the
/// current branch, in the order the stack lists them; otherwise the
/// current branch alone.
pub fn restack_plan(stack: &Stack, all: bool) -> (r: Result<Vec<(String, String)>, RestackStop>)
    requires
        stack.branches.wf(),
        parents_acyclic(stack.branches@),
        children_recorded(stack.branches@),
    ensures
        all ==> r is Ok && exists|ks: Seq<Seq<char>>|
            #[trigger] stack_listing(stack.branches@, stack.current_branch@, ks) && walk_listing(
                stack.branches@,
                stack.current_branch@,
                ks,
            ) && pair_views(r->Ok_0@) == rebase_pairs(stack.branches@, ks),
        !all ==> match r {
            Ok(v) => stack.branches@.contains_key(stack.current_branch@) && !spec_is_main(
                stack.current_branch@,
            ) && stack.branches@[stack.current_branch@].parent is Some && pair_views(v@) == seq![
                (stack.current_branch@, stack.branches@[stack.current_branch@].parent.unwrap()),
            ],
            Err(RestackStop::NotInStack) => !stack.branches@.contains_key(stack.current_branch@),
            Err(RestackStop::OnRootBranch) => stack.branches@.contains_key(stack.current_branch@)
                && spec_is_main(stack.current_branch@),
            Err(RestackStop::NoParent) => stack.branches@.contains_key(stack.current_branch@)
                && !spec_is_main(stack.current_branch@) && stack.branches@[stack.current_branch@].parent is None,
        },
{
    let ghost bm = stack.branches@;
    let current = stack.current_branch.as_str();
    if all {
        let listed = stack.get_stack_for_branch(current);
        let ghost ks = choose|ks: Seq<Seq<char>>|
            #[trigger] stack_listing(bm, current@, ks) && walk_listing(bm, current@, ks) && ks.len() == listed@.len() && forall|i: int|
                0 <= i < ks.len() ==> #[trigger] listed@[i]@ == bm[ks[i]];
        let mut plan: Vec<(String, String)> = Vec::new();
        let mut i: usize = 0;
        while i < listed.len()
            invariant
                ks.len() == listed@.len(),
                forall|t: int| 0 <= t < ks.len() ==> #[trigger] listed@[t]@ == bm[ks[t]],
                i <= listed@.len(),
                pair_views(plan@) == rebase_pairs(bm, ks.take(i as int)),
            decreases listed@.len() - i,
        {
            let b = listed[i];
            let ghost before = pair_views(plan@);
            proof {
                assert(ks.take(i + 1).drop_last() =~= ks.take(i as int));
                assert(ks.take(i + 1).last() == ks[i as int]);
                assert(b@ == bm[ks[i as int]]);
            }
            if !crate::navigate::is_main_branch(b.name.as_str()) {
                match &b.parent {
                    Some(parent) => {
                        plan.push((b.name.clone(), parent.clone()));
                        proof {
                            assert(pair_views(plan@) =~= before.push((b.name@, parent@)));
                        }
                    },
                    None => {},
                }
            }
            i = i + 1;
        }
        proof {
            assert(ks.take(i as int) =~= ks);
        }
        Ok(plan)
    } else {
        let branch = match stack.branches.get(current) {
            Some(b) => b,
            None => {
                return Err(RestackStop::NotInStack);
            },
        };
        if crate::navigate::is_main_branch(current) {
            return Err(RestackStop::OnRootBranch);
        }
        match &branch.parent {
            Some(parent) => {
                let mut plan: Vec<(String, String)> = Vec::new();
                plan.push((current.to_owned(), parent.clone()));
                proof {
                    assert(pair_views(plan@) =~= seq![(current@, parent@)]);
                }
                Ok(plan)
            },
            None => Err(RestackStop::NoParent),
        }
    }
}

/// The tips to rebase from: the saved tips of an interrupted restack, and
/// for every other branch of the plan the tip it has now, when known.
pub open spec fn merged_tips(
    saved: Map<Seq<char>, Seq<char>>,
    plan: Seq<(Seq<char>, Seq<char>)>,
    live: Map<Seq<char>, Seq<char>>,
) -> Map<Seq<char>, Seq<char>> {
    live.restrict(
        Set::new(|n: Seq<char>| exists|i: int| 0 <= i < plan.len() && (plan[i].0 == n || plan[i].1 == n)),
    ).union_prefer_right(saved)
}

/// The tips a restack rebases from: every saved tip is kept; each branch
/// and each parent of the plan without a saved tip gets its live tip, when
/// it has one; no other name gets a tip.
pub proof fn law_old_tips_cover_plan(
    saved: Map<Seq<char>, Seq<char>>,
    plan: Seq<(Seq<char>, Seq<char>)>,
    live: Map<Seq<char>, Seq<char>>,
)
    ensures
        forall|n: Seq<char>|
            #[trigger] saved.contains_key(n) ==> merged_tips(saved, plan, live).contains_key(n) && merged_tips(
                saved,
                plan,
                live,
            )[n] == saved[n],
        forall|i: int|
            0 <= i < plan.len() && !saved.contains_key((#[trigger] plan[i]).0) && live.contains_key(plan[i].0)
                ==> merged_tips(saved, plan, live).contains_key(plan[i].0) && merged_tips(saved, plan, live)[plan[i].0]
                == live[plan[i].0],
        forall|i: int|
            0 <= i < plan.len() && !saved.contains_key((#[trigger] plan[i]).1) && live.contains_key(plan[i].1)
                ==> merged_tips(saved, plan, live).contains_key(plan[i].1) && merged_tips(saved, plan, live)[plan[i].1]
                == live[plan[i].1],
        forall|n: Seq<char>|
            #[trigger] merged_tips(saved, plan, live).contains_key(n) ==> saved.contains_key(n) || (live.contains_key(n)
                && exists|i: int| 0 <= i < plan.len() && (plan[i].0 == n || plan[i].1 == n)),
{
    let named = Set::new(|n: Seq<char>| exists|i: int| 0 <= i < plan.len() && (plan[i].0 == n || plan[i].1 == n));
    assert forall|i: int| 0 <= i < plan.len() implies named.contains((#[trigger] plan[i]).0) && named.contains(plan[i].1) by {
        assert(0 <= i < plan.len() && (plan[i].0 == plan[i].0 || plan[i].1 == plan[i].0));
        assert(0 <= i < plan.len() && (plan[i].0 == plan[i].1 || plan[i].1 == plan[i].1));
    }
}

/// Complete the saved tips with the live tips of the plan's branches and
/// parents; a saved tip is kept over a live one.
pub fn merge_old_tips(saved: &StrMap<String>, plan: &Vec<(String, String)>, live: &StrMap<String>) -> (r:
    StrMap<String>)
    requires
        saved.wf(),
        live.wf(),
    ensures
        r.wf(),
        r@ == merged_tips(saved@, pair_views(plan@), live@),
        forall|n: Seq<char>| #[trigger] saved@.contains_key(n) ==> r@.contains_key(n) && r@[n] == saved@[n],
        forall|i: int|
            0 <= i < plan@.len() && !saved@.contains_key((#[trigger] pair_views(plan@)[i]).0) && live@.contains_key(
                pair_views(plan@)[i].0,
            ) ==> r@.contains_key(pair_views(plan@)[i].0) && r@[pair_views(plan@)[i].0] == live@[pair_views(plan@)[i].0],
        forall|i: int|
            0 <= i < plan@.len() && !saved@.contains_key((#[trigger] pair_views(plan@)[i]).1) && live@.contains_key(
                pair_views(plan@)[i].1,
            ) ==> r@.contains_key(pair_views(plan@)[i].1) && r@[pair_views(plan@)[i].1] == live@[pair_views(plan@)[i].1],
        forall|n: Seq<char>|
            #[trigger] r@.contains_key(n) ==> saved@.contains_key(n) || (live@.contains_key(n) && exists|i: int|
                0 <= i < plan@.len() && (pair_views(plan@)[i].0 == n || pair_views(plan@)[i].1 == n)),
{
    proof {
        law_old_tips_cover_plan(saved@, pair_views(plan@), live@);
    }
    let ghost pl = pair_views(plan@);
    let ghost named = Set::new(|n: Seq<char>| exists|i: int| 0 <= i < pl.len() && (pl[i].0 == n || pl[i].1 == n));
    let mut tips = saved.dup();
    let mut i: usize = 0;
    while i < plan.len()
        invariant
            saved.wf(),
            live.wf(),
            tips.wf(),
            pl == pair_views(plan@),
            i <= plan@.len(),
            tips@ == live@.restrict(
                Set::new(|n: Seq<char>| exists|j: int| 0 <= j < i && (pl[j].0 == n || pl[j].1 == n)),
            ).union_prefer_right(saved@),
        decreases plan@.len() - i,
    {
        let ghost before = tips@;
        let b = &plan[i].0;
        let p = &plan[i].1;
        proof {
            assert(pl[i as int] == (b@, p@));
        }
        if !tips.contains_key(b.as_str()) {
            match live.get(b.as_str()) {
                Some(h) => {
                    tips.insert(b.clone(), h.clone());
                },
                None => {},
            }
        }
        let ghost mid = tips@;
        if !tips.contains_key(p.as_str()) {
            match live.get(p.as_str()) {
                Some(h) => {
                    tips.insert(p.clone(), h.clone());
                },
                None => {},
            }
        }
        proof {
            let s0 = Set::new(|n: Seq<char>| exists|j: int| 0 <= j < i && (pl[j].0 == n || pl[j].1 == n));
            let s1 = Set::new(|n: Seq<char>| exists|j: int| 0 <= j < i + 1 && (pl[j].0 == n || pl[j].1 == n));
            assert(s1 =~= s0.insert(b@).insert(p@)) by {
                assert forall|n: Seq<char>| s1.contains(n) implies s0.insert(b@).insert(p@).contains(n) by {
                    let j = choose|j: int| 0 <= j < i + 1 && (pl[j].0 == n || pl[j].1 == n);
                    if j < i {
                        assert(s0.contains(n));
                    }
                }
                assert forall|n: Seq<char>| s0.insert(b@).insert(p@).contains(n) implies s1.contains(n) by {
                    if s0.contains(n) {
                        let j = choose|j: int| 0 <= j < i && (pl[j].0 == n || pl[j].1 == n);
                        assert(0 <= j < i + 1 && (pl[j].0 == n || pl[j].1 == n));
                    } else {
                        assert(0 <= i < i + 1 && (pl[i as int].0 == n || pl[i as int].1 == n));
                    }
                }
            }
            assert(tips@ =~= live@.restrict(s1).union_prefer_right(saved@));
        }
        i = i + 1;
    }
    proof {
        assert(tips@ =~= merged_tips(saved@, pl, live@));
    }
    tips
}

/// Where the walk up from `cur` stops, following at most `fuel` parents:
/// at a branch with no record, with no parent, or whose parent is a main
/// branch.
pub open spec fn top_up(bm: BranchModel, cur: Seq<char>, fuel: nat) -> Seq<char>
    decreases fuel,
{
    if fuel == 0 || !bm.contains_key(cur) {
        cur
    } else {
        match bm[cur].parent {
            Some(p) => if spec_is_main(p) {
                cur
            } else {
                top_up(bm, p, (fuel - 1) as nat)
            },
            None => cur,
        }
    }
}

/// The lowest branch of the stack of `cur` below any main branch.
pub open spec fn scope_top(bm: BranchModel, cur: Seq<char>) -> Seq<char> {
    top_up(bm, cur, bm.len())
}

/// `path` climbs the recorded parents of `bm` from its first branch to its
/// last, never stepping onto a main branch.
pub open spec fn record_walk(bm: BranchModel, path: Seq<Seq<char>>) -> bool {
    &&& path.len() >= 1
    &&& forall|i: int|
        0 <= i < path.len() - 1 ==> bm.contains_key(#[trigger] path[i]) && bm[path[i]].parent == Some(
            path[i + 1],
        ) && !spec_is_main(path[i + 1])
}

/// A walk up the recorded parents stops at `b`: it has no record, no
/// parent, or a main branch as its parent.
pub open spec fn at_scope_top(bm: BranchModel, b: Seq<char>) -> bool {
    !bm.contains_key(b) || match bm[b].parent {
        Some(p) => spec_is_main(p),
        None => true,
    }
}

proof fn lemma_top_up_walk(bm: BranchModel, rank: spec_fn(Seq<char>) -> nat, c: Seq<char>, fuel: nat)
    requires
        parents_ranked(bm, rank),
        bm.contains_key(c) ==> rank(c) < fuel,
    ensures
        at_scope_top(bm, top_up(bm, c, fuel)),
        exists|path: Seq<Seq<char>>|
            #[trigger] record_walk(bm, path) && path[0] == c && path.last() == top_up(bm, c, fuel),
    decreases fuel,
{
    if fuel == 0 || !bm.contains_key(c) {
        assert(record_walk(bm, seq![c]));
    } else {
        match bm[c].parent {
            Some(p) => {
                if spec_is_main(p) {
                    assert(record_walk(bm, seq![c]));
                } else {
                    if bm.contains_key(p) {
                        assert(rank(p) < rank(c));
                    }
                    lemma_top_up_walk(bm, rank, p, (fuel - 1) as nat);
                    let rest = choose|path: Seq<Seq<char>>|
                        #[trigger] record_walk(bm, path) && path[0] == p && path.last() == top_up(bm, p, (fuel - 1) as nat);
                    let path = seq![c] + rest;
                    assert(record_walk(bm, path)) by {
                        assert forall|i: int| 0 <= i < path.len() - 1 implies bm.contains_key(#[trigger] path[i])
                            && bm[path[i]].parent == Some(path[i + 1]) && !spec_is_main(path[i + 1]) by {
                            if i == 0 {
                                assert(path[1] == rest[0]);
                            } else {
                                assert(path[i] == rest[i - 1]);
                                assert(path[i + 1] == rest[i]);
                            }
                        }
                    }
                    assert(path.last() == rest.last());
                }
            },
            None => {
                assert(record_walk(bm, seq![c]));
            },
        }
    }
}

/// The top of a restack scope is reached from the current branch by
/// recorded parents that never step onto a main branch, and the walk ends
/// there: it has no record, no parent, or a main branch as parent.  So
/// every ancestor of the current branch below the main branches lies on
/// the way to it.
pub proof fn law_scope_top_above_main(bm: BranchModel, cur: Seq<char>)
    requires
        parents_acyclic(bm),
    ensures
        at_scope_top(bm, scope_top(bm, cur)),
        exists|path: Seq<Seq<char>>|
            #[trigger] record_walk(bm, path) && path[0] == cur && path.last() == scope_top(bm, cur),
{
    let rank = choose|rank: spec_fn(Seq<char>) -> nat| parents_ranked(bm, rank);
    lemma_top_up_walk(bm, rank, cur, bm.len());
}

/// Every child named by a record.
pub open spec fn child_names(bm: BranchModel, keys: Set<Seq<char>>) -> Set<Seq<char>> {
    Set::new(|y: Seq<char>| exists|k: Seq<char>| keys.contains(k) && bm.contains_key(k) && #[trigger] bm[k].children.contains(y))
}

proof fn lemma_child_names_finite(bm: BranchModel, keys: Set<Seq<char>>)
    requires
        keys.finite(),
    ensures
        child_names(bm, keys).finite(),
    decreases keys.len(),
{
    if keys.len() == 0 {
        assert(keys =~= Set::<Seq<char>>::empty());
        assert(child_names(bm, keys) =~= Set::<Seq<char>>::empty());
    } else {
        let k = keys.choose();
        assert(keys.contains(k));
        let rest = keys.remove(k);
        lemma_child_names_finite(bm, rest);
        let own = if bm.contains_key(k) {
            bm[k].children.to_set()
        } else {
            Set::<Seq<char>>::empty()
        };
        assert(child_names(bm, keys).subset_of(child_names(bm, rest).union(own))) by {
            assert forall|y: Seq<char>| child_names(bm, keys).contains(y) implies child_names(bm, rest).union(
                own,
            ).contains(y) by {
                let k2 = choose|k2: Seq<char>| keys.contains(k2) && bm.contains_key(k2) && #[trigger] bm[k2].children.contains(y);
                if k2 != k {
                    assert(rest.contains(k2));
                } else {
                    assert(own.contains(y));
                }
            }
        }
        vstd::set_lib::lemma_set_union_finite_iff(child_names(bm, rest), own);
        vstd::set_lib::lemma_len_subset(child_names(bm, keys), child_names(bm, rest).union(own));
    }
}

/// The branches a sync restacks around `current`: every branch reachable
/// through child links from the lowest branch of its stack below the main
/// branches, that branch included.
pub fn restack_scope(stack: &Stack, current: &str) -> (r: StrSet)
    requires
        stack.branches.wf(),
        parents_acyclic(stack.branches@),
    ensures
        r.wf(),
        r@ == reachable(stack.branches@, scope_top(stack.branches@, current@)),
        at_scope_top(stack.branches@, scope_top(stack.branches@, current@)),
        exists|path: Seq<Seq<char>>|
            #[trigger] record_walk(stack.branches@, path) && path[0] == current@ && path.last() == scope_top(
                stack.branches@,
                current@,
            ),
{
    proof {
        law_scope_top_above_main(stack.branches@, current@);
    }
    let ghost bm = stack.branches@;
    let ghost rank = choose|rank: spec_fn(Seq<char>) -> nat| parents_ranked(bm, rank);
    proof {
        stack.branches.lemma_wf();
    }
    // Walk up to the lowest branch below the main branches.
    let mut top: String = current.to_owned();
    let ghost mut steps: nat = 0;
    loop
        invariant_except_break
            bm.contains_key(top@) ==> rank(top@) + steps < bm.len(),
        invariant
            bm == stack.branches@,
            stack.branches.wf(),
            parents_ranked(bm, rank),
            steps <= bm.len(),
            top_up(bm, top@, (bm.len() - steps) as nat) == scope_top(bm, current@),
        ensures
            top@ == scope_top(bm, current@),
        decreases
            if bm.contains_key(top@) {
                rank(top@) + 1
            } else {
                0
            },
    {
        match stack.branches.get(top.as_str()) {
            Some(branch) => {
                match &branch.parent {
                    Some(parent) => {
                        if crate::navigate::is_main_branch(parent.as_str()) {
                            break ;
                        }
                        proof {
                            if bm.contains_key(parent@) {
                                assert(rank(parent@) < rank(top@));
                            }
                            steps = steps + 1;
                        }
                        top = parent.clone();
                    },
                    None => {
                        break ;
                    },
                }
            },
            None => {
                break ;
            },
        }
    }
    let ghost t = top@;
    let ghost universe = child_names(bm, bm.dom()).insert(t);
    proof {
        lemma_child_names_finite(bm, bm.dom());
    }
    // Walk down through child links.
    let mut scope = StrSet::new();
    let mut queue: Vec<String> = Vec::new();
    queue.push(top);
    proof {
        assert(views(queue@) =~= seq![t]);
        assert(views(queue@)[0] == t);
        assert(views(queue@).contains(t));
        assert(child_path(bm, seq![t]));
        assert(reachable(bm, t).contains(t)) by {
            assert(child_path(bm, seq![t]) && seq![t][0] == t && seq![t].last() == t);
        }
    }
    while queue.len() > 0
        invariant
            bm == stack.branches@,
            stack.branches.wf(),
            universe == child_names(bm, bm.dom()).insert(t),
            universe.finite(),
            scope.wf(),
            scope@.subset_of(universe),
            forall|i: int| 0 <= i < queue@.len() ==> universe.contains(#[trigger] views(queue@)[i]),
            scope@.subset_of(reachable(bm, t)),
            forall|i: int| 0 <= i < queue@.len() ==> reachable(bm, t).contains(#[trigger] views(queue@)[i]),
            scope@.contains(t) || views(queue@).contains(t),
            forall|x: Seq<char>, i: int|
                scope@.contains(x) && bm.contains_key(x) && 0 <= i < bm[x].children.len() ==> scope@.contains(
                    #[trigger] bm[x].children[i],
                ) || views(queue@).contains(bm[x].children[i]),
        decreases universe.len() - scope@.len(), queue@.len(),
    {
        proof {
            vstd::set_lib::lemma_len_subset(scope@, universe);
        }
        let ghost q0 = views(queue@);
        let name = queue.pop().unwrap();
        let ghost nv = name@;
        proof {
            assert(q0 =~= views(queue@).push(nv));
            assert(q0[q0.len() - 1] == nv);
            assert(universe.contains(nv));
            assert(reachable(bm, t).contains(nv));
            assert forall|i: int| 0 <= i < queue@.len() implies universe.contains(#[trigger] views(queue@)[i])
                && reachable(bm, t).contains(views(queue@)[i]) by {
                assert(views(queue@)[i] == q0[i]);
            }
        }
        let ghost s0 = scope@;
        if scope.insert(name.clone()) {
            match stack.branches.get(name.as_str()) {
                Some(branch) => {
                    let mut ci: usize = 0;
                    while ci < branch.children.len()
                        invariant
                            bm == stack.branches@,
                            bm.contains_key(nv),
                            branch@ == bm[nv],
                            universe == child_names(bm, bm.dom()).insert(t),
                            scope@ == s0.insert(nv),
                            ci <= branch.children@.len(),
                            reachable(bm, t).contains(nv),
                            forall|i: int| 0 <= i < queue@.len() ==> universe.contains(#[trigger] views(queue@)[i]),
                            forall|i: int| 0 <= i < queue@.len() ==> reachable(bm, t).contains(#[trigger] views(queue@)[i]),
                            forall|i: int| 0 <= i < q0.len() - 1 ==> views(queue@)[i] == #[trigger] q0[i],
                            views(queue@).len() >= q0.len() - 1,
                            forall|i: int| 0 <= i < ci ==> views(queue@).contains(#[trigger] bm[nv].children[i]),
                        decreases branch.children@.len() - ci,
                    {
                        let ghost vq = views(queue@);
                        let child = branch.children[ci].clone();
                        let ghost cv = child@;
                        proof {
                            assert(cv == bm[nv].children[ci as int]);
                            assert(bm[nv].children.contains(cv));
                        }
                        queue.push(child);
                        proof {
                            assert(views(queue@) =~= vq.push(cv));
                            assert forall|i: int| 0 <= i < vq.len() implies views(queue@)[i] == #[trigger] vq[i] by {}
                            assert(universe.contains(cv)) by {
                                assert(bm.dom().contains(nv) && bm.contains_key(nv) && bm[nv].children.contains(cv));
                            }
                            assert(reachable(bm, t).contains(cv)) by {
                                let p = choose|p: Seq<Seq<char>>| #[trigger] child_path(bm, p) && p[0] == t && p.last() == nv;
                                let p2 = p.push(cv);
                                assert(child_path(bm, p2)) by {
                                    assert forall|i: int| 0 <= i < p2.len() - 1 implies bm.contains_key(#[trigger] p2[i])
                                        && bm[p2[i]].children.contains(p2[i + 1]) by {
                                        if i < p.len() - 1 {
                                            assert(p2[i] == p[i]);
                                            assert(p2[i + 1] == p[i + 1]);
                                        } else {
                                            assert(p2[i] == nv);
                                            assert(p2[i + 1] == cv);
                                        }
                                    }
                                }
                                assert(p2[0] == t && p2.last() == cv);
                            }
                            assert forall|i: int| 0 <= i < ci + 1 implies views(queue@).contains(#[trigger] bm[nv].children[i]) by {
                                if i < ci {
                                    let q = choose|q: int| 0 <= q < vq.len() && vq[q] == bm[nv].children[i];
                                    assert(views(queue@)[q] == vq[q]);
                                } else {
                                    assert(views(queue@)[vq.len() as int] == cv);
                                }
                            }
                        }
                        ci = ci + 1;
                    }
                },
                None => {},
            }
            proof {
                assert(s0.insert(nv).len() == s0.len() + 1);
            }
        }
        proof {
            assert(scope@.contains(t) || views(queue@).contains(t)) by {
                if !s0.contains(t) {
                    if nv != t {
                        let q = choose|q: int| 0 <= q < q0.len() && q0[q] == t;
                        assert(q < q0.len() - 1);
                        assert(views(queue@)[q] == q0[q]);
                    }
                }
            }
            assert forall|x: Seq<char>, i: int|
                scope@.contains(x) && bm.contains_key(x) && 0 <= i < bm[x].children.len() implies scope@.contains(
                    #[trigger] bm[x].children[i],
                ) || views(queue@).contains(bm[x].children[i]) by {
                let c = bm[x].children[i];
                if x == nv && !s0.contains(nv) {
                } else {
                    assert(s0.contains(x));
                    if !s0.contains(c) {
                        assert(q0.contains(c));
                        let q = choose|q: int| 0 <= q < q0.len() && q0[q] == c;
                        if q < q0.len() - 1 {
                            assert(views(queue@)[q] == q0[q]);
                        } else {
                            assert(c == nv);
                        }
                    }
                }
            }
            vstd::set_lib::lemma_len_subset(scope@, universe);
        }
    }
    proof {
        assert(views(queue@) =~= Seq::<Seq<char>>::empty());
        let closed = scope@;
        assert(scope@ =~= reachable(bm, t)) by {
            assert forall|x: Seq<char>| reachable(bm, t).contains(x) implies scope@.contains(x) by {
                let p = choose|p: Seq<Seq<char>>| #[trigger] child_path(bm, p) && p[0] == t && p.last() == x;
                lemma_closed_contains_reachable(bm, closed, p);
            }
        }
    }
    scope
}

/// A record a sync rebases: not a main branch, inside the scope, and with
/// a parent.
pub open spec fn in_plan(scope: Set<Seq<char>>, br: StackBranchView) -> bool {
    !spec_is_main(br.name) && scope.contains(br.name) && br.parent is Some
}

/// The names among `s` whose records a sync rebases.
pub open spec fn planned_among(bm: BranchModel, scope: Set<Seq<char>>, s: Set<Seq<char>>) -> Set<Seq<char>> {
    s.filter(|k: Seq<char>| in_plan(scope, bm[k]))
}

/// A record's branch, its parent, and its depth.
pub open spec fn plan_entry(bm: BranchModel, br: StackBranchView) -> (Seq<char>, Seq<char>, nat) {
    (br.name, br.parent.unwrap(), depth_up(bm, br.name, bm.len()))
}

/// The characters of (branch, parent, depth) triples.
pub open spec fn triple_views(r: Seq<(String, String, usize)>) -> Seq<(Seq<char>, Seq<char>, nat)> {
    r.map_values(|e: (String, String, usize)| (e.0@, e.1@, e.2 as nat))
}

proof fn lemma_depth_up_bounded(bm: BranchModel, b: Seq<char>, fuel: nat)
    ensures
        depth_up(bm, b, fuel) <= fuel,
    decreases fuel,
{
    if fuel > 0 && bm.contains_key(b) {
        match bm[b].parent {
            Some(p) => lemma_depth_up_bounded(bm, p, (fuel - 1) as nat),
            None => {},
        }
    }
}

/// The branches a sync rebases around `current`, each with its parent and
/// its depth, shallowest first: every record of the restack scope that is
/// not a main branch and has a parent, once.
pub fn sync_restack_plan(stack: &Stack, current: &str) -> (r: Vec<(String, String, usize)>)
    requires
        stack.branches.wf(),
        parents_acyclic(stack.branches@),
    ensures
        exists|ks: Seq<Seq<char>>|
            #![trigger ks.len()]
            ks.no_duplicates() && ks.len() == r@.len() && ks.to_set() == planned_among(
                stack.branches@,
                reachable(stack.branches@, scope_top(stack.branches@, current@)),
                stack.branches@.dom(),
            ) && forall|i: int| 0 <= i < ks.len() ==> #[trigger] triple_views(r@)[i] == plan_entry(
                stack.branches@,
                stack.branches@[ks[i]],
            ),
        forall|i: int, j: int| 0 <= i < j < r@.len() ==> r@[i].2 <= r@[j].2,
{
    let ghost bm = stack.branches@;
    let scope = restack_scope(stack, current);
    let ghost sc = scope@;
    proof {
        stack.branches.lemma_wf();
    }
    let ghost keys = stack.branches.keys();
    let mut unsorted: Vec<(String, String, usize)> = Vec::new();
    let ghost mut ks1: Seq<Seq<char>> = Seq::empty();
    let n = stack.branches.len();
    let mut i: usize = 0;
    while i < n
        invariant
            stack.branches.wf(),
            bm == stack.branches@,
            parents_acyclic(bm),
            keys == stack.branches.keys(),
            keys.no_duplicates(),
            n == keys.len(),
            keys.len() == stack.branches.vals().len(),
            bm.len() == n,
            forall|j: int| 0 <= j < keys.len() ==> #[trigger] bm[keys[j]] == stack.branches.vals()[j],
            forall|j: int| 0 <= j < keys.len() ==> bm.contains_key(#[trigger] keys[j]),
            scope.wf(),
            sc == scope@,
            i <= n,
            ks1.no_duplicates(),
            ks1.len() == unsorted@.len(),
            ks1.to_set() == planned_among(bm, sc, keys.take(i as int).to_set()),
            forall|t: int| 0 <= t < ks1.len() ==> keys.take(i as int).contains(#[trigger] ks1[t]),
            forall|t: int| 0 <= t < ks1.len() ==> #[trigger] triple_views(unsorted@)[t] == plan_entry(bm, bm[ks1[t]]),
            forall|t: int| 0 <= t < unsorted@.len() ==> (#[trigger] unsorted@[t]).2 <= n,
        decreases n - i,
    {
        let branch = stack.branches.value_at(i);
        let ghost k = keys[i as int];
        proof {
            assert(branch@ == bm[k]);
            assert(keys.take(i + 1) =~= keys.take(i as int).push(k));
            Seq::lemma_to_set_insert_commutes(keys.take(i as int), k);
            assert(keys.take(i as int).push(k) =~= keys.take(i as int) + seq![k]);
            assert(!keys.take(i as int).contains(k)) by {
                if keys.take(i as int).contains(k) {
                    let t = choose|t: int| 0 <= t < i && keys.take(i as int)[t] == k;
                    assert(keys[t] == k);
                }
            }
        }
        let ghost ks0 = ks1;
        let ghost u0 = triple_views(unsorted@);
        let name = branch.name.as_str();
        let mut added = false;
        if !crate::navigate::is_main_branch(name) && scope.contains(name) {
            match &branch.parent {
                Some(parent) => {
                    let depth = branch_depth(stack, name);
                    proof {
                        lemma_depth_up_bounded(bm, branch@.name, bm.len());
                    }
                    unsorted.push((branch.name.clone(), parent.clone(), depth));
                    added = true;
                    proof {
                        ks1 = ks1.push(k);
                        assert(triple_views(unsorted@) =~= u0.push(plan_entry(bm, bm[k])));
                    }
                },
                None => {},
            }
        }
        proof {
            assert(added == in_plan(sc, bm[k]));
            if added {
                assert(!ks0.contains(k)) by {
                    if ks0.contains(k) {
                        let t = choose|t: int| 0 <= t < ks0.len() && ks0[t] == k;
                        assert(keys.take(i as int).contains(ks0[t]));
                    }
                }
                assert(ks1.no_duplicates()) by {
                    assert forall|a: int, b: int| 0 <= a < ks1.len() && 0 <= b < ks1.len() && a != b implies ks1[a] != ks1[b] by {
                        if a == ks0.len() {
                            assert(ks0.contains(ks1[b]));
                        } else if b == ks0.len() {
                            assert(ks0.contains(ks1[a]));
                        }
                    }
                }
                assert(ks1 =~= ks0 + seq![k]);
                Seq::lemma_to_set_insert_commutes(ks0, k);
                assert forall|t: int| 0 <= t < ks1.len() implies #[trigger] triple_views(unsorted@)[t] == plan_entry(bm, bm[ks1[t]]) by {
                    if t < ks0.len() {
                        assert(ks1[t] == ks0[t]);
                        assert(triple_views(unsorted@)[t] == u0[t]);
                    }
                }
                assert forall|t: int| 0 <= t < unsorted@.len() implies (#[trigger] unsorted@[t]).2 <= n by {
                    if t < ks0.len() {
                        assert(triple_views(unsorted@)[t] == u0[t]);
                    }
                }
            }
            assert(ks1.to_set() =~= planned_among(bm, sc, keys.take(i + 1).to_set()));
            assert forall|t: int| 0 <= t < ks1.len() implies keys.take(i + 1).contains(#[trigger] ks1[t]) by {
                if t < ks0.len() {
                    assert(ks1[t] == ks0[t]);
                    let q = choose|q: int| 0 <= q < i && keys.take(i as int)[q] == ks0[t];
                    assert(keys.take(i + 1)[q] == ks0[t]);
                } else {
                    assert(keys.take(i + 1)[i as int] == k);
                }
            }
        }
        i = i + 1;
    }
    proof {
        assert(keys.take(n as int) =~= keys);
    }
    // Shallowest first: one pass per depth.
    let len = unsorted.len();
    let mut r: Vec<(String, String, usize)> = Vec::new();
    let ghost mut idx: Seq<int> = Seq::empty();
    let mut d: usize = 0;
    loop
        invariant_except_break
            forall|t: int| 0 <= t < len ==> ((#[trigger] unsorted@[t]).2 < d <==> idx.contains(t)),
            forall|a: int| 0 <= a < r@.len() ==> (#[trigger] r@[a]).2 < d,
        invariant
            len == unsorted@.len(),
            d <= n,
            forall|t: int| 0 <= t < unsorted@.len() ==> (#[trigger] unsorted@[t]).2 <= n,
            idx.no_duplicates(),
            idx.len() == r@.len(),
            forall|q: int| 0 <= q < idx.len() ==> 0 <= #[trigger] idx[q] < len && r@[q] == unsorted@[idx[q]],
            forall|a: int, b: int| 0 <= a < b < r@.len() ==> r@[a].2 <= r@[b].2,
        ensures
            idx.no_duplicates(),
            idx.len() == r@.len(),
            forall|q: int| 0 <= q < idx.len() ==> 0 <= #[trigger] idx[q] < len && r@[q] == unsorted@[idx[q]],
            forall|t: int| 0 <= t < len ==> idx.contains(t),
            forall|a: int, b: int| 0 <= a < b < r@.len() ==> r@[a].2 <= r@[b].2,
        decreases n - d,
    {
        let mut t: usize = 0;
        while t < len
            invariant
                len == unsorted@.len(),
                d <= n,
                forall|t2: int| 0 <= t2 < unsorted@.len() ==> (#[trigger] unsorted@[t2]).2 <= n,
                t <= len,
                idx.no_duplicates(),
                idx.len() == r@.len(),
                forall|q: int| 0 <= q < idx.len() ==> 0 <= #[trigger] idx[q] < len && r@[q] == unsorted@[idx[q]],
                forall|t2: int| 0 <= t2 < len ==> (((#[trigger] unsorted@[t2]).2 < d || (unsorted@[t2].2 == d && t2 < t)) <==> idx.contains(t2)),
                forall|a: int, b: int| 0 <= a < b < r@.len() ==> r@[a].2 <= r@[b].2,
                forall|a: int| 0 <= a < r@.len() ==> (#[trigger] r@[a]).2 <= d,
            decreases len - t,
        {
            if unsorted[t].2 == d {
                let ghost idx0 = idx;
                let ghost r0 = r@;
                r.push((unsorted[t].0.clone(), unsorted[t].1.clone(), unsorted[t].2));
                proof {
                    idx = idx.push(t as int);
                    assert(r@[r@.len() - 1] == unsorted@[t as int]) by {
                        assert(unsorted@[t as int].0 == r@[r@.len() - 1].0);
                        assert(unsorted@[t as int].1 == r@[r@.len() - 1].1);
                    }
                    assert(!idx0.contains(t as int));
                    assert(idx.no_duplicates()) by {
                        assert forall|a: int, b: int| 0 <= a < idx.len() && 0 <= b < idx.len() && a != b implies idx[a] != idx[b] by {
                            if a == idx0.len() {
                                assert(idx0.contains(idx[b]));
                            } else if b == idx0.len() {
                                assert(idx0.contains(idx[a]));
                            }
                        }
                    }
                    assert forall|q: int| 0 <= q < idx.len() implies 0 <= #[trigger] idx[q] < len && r@[q] == unsorted@[idx[q]] by {
                        if q < idx0.len() {
                            assert(idx[q] == idx0[q]);
                            assert(r@[q] == r0[q]);
                        }
                    }
                    assert forall|t2: int| 0 <= t2 < len implies (((#[trigger] unsorted@[t2]).2 < d || (unsorted@[t2].2 == d && t2 < t + 1)) <==> idx.contains(t2)) by {
                        if idx.contains(t2) && t2 != t {
                            let q = choose|q: int| 0 <= q < idx.len() && idx[q] == t2;
                            assert(idx0[q] == t2);
                        }
                        if idx0.contains(t2) {
                            let q = choose|q: int| 0 <= q < idx0.len() && idx0[q] == t2;
                            assert(idx[q] == t2);
                        }
                        if t2 == t {
                            assert(idx[idx.len() - 1] == t2);
                        }
                    }
                    assert forall|a: int, b: int| 0 <= a < b < r@.len() implies r@[a].2 <= r@[b].2 by {
                        if b < r0.len() {
                            assert(r@[a] == r0[a]);
                            assert(r@[b] == r0[b]);
                        } else {
                            assert(r@[a] == r0[a]);
                        }
                    }
                    assert forall|a: int| 0 <= a < r@.len() implies (#[trigger] r@[a]).2 <= d by {
                        if a < r0.len() {
                            assert(r@[a] == r0[a]);
                        }
                    }
                }
            }
            t = t + 1;
        }
        if d == n {
            proof {
                assert forall|t2: int| 0 <= t2 < len implies idx.contains(t2) by {
                    assert(unsorted@[t2].2 <= n);
                }
            }
            break;
        }
        d = d + 1;
    }
    proof {
        let ks2 = Seq::new(idx.len(), |q: int| ks1[idx[q]]);
        assert(ks2.no_duplicates()) by {
            assert forall|a: int, b: int| 0 <= a < ks2.len() && 0 <= b < ks2.len() && a != b implies ks2[a] != ks2[b] by {
                assert(idx[a] != idx[b]);
            }
        }
        assert(ks2.to_set() =~= ks1.to_set()) by {
            assert forall|x: Seq<char>| ks1.to_set().contains(x) implies ks2.to_set().contains(x) by {
                let t2 = choose|t2: int| 0 <= t2 < ks1.len() && ks1[t2] == x;
                assert(idx.contains(t2));
                let q = choose|q: int| 0 <= q < idx.len() && idx[q] == t2;
                assert(ks2[q] == x);
            }
            assert forall|x: Seq<char>| ks2.to_set().contains(x) implies ks1.to_set().contains(x) by {
                let q = choose|q: int| 0 <= q < ks2.len() && ks2[q] == x;
                assert(ks1[idx[q]] == x);
            }
        }
        assert forall|q: int| 0 <= q < ks2.len() implies #[trigger] triple_views(r@)[q] == plan_entry(bm, bm[ks2[q]]) by {
            assert(r@[q] == unsorted@[idx[q]]);
            assert(triple_views(unsorted@)[idx[q]] == plan_entry(bm, bm[ks1[idx[q]]]));
        }
        assert(ks2.len() == r@.len());
    }
    r
}

proof fn lemma_depth_up_fuel(bm: BranchModel, rank: spec_fn(Seq<char>) -> nat, b: Seq<char>, f1: nat, f2: nat)
    requires
        parents_ranked(bm, rank),
        bm.contains_key(b) ==> rank(b) < f1 && rank(b) < f2,
    ensures
        depth_up(bm, b, f1) == depth_up(bm, b, f2),
    decreases f1,
{
    if f1 > 0 && f2 > 0 && bm.contains_key(b) {
        match bm[b].parent {
            Some(p) => lemma_depth_up_fuel(bm, rank, p, (f1 - 1) as nat, (f2 - 1) as nat),
            None => {},
        }
    }
}

/// A branch lies one level deeper than its recorded parent, so a plan
/// sorted by depth rebases every parent before its children.
pub proof fn law_parent_one_shallower(bm: BranchModel, k: Seq<char>, p: Seq<char>)
    requires
        parents_acyclic(bm),
        bm.contains_key(k),
        bm[k].parent == Some(p),
        bm.contains_key(p),
    ensures
        depth_up(bm, k, bm.len()) == depth_up(bm, p, bm.len()) + 1,
{
    let rank = choose|rank: spec_fn(Seq<char>) -> nat| parents_ranked(bm, rank);
    assert(rank(k) < bm.len());
    assert(rank(p) < rank(k));
    lemma_depth_up_fuel(bm, rank, p, (bm.len() - 1) as nat, bm.len());
}

} // verus!
