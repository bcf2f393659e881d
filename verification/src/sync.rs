//! Decisions taken while syncing with the remote: which branches of the
//! current stack are done with, and how deep a branch sits.
use vstd::prelude::*;
use crate::collections::{StrMap, StrSet};
use crate::navigate::spec_is_main;
use crate::stack::{parents_ranked, parents_acyclic, BranchModel, Stack, StackBranch, StackBranchView};
use crate::github::{PullRequest, PullRequestView};
use crate::repair::pv;
use crate::collections::Dup;
use crate::submit::{decimal, decimal_text};
use crate::text::{str_eq, views};

verus! {

/// Why a pull request's branch is done with: it was merged or closed.
pub open spec fn pr_done_reason(pr: PullRequestView) -> Option<Seq<char>> {
    if pr.state == "merged"@ {
        Some("PR #"@ + decimal_text(pr.number as nat) + " merged"@)
    } else if pr.state == "closed"@ {
        Some("PR #"@ + decimal_text(pr.number as nat) + " closed"@)
    } else {
        None
    }
}

/// Why a branch is done with: its pull request was merged or closed.
pub open spec fn done_reason(br: StackBranchView) -> Option<Seq<char>> {
    match br.pull_request {
        Some(pr) => pr_done_reason(pr),
        None => None,
    }
}

/// Why the branch of `pr` is done with, if it is.
pub fn merged_reason(pr: &PullRequest) -> (r: Option<String>)
    ensures
        match r {
            Some(m) => pr_done_reason(pr@) == Some(m@),
            None => pr_done_reason(pr@) is None,
        },
{
    if str_eq(pr.state.as_str(), "merged") {
        Some("PR #".to_owned().concat(decimal(pr.number).as_str()).concat(" merged"))
    } else if str_eq(pr.state.as_str(), "closed") {
        Some("PR #".to_owned().concat(decimal(pr.number).as_str()).concat(" closed"))
    } else {
        None
    }
}

/// A branch of the current stack, neither a main branch nor the trunk,
/// whose pull request was merged or closed.
pub open spec fn is_done(br: StackBranchView, trunk: Seq<char>, current_stack: Set<Seq<char>>) -> bool {
    &&& !spec_is_main(br.name)
    &&& br.name != trunk
    &&& current_stack.contains(br.name)
    &&& done_reason(br) is Some
}

/// The names in `s` whose records are done with.
pub open spec fn done_among(
    bm: BranchModel,
    trunk: Seq<char>,
    current_stack: Set<Seq<char>>,
    s: Set<Seq<char>>,
) -> Set<Seq<char>> {
    s.filter(|k: Seq<char>| is_done(bm[k], trunk, current_stack))
}

/// Each record of the stack whose branch is done with, as its name and the
/// reason, every such record once.
pub fn find_merged_branches(stack: &Stack, trunk: &str, current_stack: &StrSet) -> (r: Vec<(String, String)>)
    requires
        stack.branches.wf(),
        current_stack.wf(),
    ensures
        exists|ks: Seq<Seq<char>>|
            #![trigger ks.len()]
            ks.no_duplicates() && ks.len() == r@.len() && ks.to_set() == done_among(stack.branches@, trunk@, current_stack@, stack.branches@.dom()) && forall|i: int|
                0 <= i < ks.len() ==> #[trigger] r@[i].0@ == stack.branches@[ks[i]].name && r@[i].1@
                    == done_reason(stack.branches@[ks[i]]).unwrap(),
{
    let ghost bm = stack.branches@;
    proof {
        stack.branches.lemma_wf();
    }
    let ghost keys = stack.branches.keys();
    let mut r: Vec<(String, String)> = Vec::new();
    let ghost mut ks: Seq<Seq<char>> = Seq::empty();
    let n = stack.branches.len();
    let mut i: usize = 0;
    while i < n
        invariant
            stack.branches.wf(),
            bm == stack.branches@,
            keys == stack.branches.keys(),
            keys.no_duplicates(),
            n == keys.len(),
            keys.len() == stack.branches.vals().len(),
            forall|j: int| 0 <= j < keys.len() ==> #[trigger] bm[keys[j]] == stack.branches.vals()[j],
            forall|j: int| 0 <= j < keys.len() ==> bm.contains_key(#[trigger] keys[j]),
            current_stack.wf(),
            i <= n,
            ks.no_duplicates(),
            ks.len() == r@.len(),
            ks.to_set() == done_among(bm, trunk@, current_stack@, keys.take(i as int).to_set()),
            forall|t: int| 0 <= t < ks.len() ==> keys.take(i as int).contains(#[trigger] ks[t]),
            forall|t: int|
                0 <= t < ks.len() ==> #[trigger] r@[t].0@ == bm[ks[t]].name && r@[t].1@ == done_reason(
                    bm[ks[t]],
                ).unwrap(),
        decreases n - i,
    {
        let branch = stack.branches.value_at(i);
        let ghost k = keys[i as int];
        proof {
            assert(branch@ == bm[k]);
            assert(keys.take(i + 1) =~= keys.take(i as int).push(k));
            Seq::lemma_to_set_insert_commutes(keys.take(i as int), k);
            assert(keys.take(i as int).push(k) =~= keys.take(i as int) + seq![k]);
            assert(!keys.take(i as int).contains(k)) by {
                if keys.take(i as int).contains(k) {
                    let t = choose|t: int| 0 <= t < i && keys.take(i as int)[t] == k;
                    assert(keys[t] == k);
                }
            }
        }
        let name = branch.name.as_str();
        let mut reason: Option<String> = None;
        if !(str_eq(name, "main") || str_eq(name, "master") || str_eq(name, "develop")) && !str_eq(
            name,
            trunk,
        ) && current_stack.contains(name) {
            match &branch.pull_request {
                Some(pr) => {
                    reason = merged_reason(pr);
                },
                None => {},
            }
        }
        proof {
            assert(reason is Some <==> is_done(bm[k], trunk@, current_stack@));
            assert(reason is Some ==> reason.unwrap()@ == done_reason(bm[k]).unwrap());
        }
        let ghost ks0 = ks;
        match reason {
            Some(msg) => {
                r.push((branch.name.clone(), msg));
                proof {
                    ks = ks.push(k);
                    assert(!ks0.contains(k)) by {
                        if ks0.contains(k) {
                            let t = choose|t: int| 0 <= t < ks0.len() && ks0[t] == k;
                            assert(keys.take(i as int).contains(ks0[t]));
                        }
                    }
                    assert(ks.no_duplicates()) by {
                        assert forall|a: int, b: int| 0 <= a < ks.len() && 0 <= b < ks.len() && a != b
                            implies ks[a] != ks[b] by {
                            if a == ks0.len() {
                                assert(ks0.contains(ks[b]));
                            } else if b == ks0.len() {
                                assert(ks0.contains(ks[a]));
                            }
                        }
                    }
                    assert(ks.to_set() =~= done_among(bm, trunk@, current_stack@, keys.take(i + 1).to_set())) by {
                        assert(ks =~= ks0 + seq![k]);
                        Seq::lemma_to_set_insert_commutes(ks0, k);
                    }
                    assert forall|t: int| 0 <= t < ks.len() implies #[trigger] r@[t].0@ == bm[ks[t]].name
                        && r@[t].1@ == done_reason(bm[ks[t]]).unwrap() by {
                        if t < ks0.len() {
                            assert(ks[t] == ks0[t]);
                        }
                    }
                    assert forall|t: int| 0 <= t < ks.len() implies keys.take(i + 1).contains(#[trigger] ks[t]) by {
                        if t < ks0.len() {
                            assert(keys.take(i as int).contains(ks0[t]));
                            let q = choose|q: int| 0 <= q < i && keys.take(i as int)[q] == ks0[t];
                            assert(keys.take(i + 1)[q] == ks0[t]);
                        } else {
                            assert(keys.take(i + 1)[i as int] == k);
                        }
                    }
                }
            },
            None => {
                proof {
                    assert(ks.to_set() =~= done_among(bm, trunk@, current_stack@, keys.take(i + 1).to_set()));
                    assert forall|t: int| 0 <= t < ks.len() implies keys.take(i + 1).contains(#[trigger] ks[t]) by {
                        let q = choose|q: int| 0 <= q < i && keys.take(i as int)[q] == ks[t];
                        assert(keys.take(i + 1)[q] == ks[t]);
                    }
                }
            },
        }
        i = i + 1;
    }
    proof {
        assert(keys.take(n as int) =~= keys);
        assert(ks.to_set() =~= done_among(bm, trunk@, current_stack@, bm.dom()));
    }
    r
}

/// How many parent links lead up from `b`, following at most `fuel`.
pub open spec fn depth_up(bm: BranchModel, b: Seq<char>, fuel: nat) -> nat
    decreases fuel,
{
    if fuel == 0 || !bm.contains_key(b) {
        0
    } else {
        match bm[b].parent {
            Some(p) => 1 + depth_up(bm, p, (fuel - 1) as nat),
            None => 0,
        }
    }
}

/// How many parent links lead up from `branch_name` through recorded
/// branches.
pub fn branch_depth(stack: &Stack, branch_name: &str) -> (r: usize)
    requires
        stack.branches.wf(),
        parents_acyclic(stack.branches@),
    ensures
        r == depth_up(stack.branches@, branch_name@, stack.branches@.len()),
{
    let ghost bm = stack.branches@;
    let ghost rank = choose|rank: spec_fn(Seq<char>) -> nat| parents_ranked(bm, rank);
    proof {
        stack.branches.lemma_wf();
    }
    let n = stack.branches.len();
    let mut depth: usize = 0;
    let mut current: &str = branch_name;
    loop
        invariant_except_break
            bm.contains_key(current@) ==> rank(current@) + depth < bm.len(),
        invariant
            bm == stack.branches@,
            stack.branches.wf(),
            parents_ranked(bm, rank),
            bm.len() == n,
            depth <= bm.len(),
            depth + depth_up(bm, current@, (bm.len() - depth) as nat) == depth_up(
                bm,
                branch_name@,
                bm.len(),
            ),
        ensures
            depth == depth_up(bm, branch_name@, bm.len()),
        decreases
            if bm.contains_key(current@) {
                rank(current@) + 1
            } else {
                0
            },
    {
        match stack.branches.get(current) {
            Some(branch) => {
                match &branch.parent {
                    Some(parent) => {
                        proof {
                            if bm.contains_key(parent@) {
                                assert(rank(parent@) < rank(current@));
                            }
                        }
                        depth = depth + 1;
                        current = parent.as_str();
                    },
                    None => {
                        break ;
                    },
                }
            },
            None => {
                break ;
            },
        }
    }
    depth
}

/// Whether the current branch, missing from the analysed stack, may be a
/// branch merged into the trunk whose pull request should be looked up: it
/// is not in the stack, is neither a main branch nor the trunk, and its tip
/// is an ancestor of the trunk's.
pub fn may_be_locally_merged(stack: &Stack, trunk: &str, current_branch: &str, merged_into_trunk: bool) -> (r:
    bool)
    requires
        stack.branches.wf(),
    ensures
        r == (!stack.branches@.contains_key(current_branch@) && !spec_is_main(current_branch@)
            && current_branch@ != trunk@ && merged_into_trunk),
{
    if stack.branches.contains_key(current_branch) {
        return false;
    }
    if crate::navigate::is_main_branch(current_branch) || str_eq(current_branch, trunk) {
        return false;
    }
    merged_into_trunk
}

/// The branch to check out when a sync ends: the one it started on, or the
/// trunk when that branch is gone.
pub fn checkout_target<'a>(branches: &StrSet, original_branch: &'a str, trunk: &'a str) -> (r: &'a str)
    ensures
        r@ == if branches@.contains(original_branch@) {
            original_branch@
        } else {
            trunk@
        },
{
    if branches.contains(original_branch) {
        original_branch
    } else {
        trunk
    }
}

/// The parent map after the live pull requests are taken over it: a
/// branch with a record whose pull request goes into an existing branch
/// gets that branch as its parent; a later pull request wins.
pub open spec fn with_live_bases(
    pm: Map<Seq<char>, Option<Seq<char>>>,
    branches: Set<Seq<char>>,
    ps: Seq<PullRequestView>,
) -> Map<Seq<char>, Option<Seq<char>>>
    decreases ps.len(),
{
    if ps.len() == 0 {
        pm
    } else {
        let m = with_live_bases(pm, branches, ps.drop_last());
        let pr = ps.last();
        if m.contains_key(pr.head_ref) && branches.contains(pr.base_ref) {
            m.insert(pr.head_ref, Some(pr.base_ref))
        } else {
            m
        }
    }
}

/// Taking the live pull requests over a parent map keeps its branches; a
/// branch whose last pull request goes into an existing branch gets that
/// branch as its parent, whatever its parent was; a branch with no pull
/// request into an existing branch keeps its parent.
pub proof fn law_live_bases_taken(
    pm: Map<Seq<char>, Option<Seq<char>>>,
    branches: Set<Seq<char>>,
    ps: Seq<PullRequestView>,
)
    ensures
        with_live_bases(pm, branches, ps).dom() == pm.dom(),
        forall|i: int|
            0 <= i < ps.len() && pm.contains_key((#[trigger] ps[i]).head_ref) && branches.contains(ps[i].base_ref)
                && (forall|j: int| i < j < ps.len() ==> ps[j].head_ref != ps[i].head_ref)
                ==> with_live_bases(pm, branches, ps)[ps[i].head_ref] == Some(ps[i].base_ref),
        forall|h: Seq<char>|
            #[trigger] pm.contains_key(h) && (forall|j: int|
                0 <= j < ps.len() && ps[j].head_ref == h ==> !branches.contains(ps[j].base_ref))
                ==> with_live_bases(pm, branches, ps)[h] == pm[h],
    decreases ps.len(),
{
    if ps.len() > 0 {
        let init = ps.drop_last();
        let pr = ps.last();
        law_live_bases_taken(pm, branches, init);
        let m = with_live_bases(pm, branches, init);
        let r = with_live_bases(pm, branches, ps);
        assert(r.dom() =~= pm.dom());
        assert forall|i: int|
            0 <= i < ps.len() && pm.contains_key((#[trigger] ps[i]).head_ref) && branches.contains(ps[i].base_ref)
                && (forall|j: int| i < j < ps.len() ==> ps[j].head_ref != ps[i].head_ref)
                implies r[ps[i].head_ref] == Some(ps[i].base_ref) by {
            if i < ps.len() - 1 {
                assert(init[i] == ps[i]);
                assert forall|j: int| i < j < init.len() implies init[j].head_ref != init[i].head_ref by {
                    assert(init[j] == ps[j]);
                }
                assert(ps[ps.len() - 1].head_ref != ps[i].head_ref);
            }
        }
        assert forall|h: Seq<char>|
            #[trigger] pm.contains_key(h) && (forall|j: int|
                0 <= j < ps.len() && ps[j].head_ref == h ==> !branches.contains(ps[j].base_ref))
                implies r[h] == pm[h] by {
            assert forall|j: int| 0 <= j < init.len() && init[j].head_ref == h implies !branches.contains(init[j].base_ref) by {
                assert(init[j] == ps[j]);
            }
            assert(m[h] == pm[h]);
            if pr.head_ref == h {
                assert(ps[ps.len() - 1] == pr);
            }
        }
    }
}

/// The characters of a parent map.
pub open spec fn parent_views(m: Map<Seq<char>, Option<String>>) -> Map<Seq<char>, Option<Seq<char>>> {
    m.map_values(|o: Option<String>| crate::cache::opt_view(o))
}

/// Take the bases of the live pull requests over the parent map.
pub fn apply_live_pr_bases(parent_map: &mut StrMap<Option<String>>, branches: &StrSet, prs: &Vec<PullRequest>)
    requires
        old(parent_map).wf(),
    ensures
        final(parent_map).wf(),
        parent_views(final(parent_map)@) == with_live_bases(parent_views(old(parent_map)@), branches@, pv(prs@)),
        final(parent_map)@.dom() == old(parent_map)@.dom(),
        forall|i: int|
            0 <= i < prs@.len() && old(parent_map)@.contains_key((#[trigger] prs@[i]).head_ref@) && branches@.contains(
                prs@[i].base_ref@,
            ) && (forall|j: int| i < j < prs@.len() ==> prs@[j].head_ref@ != prs@[i].head_ref@)
                ==> parent_views(final(parent_map)@)[prs@[i].head_ref@] == Some(prs@[i].base_ref@),
{
    let ghost ps = pv(prs@);
    let ghost pm0 = parent_views(parent_map@);
    let mut i: usize = 0;
    proof {
        assert(ps.take(0) =~= Seq::<PullRequestView>::empty());
    }
    while i < prs.len()
        invariant
            ps == pv(prs@),
            i <= prs@.len(),
            parent_map.wf(),
            parent_views(parent_map@) == with_live_bases(pm0, branches@, ps.take(i as int)),
        decreases prs@.len() - i,
    {
        let pr = &prs[i];
        proof {
            assert(ps.take(i + 1).drop_last() =~= ps.take(i as int));
            assert(ps.take(i + 1).last() == pr@);
            assert(parent_views(parent_map@).dom() =~= parent_map@.dom());
        }
        let ghost before = parent_map@;
        if parent_map.contains_key(pr.head_ref.as_str()) && branches.contains(pr.base_ref.as_str()) {
            parent_map.insert(pr.head_ref.clone(), Some(pr.base_ref.clone()));
            proof {
                assert(parent_views(parent_map@) =~= parent_views(before).insert(pr.head_ref@, Some(pr.base_ref@)));
            }
        }
        i = i + 1;
    }
    proof {
        assert(ps.take(i as int) =~= ps);
        law_live_bases_taken(pm0, branches@, ps);
        assert(parent_views(parent_map@).dom() =~= parent_map@.dom());
        assert(pm0.dom() =~= old(parent_map)@.dom());
        assert forall|i: int|
            0 <= i < prs@.len() && old(parent_map)@.contains_key((#[trigger] prs@[i]).head_ref@) && branches@.contains(
                prs@[i].base_ref@,
            ) && (forall|j: int| i < j < prs@.len() ==> prs@[j].head_ref@ != prs@[i].head_ref@)
            implies parent_views(parent_map@)[prs@[i].head_ref@] == Some(prs@[i].base_ref@) by {
            assert(ps[i] == prs@[i]@);
            assert forall|j: int| i < j < ps.len() implies ps[j].head_ref != ps[i].head_ref by {
                assert(ps[j] == prs@[j]@);
            }
        }
    }
}

/// The stack's records after each pull request is attached to the record
/// of its head branch; a later pull request wins.
pub open spec fn with_prs(bm: BranchModel, ps: Seq<PullRequestView>) -> BranchModel
    decreases ps.len(),
{
    if ps.len() == 0 {
        bm
    } else {
        let m = with_prs(bm, ps.drop_last());
        let pr = ps.last();
        if m.contains_key(pr.head_ref) {
            m.insert(pr.head_ref, StackBranchView { pull_request: Some(pr), ..m[pr.head_ref] })
        } else {
            m
        }
    }
}

/// Attach each pull request to the record of its head branch.
pub fn attach_pull_requests(stack: &mut Stack, prs: &Vec<PullRequest>)
    requires
        old(stack).branches.wf(),
    ensures
        final(stack).branches.wf(),
        final(stack).branches@ == with_prs(old(stack).branches@, pv(prs@)),
        final(stack).roots@ == old(stack).roots@,
        final(stack).current_branch == old(stack).current_branch,
{
    let ghost ps = pv(prs@);
    let ghost bm0 = stack.branches@;
    let mut i: usize = 0;
    proof {
        assert(ps.take(0) =~= Seq::<PullRequestView>::empty());
    }
    while i < prs.len()
        invariant
            ps == pv(prs@),
            i <= prs@.len(),
            stack.branches.wf(),
            stack.branches@ == with_prs(bm0, ps.take(i as int)),
            stack.roots@ == old(stack).roots@,
            stack.current_branch == old(stack).current_branch,
        decreases prs@.len() - i,
    {
        let pr = &prs[i];
        proof {
            assert(ps.take(i + 1).drop_last() =~= ps.take(i as int));
            assert(ps.take(i + 1).last() == pr@);
        }
        let updated = match stack.branches.get(pr.head_ref.as_str()) {
            Some(b) => {
                let mut nb = b.dup();
                nb.pull_request = Some(pr.dup());
                Some(nb)
            },
            None => None,
        };
        match updated {
            Some(nb) => {
                stack.branches.insert(pr.head_ref.clone(), nb);
            },
            None => {},
        }
        i = i + 1;
    }
    proof {
        assert(ps.take(i as int) =~= ps);
    }
}

/// The branches, other than main branches, for which no pull request is
/// known yet, in order.
pub fn branches_missing_prs(branches: &Vec<String>, prs: &StrMap<PullRequest>) -> (r: Vec<String>)
    requires
        prs.wf(),
    ensures
        views(r@) == views(branches@).filter(|b: Seq<char>| !spec_is_main(b) && !prs@.contains_key(b)),
{
    let ghost bv = views(branches@);
    let ghost keep = |b: Seq<char>| !spec_is_main(b) && !prs@.contains_key(b);
    let mut r: Vec<String> = Vec::new();
    let mut i: usize = 0;
    proof {
        assert(bv.take(0) =~= Seq::<Seq<char>>::empty());
        assert(bv.take(0).filter(keep) =~= Seq::<Seq<char>>::empty());
    }
    while i < branches.len()
        invariant
            prs.wf(),
            bv == views(branches@),
            keep == (|b: Seq<char>| !spec_is_main(b) && !prs@.contains_key(b)),
            i <= branches@.len(),
            views(r@) == bv.take(i as int).filter(keep),
        decreases branches@.len() - i,
    {
        let b = &branches[i];
        let ghost before = views(r@);
        proof {
            assert(bv.take(i + 1) =~= bv.take(i as int).push(b@));
            bv.take(i as int).lemma_filter_push(b@, keep);
        }
        if !crate::navigate::is_main_branch(b.as_str()) && !prs.contains_key(b.as_str()) {
            r.push(b.clone());
            proof {
                assert(views(r@) =~= before.push(b@));
            }
        }
        i = i + 1;
    }
    proof {
        assert(bv.take(i as int) =~= bv);
    }
    r
}

} // verus!
