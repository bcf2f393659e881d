//! Checking branch topology against the pull-request chain: what parent
//! each branch should have, in which order to fix them, and the parents of
//! branches that have no pull request of their own.
use vstd::prelude::*;
use crate::collections::{StrMap, StrSet};
use crate::github::{PullRequest, PullRequestView};
use crate::navigate::spec_is_main;
use crate::text::{str_eq, views};

verus! {

/// For each base branch, the head branches of the pull requests into it.
pub type HeadsModel = Map<Seq<char>, Seq<Seq<char>>>;

/// The lists of a string-keyed map of string lists, by their characters.
pub open spec fn views_map(m: Map<Seq<char>, Seq<String>>) -> HeadsModel {
    m.map_values(|v: Seq<String>| views(v))
}

/// A pull request leads from base `x` to head `y`.
pub open spec fn pr_step(m: HeadsModel, x: Seq<char>, y: Seq<char>) -> bool {
    m.contains_key(x) && m[x].contains(y)
}

/// A pull request leads from `p[i]` to `p[i + 1]`.
pub open spec fn step_at(m: HeadsModel, p: Seq<Seq<char>>, i: int) -> bool {
    pr_step(m, p[i], p[i + 1])
}

/// `p` follows pull requests from base to head, one step or more.
pub open spec fn pr_chain(m: HeadsModel, p: Seq<Seq<char>>) -> bool {
    &&& p.len() >= 2
    &&& forall|i: int| 0 <= i < p.len() - 1 ==> #[trigger] step_at(m, p, i)
}

/// The branches reached from `b` by following pull requests from base to
/// head one or more times.
pub open spec fn descendants(m: HeadsModel, b: Seq<char>) -> Set<Seq<char>> {
    Set::new(|y: Seq<char>| exists|p: Seq<Seq<char>>| #[trigger] pr_chain(m, p) && p[0] == b && p.last() == y)
}

/// Every head listed in `m` under a key of `keys`.
pub open spec fn heads_under(m: HeadsModel, keys: Set<Seq<char>>) -> Set<Seq<char>> {
    Set::new(|y: Seq<char>| exists|k: Seq<char>| keys.contains(k) && m.contains_key(k) && #[trigger] m[k].contains(y))
}

proof fn lemma_heads_under_finite(m: HeadsModel, keys: Set<Seq<char>>)
    requires
        keys.finite(),
    ensures
        heads_under(m, keys).finite(),
    decreases keys.len(),
{
    if keys.len() == 0 {
        assert(keys =~= Set::<Seq<char>>::empty());
        assert(heads_under(m, keys) =~= Set::<Seq<char>>::empty());
    } else {
        let k = keys.choose();
        assert(keys.contains(k));
        let rest = keys.remove(k);
        lemma_heads_under_finite(m, rest);
        let own = if m.contains_key(k) {
            m[k].to_set()
        } else {
            Set::<Seq<char>>::empty()
        };
        assert(heads_under(m, keys).subset_of(heads_under(m, rest).union(own))) by {
            assert forall|y: Seq<char>| heads_under(m, keys).contains(y) implies heads_under(m, rest).union(
                own,
            ).contains(y) by {
                let k2 = choose|k2: Seq<char>| keys.contains(k2) && m.contains_key(k2) && #[trigger] m[k2].contains(y);
                if k2 != k {
                    assert(rest.contains(k2));
                } else {
                    assert(own.contains(y));
                }
            }
        }
        vstd::set_lib::lemma_set_union_finite_iff(heads_under(m, rest), own);
        vstd::set_lib::lemma_len_subset(heads_under(m, keys), heads_under(m, rest).union(own));
    }
}

/// A chain from `b` whose every branch other than the last lies in
/// `closed`, a set closed under steps, ends in `closed` when it starts at a
/// member of `closed` or at `b`, all of whose steps land in `closed`.
proof fn lemma_chain_stays_closed(m: HeadsModel, b: Seq<char>, closed: Set<Seq<char>>, p: Seq<Seq<char>>)
    requires
        pr_chain(m, p),
        p[0] == b,
        forall|x: Seq<char>, y: Seq<char>|
            (x == b || closed.contains(x)) && #[trigger] pr_step(m, x, y) ==> closed.contains(y),
    ensures
        closed.contains(p.last()),
    decreases p.len(),
{
    let n = p.len();
    if n == 2 {
        assert(step_at(m, p, 0));
    } else {
        let q = p.drop_last();
        assert(pr_chain(m, q)) by {
            assert forall|i: int| 0 <= i < q.len() - 1 implies #[trigger] step_at(m, q, i) by {
                assert(q[i] == p[i]);
                assert(q[i + 1] == p[i + 1]);
                assert(step_at(m, p, i));
            }
        }
        lemma_chain_stays_closed(m, b, closed, q);
        assert(q.last() == p[n - 2]);
        assert(step_at(m, p, n - 2));
    }
}

/// Every branch reached from `branch` by following pull requests from base
/// to head, one step or more.
pub fn collect_descendants(branch: &str, base_to_heads: &StrMap<Vec<String>>) -> (r: StrSet)
    requires
        base_to_heads.wf(),
    ensures
        r.wf(),
        r@ == descendants(views_map(base_to_heads@), branch@),
{
    let ghost m = views_map(base_to_heads@);
    let ghost b = branch@;
    let ghost universe = heads_under(m, m.dom());
    proof {
        base_to_heads.lemma_wf();
        assert(m.dom() =~= base_to_heads@.dom());
        lemma_heads_under_finite(m, m.dom());
    }
    let mut found = StrSet::new();
    let mut queue: Vec<String> = Vec::new();
    queue.push(branch.to_owned());
    proof {
        assert(views(queue@) =~= seq![b]);
        assert(views(queue@)[0] == b);
    }
    while queue.len() > 0
        invariant
            base_to_heads.wf(),
            m == views_map(base_to_heads@),
            universe == heads_under(m, m.dom()),
            universe.finite(),
            found.wf(),
            found@.subset_of(universe),
            found@.subset_of(descendants(m, b)),
            forall|i: int| 0 <= i < queue@.len() ==> (#[trigger] queue@[i])@ == b || found@.contains(queue@[i]@),
            forall|x: Seq<char>, y: Seq<char>|
                (x == b || found@.contains(x)) && !views(queue@).contains(x) && #[trigger] pr_step(m, x, y)
                    ==> found@.contains(y),
        decreases universe.len() - found@.len(), queue@.len(),
    {
        proof {
            vstd::set_lib::lemma_len_subset(found@, universe);
        }
        let ghost found0 = found@;
        let ghost q0 = views(queue@);
        let current = queue.pop().unwrap();
        let ghost cur = current@;
        proof {
            assert(q0 =~= views(queue@).push(cur));
            assert(cur == b || found@.contains(cur)) by {
                assert(queue@.len() + 1 == q0.len());
                assert(q0[q0.len() - 1] == cur);
            }
        }
        match base_to_heads.get(current.as_str()) {
            Some(heads) => {
                let ghost hs = views(heads@);
                proof {
                    assert(m.contains_key(cur) && m[cur] == hs);
                }
                let mut j: usize = 0;
                while j < heads.len()
                    invariant
                        base_to_heads.wf(),
                        m == views_map(base_to_heads@),
                        universe == heads_under(m, m.dom()),
                        universe.finite(),
                        m.contains_key(cur),
                        m[cur] == hs,
                        hs == views(heads@),
                        cur == b || found@.contains(cur),
                        j <= heads@.len(),
                        found.wf(),
                        found@.subset_of(universe),
                        found@.subset_of(descendants(m, b)),
                        found0.subset_of(found@),
                        found@.len() >= found0.len(),
                        found@.len() == found0.len() ==> queue@.len() + 1 == q0.len(),
                        forall|i: int| 0 <= i < queue@.len() ==> (#[trigger] queue@[i])@ == b || found@.contains(queue@[i]@),
                        forall|t: int| 0 <= t < j ==> found@.contains(#[trigger] hs[t]),
                        forall|x: Seq<char>, y: Seq<char>|
                            x != cur && (x == b || found@.contains(x)) && !views(queue@).contains(x) && #[trigger] pr_step(m, x, y)
                                ==> found@.contains(y),
                    decreases heads@.len() - j,
                {
                    let head = &heads[j];
                    let ghost h = head@;
                    proof {
                        assert(h == hs[j as int]);
                        assert(m[cur].contains(h));
                    }
                    let ghost f1 = found@;
                    let ghost vq1 = views(queue@);
                    if found.insert(head.clone()) {
                        queue.push(head.clone());
                        proof {
                            assert(views(queue@) =~= vq1.push(h));
                            assert(universe.contains(h)) by {
                                assert(m.dom().contains(cur) && m.contains_key(cur) && m[cur].contains(h));
                            }
                            assert(descendants(m, b).contains(h)) by {
                                if cur == b {
                                    let p = seq![b, h];
                                    assert(step_at(m, p, 0));
                                    assert(pr_chain(m, p));
                                    assert(p[0] == b && p.last() == h);
                                } else {
                                    assert(descendants(m, b).contains(cur));
                                    let p = choose|p: Seq<Seq<char>>| #[trigger] pr_chain(m, p) && p[0] == b && p.last() == cur;
                                    let p2 = p.push(h);
                                    assert(pr_chain(m, p2)) by {
                                        assert forall|i: int| 0 <= i < p2.len() - 1 implies #[trigger] step_at(m, p2, i) by {
                                            if i < p.len() - 1 {
                                                assert(p2[i] == p[i]);
                                                assert(p2[i + 1] == p[i + 1]);
                                                assert(step_at(m, p, i));
                                            } else {
                                                assert(p2[i] == cur);
                                                assert(p2[i + 1] == h);
                                            }
                                        }
                                    }
                                    assert(p2[0] == b && p2.last() == h);
                                }
                            }
                            assert(f1.insert(h).len() == f1.len() + 1);
                            assert forall|i: int| 0 <= i < queue@.len() implies (#[trigger] queue@[i])@ == b || found@.contains(queue@[i]@) by {
                                if i < vq1.len() {
                                    assert(queue@[i]@ == vq1[i]);
                                }
                            }
                            assert forall|x: Seq<char>, y: Seq<char>|
                                x != cur && (x == b || found@.contains(x)) && !views(queue@).contains(x) && #[trigger] pr_step(m, x, y)
                                    implies found@.contains(y) by {
                                if x != h {
                                    assert(!vq1.contains(x)) by {
                                        if vq1.contains(x) {
                                            let t = choose|t: int| 0 <= t < vq1.len() && vq1[t] == x;
                                            assert(views(queue@)[t] == x);
                                        }
                                    }
                                } else {
                                    assert(views(queue@)[vq1.len() as int] == h);
                                }
                            }
                        }
                    }
                    j = j + 1;
                }
                proof {
                    assert forall|y: Seq<char>| #[trigger] pr_step(m, cur, y) implies found@.contains(y) by {
                        let t = choose|t: int| 0 <= t < hs.len() && hs[t] == y;
                    }
                }
            },
            None => {
                proof {
                    assert(!m.contains_key(cur));
                }
            },
        }
        proof {
            assert forall|i: int| 0 <= i < queue@.len() implies (#[trigger] queue@[i])@ == b || found@.contains(queue@[i]@) by {}
            assert forall|x: Seq<char>, y: Seq<char>|
                (x == b || found@.contains(x)) && !views(queue@).contains(x) && #[trigger] pr_step(m, x, y)
                    implies found@.contains(y) by {
                if x != cur {
                }
            }
            vstd::set_lib::lemma_len_subset(found@, universe);
        }
    }
    proof {
        assert(views(queue@) =~= Seq::<Seq<char>>::empty());
        let closed = found@;
        assert(descendants(m, b) =~= found@) by {
            assert forall|y: Seq<char>| descendants(m, b).contains(y) implies found@.contains(y) by {
                let p = choose|p: Seq<Seq<char>>| #[trigger] pr_chain(m, p) && p[0] == b && p.last() == y;
                lemma_chain_stays_closed(m, b, closed, p);
            }
        }
    }
    found
}

/// The branch names of a list of (branch, parent) pairs.
pub open spec fn pair_keys(r: Seq<(String, String)>) -> Seq<Seq<char>> {
    r.map_values(|e: (String, String)| e.0@)
}

/// `rank` falls from each branch to its expected parent when that parent
/// has an expected parent too.
pub open spec fn expected_ranked(m: Map<Seq<char>, Seq<char>>, rank: spec_fn(Seq<char>) -> nat) -> bool {
    forall|k: Seq<char>| #[trigger] m.contains_key(k) && m.contains_key(m[k]) ==> rank(m[k]) < rank(k)
}

/// Expected parents form no cycle.
pub open spec fn expected_acyclic(m: Map<Seq<char>, Seq<char>>) -> bool {
    exists|rank: spec_fn(Seq<char>) -> nat| expected_ranked(m, rank)
}

/// A ranking that falls along expected parents, when there is one.
pub open spec fn expected_rank(m: Map<Seq<char>, Seq<char>>) -> spec_fn(Seq<char>) -> nat {
    choose|rank: spec_fn(Seq<char>) -> nat| expected_ranked(m, rank)
}

/// Every listed branch whose expected parent is itself in the map comes
/// after that parent.
pub open spec fn parents_listed_first(m: Map<Seq<char>, Seq<char>>, ks: Seq<Seq<char>>) -> bool {
    forall|i: int|
        0 <= i < ks.len() && m.contains_key(m[#[trigger] ks[i]]) ==> exists|j: int| 0 <= j < i && ks[j] == m[ks[i]]
}

/// The pairs of `r` are (branch, expected parent) pairs of `m`.
pub open spec fn pairs_of(m: Map<Seq<char>, Seq<char>>, r: Seq<(String, String)>) -> bool {
    forall|i: int| 0 <= i < r.len() ==> m.contains_key((#[trigger] r[i]).0@) && r[i].1@ == m[r[i].0@]
}

/// List `branch`, after its expected parent when that parent is in the map
/// and not yet listed.  `in_progress` holds the branches whose listing is
/// under way further up.
fn visit(
    expected_parents: &StrMap<String>,
    branch: &str,
    visited: &mut StrSet,
    result: &mut Vec<(String, String)>,
    Ghost(in_progress): Ghost<Set<Seq<char>>>,
)
    requires
        expected_parents.wf(),
        old(visited).wf(),
        expected_parents@.contains_key(branch@),
        old(visited)@.subset_of(expected_parents@.dom()),
        old(visited)@ == pair_keys(old(result)@).to_set() + in_progress,
        in_progress.subset_of(old(visited)@),
        pair_keys(old(result)@).no_duplicates(),
        forall|x: Seq<char>| in_progress.contains(x) ==> !pair_keys(old(result)@).contains(x),
        pairs_of(expected_parents@, old(result)@),
        expected_ranked(expected_parents@, expected_rank(expected_parents@)) ==> parents_listed_first(
            expected_parents@,
            pair_keys(old(result)@),
        ),
        expected_ranked(expected_parents@, expected_rank(expected_parents@)) ==> forall|x: Seq<char>|
            #[trigger] in_progress.contains(x) ==> expected_rank(expected_parents@)(branch@)
                < expected_rank(expected_parents@)(x),
    ensures
        final(visited).wf(),
        final(visited)@.subset_of(expected_parents@.dom()),
        old(visited)@.subset_of(final(visited)@),
        final(visited)@.contains(branch@),
        final(visited)@ == pair_keys(final(result)@).to_set() + in_progress,
        pair_keys(final(result)@).no_duplicates(),
        forall|x: Seq<char>| in_progress.contains(x) ==> !pair_keys(final(result)@).contains(x),
        pairs_of(expected_parents@, final(result)@),
        final(result)@.len() >= old(result)@.len(),
        final(result)@.take(old(result)@.len() as int) == old(result)@,
        !in_progress.contains(branch@) ==> pair_keys(final(result)@).contains(branch@),
        expected_ranked(expected_parents@, expected_rank(expected_parents@)) ==> parents_listed_first(
            expected_parents@,
            pair_keys(final(result)@),
        ),
    decreases expected_parents@.dom().difference(old(visited)@).len(),
{
    let ghost m = expected_parents@;
    let ghost rank = expected_rank(m);
    proof {
        expected_parents.lemma_wf();
        visited.lemma_wf();
    }
    if visited.contains(branch) {
        proof {
            assert(result@.take(result@.len() as int) =~= result@);
            if !in_progress.contains(branch@) {
                assert(pair_keys(result@).to_set().contains(branch@));
            }
        }
        return;
    }
    let ghost v0 = visited@;
    visited.insert(branch.to_owned());
    let ghost stack2 = in_progress.insert(branch@);
    let ghost r0 = result@;
    proof {
        assert(!pair_keys(r0).contains(branch@)) by {
            if pair_keys(r0).contains(branch@) {
                assert(pair_keys(r0).to_set().contains(branch@));
            }
        }
        assert(visited@ =~= pair_keys(r0).to_set() + stack2);
    }
    let parent = expected_parents.get(branch).unwrap();
    if expected_parents.contains_key(parent.as_str()) {
        proof {
            assert(v0.subset_of(m.dom()));
            assert(m.dom().difference(visited@) =~= m.dom().difference(v0).remove(branch@));
            vstd::set_lib::lemma_set_difference_len(m.dom(), v0);
            assert(m.dom().difference(v0).contains(branch@));
            if expected_ranked(m, rank) {
                assert(rank(parent@) < rank(branch@));
                assert forall|x: Seq<char>| #[trigger] stack2.contains(x) implies rank(parent@) < rank(x) by {
                    if x != branch@ {
                        assert(in_progress.contains(x));
                    }
                }
            }
        }
        visit(expected_parents, parent.as_str(), visited, result, Ghost(stack2));
    }
    let ghost r1 = result@;
    proof {
        assert(!in_progress.contains(branch@));
        assert forall|x: Seq<char>| #[trigger] stack2.contains(x) implies !pair_keys(r1).contains(x) by {
            if !m.contains_key(parent@) {
                assert(r1 == r0);
            }
        }
        if expected_ranked(m, rank) && m.contains_key(parent@) {
            assert(!stack2.contains(parent@)) by {
                if stack2.contains(parent@) {
                    if parent@ == branch@ {
                        assert(rank(parent@) < rank(branch@));
                    } else {
                        assert(in_progress.contains(parent@));
                        assert(rank(branch@) < rank(parent@));
                        assert(rank(parent@) < rank(branch@));
                    }
                }
            }
        }
    }
    result.push((branch.to_owned(), parent.clone()));
    proof {
        assert(pair_keys(result@) =~= pair_keys(r1).push(branch@));
        assert(!pair_keys(r1).contains(branch@)) by {
            if pair_keys(r1).contains(branch@) {
                assert(pair_keys(r1).to_set().contains(branch@));
                assert(!stack2.contains(branch@) || true);
            }
        }
        assert(pair_keys(result@).no_duplicates()) by {
            let ks = pair_keys(result@);
            let k1 = pair_keys(r1);
            assert forall|a: int, b: int| 0 <= a < ks.len() && 0 <= b < ks.len() && a != b implies ks[a] != ks[b] by {
                if a == k1.len() {
                    assert(k1.contains(ks[b]));
                } else if b == k1.len() {
                    assert(k1.contains(ks[a]));
                }
            }
        }
        Seq::lemma_to_set_insert_commutes(pair_keys(r1), branch@);
        assert(pair_keys(r1).push(branch@) =~= pair_keys(r1) + seq![branch@]);
        assert(visited@ =~= pair_keys(result@).to_set() + in_progress);
        assert(result@.take(r0.len() as int) =~= r0) by {
            assert(r1.take(r0.len() as int) == r0);
            assert forall|i: int| 0 <= i < r0.len() implies result@[i] == r1[i] by {}
        }
        assert(pairs_of(m, result@)) by {
            assert forall|i: int| 0 <= i < result@.len() implies m.contains_key((#[trigger] result@[i]).0@)
                && result@[i].1@ == m[result@[i].0@] by {
                if i < r1.len() {
                    assert(result@[i] == r1[i]);
                }
            }
        }
        assert forall|x: Seq<char>| in_progress.contains(x) implies !pair_keys(result@).contains(x) by {
            if pair_keys(result@).contains(x) {
                let t = choose|t: int| 0 <= t < pair_keys(result@).len() && pair_keys(result@)[t] == x;
                if t < r1.len() {
                    assert(pair_keys(r1)[t] == x);
                    assert(stack2.contains(x));
                } else {
                    assert(x == branch@);
                }
            }
        }
        assert(pair_keys(result@)[r1.len() as int] == branch@);
        if expected_ranked(m, rank) {
            let ks = pair_keys(result@);
            let k1 = pair_keys(r1);
            assert forall|i: int| 0 <= i < ks.len() && m.contains_key(m[#[trigger] ks[i]]) implies exists|j: int|
                0 <= j < i && ks[j] == m[ks[i]] by {
                if i < k1.len() {
                    assert(ks[i] == k1[i]);
                    assert(parents_listed_first(m, k1));
                    assert(m.contains_key(m[k1[i]]));
                    let j = choose|j: int| 0 <= j < i && k1[j] == m[k1[i]];
                    assert(ks[j] == k1[j]);
                } else {
                    assert(ks[i] == branch@);
                    assert(m[branch@] == parent@);
                    assert(k1.contains(parent@)) by {
                        assert(!stack2.contains(parent@));
                    }
                    let j = choose|j: int| 0 <= j < k1.len() && k1[j] == parent@;
                    assert(ks[j] == k1[j]);
                }
            }
        }
    }
}

/// The (branch, expected parent) pairs in an order that lists each
/// branch's expected parent before it whenever the expected parents form no
/// cycle.
pub fn topological_sort(expected_parents: &StrMap<String>) -> (r: Vec<(String, String)>)
    requires
        expected_parents.wf(),
    ensures
        pair_keys(r@).no_duplicates(),
        pair_keys(r@).to_set() == expected_parents@.dom(),
        pairs_of(expected_parents@, r@),
        expected_acyclic(expected_parents@) ==> parents_listed_first(expected_parents@, pair_keys(r@)),
{
    let ghost m = expected_parents@;
    proof {
        expected_parents.lemma_wf();
    }
    let mut result: Vec<(String, String)> = Vec::new();
    let mut visited = StrSet::new();
    let n = expected_parents.len();
    let mut i: usize = 0;
    proof {
        assert(pair_keys(result@) =~= Seq::<Seq<char>>::empty());
        assert(visited@ =~= pair_keys(result@).to_set() + Set::<Seq<char>>::empty());
    }
    while i < n
        invariant
            expected_parents.wf(),
            m == expected_parents@,
            n == expected_parents.keys().len(),
            forall|k: Seq<char>| #[trigger] expected_parents.keys().contains(k) == m.contains_key(k),
            i <= n,
            visited.wf(),
            visited@.subset_of(m.dom()),
            visited@ == pair_keys(result@).to_set() + Set::<Seq<char>>::empty(),
            forall|t: int| 0 <= t < i ==> visited@.contains(#[trigger] expected_parents.keys()[t]),
            pair_keys(result@).no_duplicates(),
            pairs_of(m, result@),
            expected_ranked(m, expected_rank(m)) ==> parents_listed_first(m, pair_keys(result@)),
        decreases n - i,
    {
        let key = expected_parents.key_at(i);
        proof {
            assert(expected_parents.keys().contains(expected_parents.keys()[i as int]));
        }
        visit(expected_parents, key.as_str(), &mut visited, &mut result, Ghost(Set::empty()));
        i = i + 1;
    }
    proof {
        assert(pair_keys(result@).to_set() =~= m.dom()) by {
            assert forall|k: Seq<char>| m.contains_key(k) implies pair_keys(result@).to_set().contains(k) by {
                assert(expected_parents.keys().contains(k));
                let t = choose|t: int| 0 <= t < expected_parents.keys().len() && expected_parents.keys()[t] == k;
                assert(visited@.contains(expected_parents.keys()[t]));
            }
            assert(visited@ =~= pair_keys(result@).to_set());
        }
        if expected_acyclic(m) {
            assert(expected_ranked(m, expected_rank(m)));
        }
    }
    result
}

/// The pull requests of a list of borrowed ones.
pub open spec fn prv(s: Seq<&PullRequest>) -> Seq<PullRequestView> {
    s.map_values(|p: &PullRequest| p@)
}

/// The heads of the pull requests into `b`, in order.
pub open spec fn heads_from(ps: Seq<PullRequestView>, b: Seq<char>) -> Seq<Seq<char>>
    decreases ps.len(),
{
    if ps.len() == 0 {
        Seq::empty()
    } else {
        let rest = heads_from(ps.drop_last(), b);
        if ps.last().base_ref == b {
            rest.push(ps.last().head_ref)
        } else {
            rest
        }
    }
}

/// The branches some pull request goes into.
pub open spec fn base_set(ps: Seq<PullRequestView>) -> Set<Seq<char>> {
    Set::new(|b: Seq<char>| exists|i: int| 0 <= i < ps.len() && #[trigger] ps[i].base_ref == b)
}

/// The branches some pull request comes from.
pub open spec fn head_set(ps: Seq<PullRequestView>) -> Set<Seq<char>> {
    Set::new(|h: Seq<char>| exists|i: int| 0 <= i < ps.len() && #[trigger] ps[i].head_ref == h)
}

/// For each base branch, the heads of the pull requests into it.
pub open spec fn heads_model(ps: Seq<PullRequestView>) -> HeadsModel {
    Map::new(|b: Seq<char>| base_set(ps).contains(b), |b: Seq<char>| heads_from(ps, b))
}

proof fn lemma_heads_from_absent(ps: Seq<PullRequestView>, b: Seq<char>)
    requires
        !base_set(ps).contains(b),
    ensures
        heads_from(ps, b) == Seq::<Seq<char>>::empty(),
    decreases ps.len(),
{
    if ps.len() > 0 {
        let init = ps.drop_last();
        assert(!base_set(init).contains(b)) by {
            if base_set(init).contains(b) {
                let i = choose|i: int| 0 <= i < init.len() && #[trigger] init[i].base_ref == b;
                assert(ps[i].base_ref == b);
            }
        }
        lemma_heads_from_absent(init, b);
        assert(ps[ps.len() - 1].base_ref != b);
    }
}

proof fn lemma_sets_step(ps: Seq<PullRequestView>, i: int)
    requires
        0 <= i < ps.len(),
    ensures
        base_set(ps.take(i + 1)) == base_set(ps.take(i)).insert(ps[i].base_ref),
        head_set(ps.take(i + 1)) == head_set(ps.take(i)).insert(ps[i].head_ref),
        ps.take(i + 1).drop_last() == ps.take(i),
        ps.take(i + 1).last() == ps[i],
{
    let a = ps.take(i + 1);
    let b = ps.take(i);
    assert(a.drop_last() =~= b);
    assert forall|x: Seq<char>| base_set(a).contains(x) == base_set(b).insert(ps[i].base_ref).contains(x) by {
        if base_set(a).contains(x) {
            let t = choose|t: int| 0 <= t < a.len() && #[trigger] a[t].base_ref == x;
            if t < i {
                assert(b[t].base_ref == x);
            }
        }
        if base_set(b).contains(x) {
            let t = choose|t: int| 0 <= t < b.len() && #[trigger] b[t].base_ref == x;
            assert(a[t].base_ref == x);
        }
        if x == ps[i].base_ref {
            assert(a[i].base_ref == x);
        }
    }
    assert forall|x: Seq<char>| head_set(a).contains(x) == head_set(b).insert(ps[i].head_ref).contains(x) by {
        if head_set(a).contains(x) {
            let t = choose|t: int| 0 <= t < a.len() && #[trigger] a[t].head_ref == x;
            if t < i {
                assert(b[t].head_ref == x);
            }
        }
        if head_set(b).contains(x) {
            let t = choose|t: int| 0 <= t < b.len() && #[trigger] b[t].head_ref == x;
            assert(a[t].head_ref == x);
        }
        if x == ps[i].head_ref {
            assert(a[i].head_ref == x);
        }
    }
    assert(base_set(a) =~= base_set(b).insert(ps[i].base_ref));
    assert(head_set(a) =~= head_set(b).insert(ps[i].head_ref));
}

/// For each base branch, the heads of the pull requests into it, in order.
pub fn heads_by_base(prs: &Vec<&PullRequest>) -> (r: StrMap<Vec<String>>)
    ensures
        r.wf(),
        views_map(r@) == heads_model(prv(prs@)),
{
    let ghost ps = prv(prs@);
    let mut map: StrMap<Vec<String>> = StrMap::new();
    let mut i: usize = 0;
    proof {
        assert(views_map(map@) =~= heads_model(ps.take(0)));
    }
    while i < prs.len()
        invariant
            ps == prv(prs@),
            i <= prs@.len(),
            map.wf(),
            views_map(map@) == heads_model(ps.take(i as int)),
        decreases prs@.len() - i,
    {
        let pr = prs[i];
        proof {
            lemma_sets_step(ps, i as int);
            assert(ps[i as int] == pr@);
        }
        let ghost before = map@;
        let ghost pre = ps.take(i as int);
        let ghost post = ps.take(i + 1);
        let ghost base = pr.base_ref@;
        proof {
            assert(heads_from(post, base) == heads_from(pre, base).push(pr.head_ref@));
        }
        match map.get(pr.base_ref.as_str()) {
            Some(heads) => {
                let mut updated = crate::collections::dup_strings(heads);
                updated.push(pr.head_ref.clone());
                proof {
                    assert(views(updated@) =~= views(heads@).push(pr.head_ref@));
                    assert(views_map(before)[base] == views(before[base]));
                    assert(views(updated@) == heads_from(post, base));
                }
                map.insert(pr.base_ref.clone(), updated);
            },
            None => {
                let mut fresh: Vec<String> = Vec::new();
                fresh.push(pr.head_ref.clone());
                proof {
                    assert(!base_set(pre).contains(pr.base_ref@)) by {
                        assert(views_map(before).dom() =~= before.dom());
                    }
                    lemma_heads_from_absent(pre, pr.base_ref@);
                    assert(views(fresh@) =~= seq![pr.head_ref@]);
                    assert(views(fresh@) =~= heads_from(post, base));
                }
                map.insert(pr.base_ref.clone(), fresh);
            },
        }
        proof {
            assert(map@.contains_key(base));
            assert(views(map@[base]) == heads_from(post, base));
            assert(views_map(map@) =~= heads_model(post)) by {
                assert(views_map(map@).dom() =~= map@.dom());
                assert(views_map(before).dom() =~= before.dom());
                assert forall|b: Seq<char>| #[trigger] views_map(map@).contains_key(b) implies views_map(map@)[b]
                    == heads_model(post)[b] by {
                    if b != base {
                        assert(map@[b] == before[b]);
                        assert(views_map(before).contains_key(b));
                        assert(views_map(before)[b] == heads_model(pre)[b]);
                        assert(heads_from(post, b) == heads_from(pre, b));
                    }
                }
                assert forall|b: Seq<char>| #[trigger] heads_model(post).contains_key(b) implies views_map(map@).contains_key(b) by {
                    if b != pr.base_ref@ {
                        assert(heads_model(pre).contains_key(b));
                        assert(views_map(before).contains_key(b));
                    }
                }
            }
        }
        i = i + 1;
    }
    proof {
        assert(ps.take(i as int) =~= ps);
    }
    map
}

/// Pull-request heads that no pull request goes into: the tops of chains.
pub open spec fn chain_tails(ps: Seq<PullRequestView>) -> Set<Seq<char>> {
    head_set(ps).difference(base_set(ps))
}

/// Branches that pull requests go into, that have no pull request of their
/// own, are no main branch, and exist locally.
pub open spec fn gap_set(ps: Seq<PullRequestView>, local: Set<Seq<char>>) -> Set<Seq<char>> {
    Set::new(
        |b: Seq<char>|
            base_set(ps).contains(b) && !head_set(ps).contains(b) && !spec_is_main(b) && local.contains(b),
    )
}

/// The possible parents of gap branch `g`: chain tops that do not descend
/// from it.
pub open spec fn gap_candidates(ps: Seq<PullRequestView>, g: Seq<char>) -> Set<Seq<char>> {
    chain_tails(ps).difference(descendants(heads_model(ps), g))
}

/// Parents worked out for gap branches.
pub struct GapInference {
    /// Gap branches with exactly one possible parent, mapped to it.
    pub inferred: StrMap<String>,
    /// Gap branches with several possible parents, with those parents.
    pub ambiguous: Vec<(String, Vec<String>)>,
    /// Gap branches with no possible parent.
    pub unresolved: Vec<String>,
}

/// The head and base branches of the pull requests.
fn branch_sets(prs: &Vec<&PullRequest>) -> (r: (StrSet, StrSet))
    ensures
        r.0.wf(),
        r.1.wf(),
        r.0@ == head_set(prv(prs@)),
        r.1@ == base_set(prv(prs@)),
{
    let ghost ps = prv(prs@);
    let mut heads = StrSet::new();
    let mut bases = StrSet::new();
    let mut i: usize = 0;
    proof {
        assert(head_set(ps.take(0)) =~= Set::<Seq<char>>::empty());
        assert(base_set(ps.take(0)) =~= Set::<Seq<char>>::empty());
    }
    while i < prs.len()
        invariant
            ps == prv(prs@),
            i <= prs@.len(),
            heads.wf(),
            bases.wf(),
            heads@ == head_set(ps.take(i as int)),
            bases@ == base_set(ps.take(i as int)),
        decreases prs@.len() - i,
    {
        proof {
            lemma_sets_step(ps, i as int);
            assert(ps[i as int] == prs@[i as int]@);
        }
        heads.insert(prs[i].head_ref.clone());
        bases.insert(prs[i].base_ref.clone());
        i = i + 1;
    }
    proof {
        assert(ps.take(i as int) =~= ps);
    }
    (heads, bases)
}

/// The strings of `items` that `exclude` does not hold, in order.
fn without(items: &Vec<String>, exclude: &StrSet) -> (r: Vec<String>)
    ensures
        views(r@).to_set() == views(items@).to_set().difference(exclude@),
        views(items@).no_duplicates() ==> views(r@).no_duplicates(),
{
    let mut r: Vec<String> = Vec::new();
    let mut i: usize = 0;
    while i < items.len()
        invariant
            i <= items@.len(),
            views(r@).to_set() == views(items@).take(i as int).to_set().difference(exclude@),
            forall|t: int| 0 <= t < r@.len() ==> views(items@).take(i as int).contains(#[trigger] views(r@)[t]),
            views(items@).no_duplicates() ==> views(r@).no_duplicates(),
        decreases items@.len() - i,
    {
        let ghost v = views(items@);
        let ghost before = views(r@);
        proof {
            assert(v.take(i + 1) =~= v.take(i as int).push(v[i as int]));
            assert(v.take(i as int).push(v[i as int]) =~= v.take(i as int) + seq![v[i as int]]);
            Seq::lemma_to_set_insert_commutes(v.take(i as int), v[i as int]);
            assert(v[i as int] == items@[i as int]@);
        }
        if !exclude.contains(items[i].as_str()) {
            r.push(items[i].clone());
            proof {
                assert(views(r@) =~= before.push(v[i as int]));
                assert(before.push(v[i as int]) =~= before + seq![v[i as int]]);
                Seq::lemma_to_set_insert_commutes(before, v[i as int]);
                if v.no_duplicates() {
                    assert(!before.contains(v[i as int])) by {
                        if before.contains(v[i as int]) {
                            let t = choose|t: int| 0 <= t < before.len() && before[t] == v[i as int];
                            assert(v.take(i as int).contains(before[t]));
                            let q = choose|q: int| 0 <= q < i && v.take(i as int)[q] == before[t];
                            assert(v[q] == v[i as int]);
                        }
                    }
                    assert(views(r@).no_duplicates()) by {
                        let nr = views(r@);
                        assert forall|a: int, b: int| 0 <= a < nr.len() && 0 <= b < nr.len() && a != b implies nr[a] != nr[b] by {
                            if a == before.len() {
                                assert(before.contains(nr[b]));
                            } else if b == before.len() {
                                assert(before.contains(nr[a]));
                            }
                        }
                    }
                }
                assert forall|t: int| 0 <= t < r@.len() implies v.take(i + 1).contains(#[trigger] views(r@)[t]) by {
                    if t < before.len() {
                        let q = choose|q: int| 0 <= q < i && v.take(i as int)[q] == before[t];
                        assert(v.take(i + 1)[q] == before[t]);
                    } else {
                        assert(v.take(i + 1)[i as int] == v[i as int]);
                    }
                }
            }
        } else {
            proof {
                assert forall|t: int| 0 <= t < r@.len() implies v.take(i + 1).contains(#[trigger] views(r@)[t]) by {
                    let q = choose|q: int| 0 <= q < i && v.take(i as int)[q] == before[t];
                    assert(v.take(i + 1)[q] == before[t]);
                }
            }
        }
        i = i + 1;
    }
    proof {
        assert(views(items@).take(i as int) =~= views(items@));
    }
    r
}

/// The parents of the gap branches of `prs`: branches that pull requests
/// go into, that exist in `branch_set` and have no pull request of their
/// own.  A gap branch's possible parents are the chain tops that do not
/// descend from it; one is taken as its parent, several are left for the
/// user to choose from, none leaves it unresolved.
pub fn infer_gap_branch_parents(prs: &Vec<&PullRequest>, branch_set: &StrSet) -> (r: GapInference)
    ensures
        r.inferred.wf(),
        forall|g: Seq<char>|
            #[trigger] r.inferred@.contains_key(g) ==> gap_set(prv(prs@), branch_set@).contains(g)
                && gap_candidates(prv(prs@), g) == set![r.inferred@[g]],
        views(r.unresolved@).no_duplicates(),
        views(r.unresolved@).to_set() == gap_set(prv(prs@), branch_set@).filter(
            |g: Seq<char>| gap_candidates(prv(prs@), g).len() == 0,
        ),
        forall|i: int|
            0 <= i < r.ambiguous@.len() ==> gap_set(prv(prs@), branch_set@).contains((#[trigger] r.ambiguous@[i]).0@)
                && views(r.ambiguous@[i].1@).no_duplicates() && views(r.ambiguous@[i].1@).to_set()
                == gap_candidates(prv(prs@), r.ambiguous@[i].0@) && r.ambiguous@[i].1@.len() > 1,
        forall|g: Seq<char>|
            #[trigger] gap_set(prv(prs@), branch_set@).contains(g) ==> (r.inferred@.contains_key(g)
                || views(r.unresolved@).contains(g) || exists|i: int|
                0 <= i < r.ambiguous@.len() && r.ambiguous@[i].0@ == g),
        forall|i: int, j: int|
            0 <= i < j < r.ambiguous@.len() ==> (#[trigger] r.ambiguous@[i]).0@ != (#[trigger] r.ambiguous@[j]).0@,
        forall|i: int|
            0 <= i < r.ambiguous@.len() ==> !r.inferred@.contains_key((#[trigger] r.ambiguous@[i]).0@)
                && !views(r.unresolved@).contains(r.ambiguous@[i].0@),
        forall|g: Seq<char>| #[trigger] r.inferred@.contains_key(g) ==> !views(r.unresolved@).contains(g),
{
    let ghost ps = prv(prs@);
    let (heads, bases) = branch_sets(prs);
    let head_list = heads.to_vec();
    let base_list = bases.to_vec();
    proof {
        heads.lemma_wf();
        bases.lemma_wf();
    }
    // Chain tails: heads that no pull request goes into.
    let tails = without(&head_list, &bases);
    // Gap branches.
    let mut gaps: Vec<String> = Vec::new();
    let mut i: usize = 0;
    while i < base_list.len()
        invariant
            heads@ == head_set(ps),
            bases@ == base_set(ps),
            views(base_list@) == bases.elems(),
            bases.elems().no_duplicates(),
            bases.elems().to_set() == bases@,
            i <= base_list@.len(),
            views(gaps@).no_duplicates(),
            forall|t: int| 0 <= t < gaps@.len() ==> #[trigger] gap_set(ps, branch_set@).contains(views(gaps@)[t]),
            forall|t: int| 0 <= t < gaps@.len() ==> views(base_list@).take(i as int).contains(#[trigger] views(gaps@)[t]),
            forall|t: int| 0 <= t < i && #[trigger] gap_set(ps, branch_set@).contains(views(base_list@)[t]) ==> views(gaps@).contains(views(base_list@)[t]),
        decreases base_list@.len() - i,
    {
        let b = &base_list[i];
        let ghost before = views(gaps@);
        let ghost bv = b@;
        proof {
            assert(bv == views(base_list@)[i as int]);
            assert(bases@.contains(bv));
        }
        if !heads.contains(b.as_str()) && !crate::navigate::is_main_branch(b.as_str()) && branch_set.contains(
            b.as_str(),
        ) {
            gaps.push(b.clone());
            proof {
                assert(views(gaps@) =~= before.push(bv));
                assert(!before.contains(bv)) by {
                    if before.contains(bv) {
                        let t = choose|t: int| 0 <= t < before.len() && before[t] == bv;
                        let q = choose|q: int| 0 <= q < i && views(base_list@).take(i as int)[q] == before[t];
                        assert(views(base_list@)[q] == views(base_list@)[i as int]);
                    }
                }
                assert(views(gaps@).no_duplicates()) by {
                    let ng = views(gaps@);
                    assert forall|a: int, c: int| 0 <= a < ng.len() && 0 <= c < ng.len() && a != c implies ng[a] != ng[c] by {
                        if a == before.len() {
                            assert(before.contains(ng[c]));
                        } else if c == before.len() {
                            assert(before.contains(ng[a]));
                        }
                    }
                }
            }
        }
        proof {
            assert forall|t: int| 0 <= t < gaps@.len() implies #[trigger] gap_set(ps, branch_set@).contains(views(gaps@)[t]) by {
                if t < before.len() {
                    assert(views(gaps@)[t] == before[t]);
                }
            }
            assert forall|t: int| 0 <= t < gaps@.len() implies views(base_list@).take(i + 1).contains(#[trigger] views(gaps@)[t]) by {
                if t < before.len() {
                    assert(views(gaps@)[t] == before[t]);
                    let q = choose|q: int| 0 <= q < i && views(base_list@).take(i as int)[q] == before[t];
                    assert(views(base_list@).take(i + 1)[q] == before[t]);
                } else {
                    assert(views(base_list@).take(i + 1)[i as int] == bv);
                }
            }
            assert forall|t: int| 0 <= t < i + 1 && #[trigger] gap_set(ps, branch_set@).contains(views(base_list@)[t]) implies views(gaps@).contains(views(base_list@)[t]) by {
                if t < i {
                    let q = choose|q: int| 0 <= q < before.len() && before[q] == views(base_list@)[t];
                    assert(views(gaps@)[q] == before[q]);
                } else {
                    assert(views(gaps@)[views(gaps@).len() - 1] == bv);
                }
            }
        }
        i = i + 1;
    }
    let base_to_heads = heads_by_base(prs);
    let mut inferred: StrMap<String> = StrMap::new();
    let mut ambiguous: Vec<(String, Vec<String>)> = Vec::new();
    let mut unresolved: Vec<String> = Vec::new();
    let mut k: usize = 0;
    proof {
        assert(views(tails@).to_set() == chain_tails(ps)) by {
            assert(views(head_list@).to_set() == head_set(ps));
        }
        assert(views(head_list@).no_duplicates());
    }
    while k < gaps.len()
        invariant
            base_to_heads.wf(),
            views_map(base_to_heads@) == heads_model(ps),
            views(tails@).to_set() == chain_tails(ps),
            views(tails@).no_duplicates(),
            views(gaps@).no_duplicates(),
            forall|t: int| 0 <= t < gaps@.len() ==> #[trigger] gap_set(ps, branch_set@).contains(views(gaps@)[t]),
            k <= gaps@.len(),
            inferred.wf(),
            forall|g: Seq<char>| #[trigger] inferred@.contains_key(g) ==> views(gaps@).take(k as int).contains(g)
                && gap_candidates(ps, g) == set![inferred@[g]],
            views(unresolved@).no_duplicates(),
            views(unresolved@).to_set() == views(gaps@).take(k as int).to_set().filter(
                |g: Seq<char>| gap_candidates(ps, g).len() == 0,
            ),
            forall|i: int|
                0 <= i < ambiguous@.len() ==> views(gaps@).take(k as int).contains((#[trigger] ambiguous@[i]).0@)
                    && views(ambiguous@[i].1@).no_duplicates() && views(ambiguous@[i].1@).to_set()
                    == gap_candidates(ps, ambiguous@[i].0@) && ambiguous@[i].1@.len() > 1,
            forall|t: int| 0 <= t < k ==> (inferred@.contains_key(#[trigger] views(gaps@)[t])
                || views(unresolved@).contains(views(gaps@)[t]) || exists|i: int|
                0 <= i < ambiguous@.len() && ambiguous@[i].0@ == views(gaps@)[t]),
            forall|i: int, j: int|
                0 <= i < j < ambiguous@.len() ==> (#[trigger] ambiguous@[i]).0@ != (#[trigger] ambiguous@[j]).0@,
            forall|i: int|
                0 <= i < ambiguous@.len() ==> !inferred@.contains_key((#[trigger] ambiguous@[i]).0@)
                    && !views(unresolved@).contains(ambiguous@[i].0@),
            forall|gg: Seq<char>| #[trigger] inferred@.contains_key(gg) ==> !views(unresolved@).contains(gg),
        decreases gaps@.len() - k,
    {
        let gap = &gaps[k];
        let ghost g = gap@;
        proof {
            assert(g == views(gaps@)[k as int]);
            assert(views(gaps@).take(k + 1) =~= views(gaps@).take(k as int).push(g));
            assert(views(gaps@).take(k as int).push(g) =~= views(gaps@).take(k as int) + seq![g]);
            Seq::lemma_to_set_insert_commutes(views(gaps@).take(k as int), g);
            assert(!views(gaps@).take(k as int).contains(g)) by {
                if views(gaps@).take(k as int).contains(g) {
                    let q = choose|q: int| 0 <= q < k && views(gaps@).take(k as int)[q] == g;
                    assert(views(gaps@)[q] == views(gaps@)[k as int]);
                }
            }
        }
        let desc = collect_descendants(gap.as_str(), &base_to_heads);
        let candidates = without(&tails, &desc);
        proof {
            assert(views(candidates@).to_set() == gap_candidates(ps, g));
            views(candidates@).unique_seq_to_set();
        }
        let ghost u0 = views(unresolved@);
        let ghost a0 = ambiguous@;
        let ghost m0 = inferred@;
        if candidates.len() == 0 {
            unresolved.push(gap.clone());
            proof {
                assert(views(unresolved@) =~= u0.push(g));
                assert(!u0.contains(g)) by {
                    if u0.contains(g) {
                        assert(u0.to_set().contains(g));
                    }
                }
                assert(views(unresolved@).no_duplicates()) by {
                    let nu = views(unresolved@);
                    assert forall|a: int, c: int| 0 <= a < nu.len() && 0 <= c < nu.len() && a != c implies nu[a] != nu[c] by {
                        if a == u0.len() {
                            assert(u0.contains(nu[c]));
                        } else if c == u0.len() {
                            assert(u0.contains(nu[a]));
                        }
                    }
                }
                assert(u0.push(g) =~= u0 + seq![g]);
                Seq::lemma_to_set_insert_commutes(u0, g);
                assert(gap_candidates(ps, g).len() == 0);
            }
        } else if candidates.len() == 1 {
            let parent = candidates[0].clone();
            proof {
                assert(views(candidates@) =~= seq![parent@]);
                assert(seq![parent@].to_set() =~= set![parent@]) by {
                    assert(seq![parent@][0] == parent@);
                    assert(seq![parent@].contains(parent@));
                }
            }
            inferred.insert(gap.clone(), parent);
        } else {
            ambiguous.push((gap.clone(), candidates));
        }
        proof {
            assert forall|gg: Seq<char>| #[trigger] inferred@.contains_key(gg) implies views(gaps@).take(k + 1).contains(gg)
                && gap_candidates(ps, gg) == set![inferred@[gg]] by {
                if gg != g {
                    assert(m0.contains_key(gg));
                    let q = choose|q: int| 0 <= q < k && views(gaps@).take(k as int)[q] == gg;
                    assert(views(gaps@).take(k + 1)[q] == gg);
                } else {
                    assert(views(gaps@).take(k + 1)[k as int] == g);
                }
            }
            assert forall|i: int|
                0 <= i < ambiguous@.len() implies views(gaps@).take(k + 1).contains((#[trigger] ambiguous@[i]).0@)
                    && views(ambiguous@[i].1@).no_duplicates() && views(ambiguous@[i].1@).to_set()
                    == gap_candidates(ps, ambiguous@[i].0@) && ambiguous@[i].1@.len() > 1 by {
                if i < a0.len() {
                    assert(ambiguous@[i] == a0[i]);
                    let q = choose|q: int| 0 <= q < k && views(gaps@).take(k as int)[q] == a0[i].0@;
                    assert(views(gaps@).take(k + 1)[q] == a0[i].0@);
                } else {
                    assert(views(gaps@).take(k + 1)[k as int] == g);
                }
            }
            assert(views(unresolved@).to_set() =~= views(gaps@).take(k + 1).to_set().filter(
                |gg: Seq<char>| gap_candidates(ps, gg).len() == 0,
            ));
            assert forall|t: int| 0 <= t < k + 1 implies (inferred@.contains_key(#[trigger] views(gaps@)[t])
                || views(unresolved@).contains(views(gaps@)[t]) || exists|i: int|
                0 <= i < ambiguous@.len() && ambiguous@[i].0@ == views(gaps@)[t]) by {
                if t < k {
                    if m0.contains_key(views(gaps@)[t]) {
                    } else if u0.contains(views(gaps@)[t]) {
                        let q = choose|q: int| 0 <= q < u0.len() && u0[q] == views(gaps@)[t];
                        assert(views(unresolved@)[q] == u0[q]);
                    } else {
                        let q = choose|q: int| 0 <= q < a0.len() && a0[q].0@ == views(gaps@)[t];
                        assert(ambiguous@[q] == a0[q]);
                    }
                } else {
                    if candidates@.len() == 0 {
                        assert(views(unresolved@)[u0.len() as int] == g);
                    } else if candidates@.len() > 1 {
                        assert(ambiguous@[a0.len() as int].0@ == g);
                    }
                }
            }
            let tk = views(gaps@).take(k as int);
            assert forall|x: Seq<char>| u0.contains(x) implies tk.contains(x) by {
                assert(u0.to_set().contains(x));
                assert(tk.to_set().contains(x));
            }
            assert(!m0.contains_key(g));
            assert(!u0.contains(g));
            assert forall|i: int| 0 <= i < a0.len() implies a0[i].0@ != g by {
                assert(tk.contains(a0[i].0@));
            }
            assert forall|i: int, j: int|
                0 <= i < j < ambiguous@.len() implies (#[trigger] ambiguous@[i]).0@ != (#[trigger] ambiguous@[j]).0@ by {
                if j < a0.len() {
                    assert(ambiguous@[i] == a0[i]);
                    assert(ambiguous@[j] == a0[j]);
                } else {
                    assert(ambiguous@[i] == a0[i]);
                    assert(ambiguous@[j].0@ == g);
                }
            }
            assert forall|i: int|
                0 <= i < ambiguous@.len() implies !inferred@.contains_key((#[trigger] ambiguous@[i]).0@)
                    && !views(unresolved@).contains(ambiguous@[i].0@) by {
                if i < a0.len() {
                    assert(ambiguous@[i] == a0[i]);
                    let x = a0[i].0@;
                    assert(x != g);
                    assert(!m0.contains_key(x));
                    assert(!u0.contains(x));
                    if views(unresolved@).contains(x) {
                        let q = choose|q: int| 0 <= q < views(unresolved@).len() && views(unresolved@)[q] == x;
                        if q < u0.len() {
                            assert(views(unresolved@)[q] == u0[q]);
                        }
                    }
                } else {
                    assert(ambiguous@[i].0@ == g);
                    assert(inferred@ == m0);
                    assert(views(unresolved@) == u0);
                }
            }
            assert forall|gg: Seq<char>| #[trigger] inferred@.contains_key(gg) implies !views(unresolved@).contains(gg) by {
                if views(unresolved@).contains(gg) {
                    let q = choose|q: int| 0 <= q < views(unresolved@).len() && views(unresolved@)[q] == gg;
                    if gg == g {
                        assert(candidates@.len() == 1);
                        assert(views(unresolved@) == u0);
                    } else {
                        assert(m0.contains_key(gg));
                        if q < u0.len() {
                            assert(views(unresolved@)[q] == u0[q]);
                        } else {
                            assert(views(unresolved@)[q] == g);
                        }
                    }
                }
            }
        }
        k = k + 1;
    }
    proof {
        assert(views(gaps@).take(k as int) =~= views(gaps@));
        assert forall|g: Seq<char>| #[trigger] gap_set(ps, branch_set@).contains(g) implies views(gaps@).contains(g) by {
            assert(base_set(ps).contains(g));
            assert(bases.elems().to_set().contains(g));
            let q = choose|q: int| 0 <= q < bases.elems().len() && bases.elems()[q] == g;
            assert(views(base_list@)[q] == g);
            assert(views(base_list@).take(i as int) =~= views(base_list@));
        }
        assert forall|g: Seq<char>| #[trigger] inferred@.contains_key(g) implies gap_set(ps, branch_set@).contains(g) by {
            let q = choose|q: int| 0 <= q < views(gaps@).len() && views(gaps@)[q] == g;
        }
        assert(views(unresolved@).to_set() =~= gap_set(ps, branch_set@).filter(
            |g: Seq<char>| gap_candidates(ps, g).len() == 0,
        )) by {
            assert(views(gaps@).to_set() =~= gap_set(ps, branch_set@)) by {
                assert forall|g: Seq<char>| views(gaps@).to_set().contains(g) implies gap_set(ps, branch_set@).contains(g) by {
                    let q = choose|q: int| 0 <= q < views(gaps@).len() && views(gaps@)[q] == g;
                }
            }
        }
    }
    let r = GapInference { inferred, ambiguous, unresolved };
    proof {
        assert forall|g: Seq<char>| #[trigger] gap_set(prv(prs@), branch_set@).contains(g) implies (r.inferred@.contains_key(g)
            || views(r.unresolved@).contains(g) || exists|i: int| 0 <= i < r.ambiguous@.len() && r.ambiguous@[i].0@ == g) by {
            assert(views(gaps@).contains(g));
            let q = choose|q: int| 0 <= q < views(gaps@).len() && views(gaps@)[q] == g;
            assert(inferred@.contains_key(views(gaps@)[q]) || views(unresolved@).contains(views(gaps@)[q]) || exists|i: int|
                0 <= i < ambiguous@.len() && ambiguous@[i].0@ == views(gaps@)[q]);
            if !inferred@.contains_key(g) && !views(unresolved@).contains(g) {
                let i0 = choose|i: int| 0 <= i < ambiguous@.len() && ambiguous@[i].0@ == g;
                assert(r.ambiguous@[i0].0@ == g);
            }
        }
        assert forall|i: int| 0 <= i < r.ambiguous@.len() implies gap_set(prv(prs@), branch_set@).contains((#[trigger] r.ambiguous@[i]).0@) by {
            assert(views(gaps@).contains(r.ambiguous@[i].0@));
            let q = choose|q: int| 0 <= q < views(gaps@).len() && views(gaps@)[q] == r.ambiguous@[i].0@;
        }
    }
    r
}

/// The pull requests of a list.
pub open spec fn pv(s: Seq<PullRequest>) -> Seq<PullRequestView> {
    s.map_values(|p: PullRequest| p@)
}

/// The pull requests of `ps` whose head and base are both in `local`, in
/// order.
pub open spec fn local_only(ps: Seq<PullRequestView>, local: Set<Seq<char>>) -> Seq<PullRequestView>
    decreases ps.len(),
{
    if ps.len() == 0 {
        Seq::empty()
    } else {
        let rest = local_only(ps.drop_last(), local);
        if local.contains(ps.last().head_ref) && local.contains(ps.last().base_ref) {
            rest.push(ps.last())
        } else {
            rest
        }
    }
}

/// The pull requests whose head and base branches both exist locally.
pub fn local_prs<'a>(prs: &'a Vec<PullRequest>, branches: &StrSet) -> (r: Vec<&'a PullRequest>)
    ensures
        prv(r@) == local_only(pv(prs@), branches@),
{
    let ghost ps = pv(prs@);
    let mut r: Vec<&PullRequest> = Vec::new();
    let mut i: usize = 0;
    proof {
        assert(prv(r@) =~= local_only(ps.take(0), branches@));
    }
    while i < prs.len()
        invariant
            ps == pv(prs@),
            i <= prs@.len(),
            prv(r@) == local_only(ps.take(i as int), branches@),
        decreases prs@.len() - i,
    {
        let pr = &prs[i];
        let ghost before = prv(r@);
        proof {
            assert(ps.take(i + 1).drop_last() =~= ps.take(i as int));
            assert(ps.take(i + 1).last() == pr@);
        }
        if branches.contains(pr.head_ref.as_str()) && branches.contains(pr.base_ref.as_str()) {
            r.push(pr);
            proof {
                assert(prv(r@) =~= before.push(pr@));
            }
        }
        i = i + 1;
    }
    proof {
        assert(ps.take(i as int) =~= ps);
    }
    r
}

/// Each pull request's head mapped to its base; a later pull request from
/// the same head wins.
pub open spec fn pr_parents(ps: Seq<PullRequestView>) -> Map<Seq<char>, Seq<char>>
    decreases ps.len(),
{
    if ps.len() == 0 {
        Map::empty()
    } else {
        pr_parents(ps.drop_last()).insert(ps.last().head_ref, ps.last().base_ref)
    }
}

/// The parent each branch should have: the base of its pull request, or
/// the parent inferred for a gap branch, which wins.
pub fn expected_parents(prs: &Vec<&PullRequest>, inferred: &StrMap<String>) -> (r: StrMap<String>)
    requires
        inferred.wf(),
    ensures
        r.wf(),
        r@ == pr_parents(prv(prs@)).union_prefer_right(inferred@),
{
    let ghost ps = prv(prs@);
    let mut r: StrMap<String> = StrMap::new();
    let mut i: usize = 0;
    proof {
        assert(r@ =~= pr_parents(ps.take(0)));
    }
    while i < prs.len()
        invariant
            ps == prv(prs@),
            i <= prs@.len(),
            r.wf(),
            r@ == pr_parents(ps.take(i as int)),
        decreases prs@.len() - i,
    {
        proof {
            assert(ps.take(i + 1).drop_last() =~= ps.take(i as int));
            assert(ps.take(i + 1).last() == prs@[i as int]@);
        }
        r.insert(prs[i].head_ref.clone(), prs[i].base_ref.clone());
        i = i + 1;
    }
    proof {
        assert(ps.take(i as int) =~= ps);
        inferred.lemma_wf();
    }
    let ghost base = r@;
    let ghost ks = inferred.keys();
    let n = inferred.len();
    let mut k: usize = 0;
    while k < n
        invariant
            inferred.wf(),
            ks == inferred.keys(),
            n == ks.len(),
            ks.len() == inferred.vals().len(),
            forall|j: int| 0 <= j < ks.len() ==> #[trigger] inferred@[ks[j]] == inferred.vals()[j],
            forall|j: int| 0 <= j < ks.len() ==> inferred@.contains_key(#[trigger] ks[j]),
            inferred@.dom() == ks.to_set(),
            k <= n,
            r.wf(),
            r@ == base.union_prefer_right(inferred@.restrict(ks.take(k as int).to_set())),
        decreases n - k,
    {
        let key = inferred.key_at(k);
        let value = inferred.value_at(k);
        proof {
            assert(ks.take(k + 1) =~= ks.take(k as int) + seq![ks[k as int]]);
            Seq::lemma_to_set_insert_commutes(ks.take(k as int), ks[k as int]);
            assert(ks.take(k as int).push(ks[k as int]) =~= ks.take(k as int) + seq![ks[k as int]]);
            assert(inferred@[ks[k as int]] == value@);
        }
        r.insert(key.clone(), value.clone());
        proof {
            assert(r@ =~= base.union_prefer_right(inferred@.restrict(ks.take(k + 1).to_set())));
        }
        k = k + 1;
    }
    proof {
        assert(ks.take(k as int) =~= ks);
        assert(inferred@.restrict(ks.to_set()) =~= inferred@);
    }
    r
}

/// One branch checked against the parent the pull-request chain gives it.
pub struct TopologyCheck {
    pub branch: String,
    pub expected_parent: String,
    /// The parent the branch has now, `unknown` when it has none.
    pub current_parent: String,
    /// The expected parent was inferred for a gap branch rather than taken
    /// from a pull request.
    pub inferred: bool,
}

/// The parent a branch has now, as shown: `unknown` when it has none.
pub open spec fn current_parent_text(parent_map: Map<Seq<char>, Option<String>>, b: Seq<char>) -> Seq<char> {
    if parent_map.contains_key(b) && parent_map[b] is Some {
        parent_map[b].unwrap()@
    } else {
        "unknown"@
    }
}

/// Check each (branch, expected parent) pair, in order, against the
/// current parent map.
pub fn check_topology(
    sorted: &Vec<(String, String)>,
    parent_map: &StrMap<Option<String>>,
    inferred: &StrMap<String>,
) -> (r: Vec<TopologyCheck>)
    requires
        parent_map.wf(),
        inferred.wf(),
    ensures
        r@.len() == sorted@.len(),
        forall|i: int|
            0 <= i < r@.len() ==> (#[trigger] r@[i]).branch@ == sorted@[i].0@ && r@[i].expected_parent@
                == sorted@[i].1@ && r@[i].current_parent@ == current_parent_text(parent_map@, sorted@[i].0@)
                && r@[i].inferred == inferred@.contains_key(sorted@[i].0@),
{
    let mut r: Vec<TopologyCheck> = Vec::new();
    let mut i: usize = 0;
    while i < sorted.len()
        invariant
            parent_map.wf(),
            inferred.wf(),
            i <= sorted@.len(),
            r@.len() == i,
            forall|t: int|
                0 <= t < i ==> (#[trigger] r@[t]).branch@ == sorted@[t].0@ && r@[t].expected_parent@
                    == sorted@[t].1@ && r@[t].current_parent@ == current_parent_text(parent_map@, sorted@[t].0@)
                    && r@[t].inferred == inferred@.contains_key(sorted@[t].0@),
        decreases sorted@.len() - i,
    {
        let branch = &sorted[i].0;
        let current = match parent_map.get(branch.as_str()) {
            Some(Some(p)) => p.clone(),
            _ => "unknown".to_owned(),
        };
        r.push(
            TopologyCheck {
                branch: branch.clone(),
                expected_parent: sorted[i].1.clone(),
                current_parent: current,
                inferred: inferred.contains_key(branch.as_str()),
            },
        );
        i = i + 1;
    }
    r
}

/// A checked branch as plain values: the branch, its expected parent, its
/// current parent, and whether the expected parent was inferred.
pub open spec fn check_view(c: TopologyCheck) -> (Seq<char>, Seq<char>, Seq<char>, bool) {
    (c.branch@, c.expected_parent@, c.current_parent@, c.inferred)
}

/// The checked branches of `checks` whose current parent differs from the
/// expected one, in order.
pub open spec fn mismatched(checks: Seq<TopologyCheck>) -> Seq<(Seq<char>, Seq<char>, Seq<char>, bool)> {
    checks.map_values(|c: TopologyCheck| check_view(c)).filter(
        |v: (Seq<char>, Seq<char>, Seq<char>, bool)| v.1 != v.2,
    )
}

/// The checks that found a branch away from its expected parent, in order.
pub fn topology_mismatches(checks: &Vec<TopologyCheck>) -> (r: Vec<TopologyCheck>)
    ensures
        r@.map_values(|c: TopologyCheck| check_view(c)) == mismatched(checks@),
{
    let ghost cv = checks@.map_values(|c: TopologyCheck| check_view(c));
    let ghost keep = |v: (Seq<char>, Seq<char>, Seq<char>, bool)| v.1 != v.2;
    let mut r: Vec<TopologyCheck> = Vec::new();
    let mut i: usize = 0;
    proof {
        assert(cv.take(0).filter(keep) =~= Seq::<(Seq<char>, Seq<char>, Seq<char>, bool)>::empty());
        assert(r@.map_values(|c: TopologyCheck| check_view(c)) =~= Seq::<(Seq<char>, Seq<char>, Seq<char>, bool)>::empty());
    }
    while i < checks.len()
        invariant
            cv == checks@.map_values(|c: TopologyCheck| check_view(c)),
            keep == (|v: (Seq<char>, Seq<char>, Seq<char>, bool)| v.1 != v.2),
            i <= checks@.len(),
            r@.map_values(|c: TopologyCheck| check_view(c)) == cv.take(i as int).filter(keep),
        decreases checks@.len() - i,
    {
        let c = &checks[i];
        let ghost before = r@.map_values(|c: TopologyCheck| check_view(c));
        proof {
            assert(cv.take(i + 1) =~= cv.take(i as int).push(check_view(*c)));
            cv.take(i as int).lemma_filter_push(check_view(*c), keep);
        }
        if !crate::text::str_eq(c.current_parent.as_str(), c.expected_parent.as_str()) {
            let copy = TopologyCheck {
                branch: c.branch.clone(),
                expected_parent: c.expected_parent.clone(),
                current_parent: c.current_parent.clone(),
                inferred: c.inferred,
            };
            r.push(copy);
            proof {
                assert(check_view(copy) == check_view(*c));
                assert(r@.map_values(|c: TopologyCheck| check_view(c)) =~= before.push(check_view(*c)));
            }
        }
        i = i + 1;
    }
    proof {
        assert(cv.take(i as int) =~= cv);
    }
    r
}

/// The branches whose current parent differs from the expected one, with
/// the expected parent, in order.
pub fn needs_repair(checks: &Vec<TopologyCheck>) -> (r: Vec<(String, String)>)
    ensures
        r@.len() <= checks@.len(),
        exists|idx: Seq<int>|
            #![trigger idx.len()]
            idx.len() == r@.len() && (forall|a: int, b: int| 0 <= a < b < idx.len() ==> idx[a] < idx[b])
                && (forall|t: int| 0 <= t < idx.len() ==> 0 <= #[trigger] idx[t] < checks@.len()
                && r@[t].0@ == checks@[idx[t]].branch@ && r@[t].1@ == checks@[idx[t]].expected_parent@)
                && (forall|c: int| 0 <= c < checks@.len() ==> (#[trigger] checks@[c].current_parent@
                != checks@[c].expected_parent@ <==> exists|t: int| 0 <= t < idx.len() && idx[t] == c)),
{
    let mut r: Vec<(String, String)> = Vec::new();
    let ghost mut idx: Seq<int> = Seq::empty();
    let mut i: usize = 0;
    while i < checks.len()
        invariant
            i <= checks@.len(),
            r@.len() <= i,
            idx.len() == r@.len(),
            forall|a: int, b: int| 0 <= a < b < idx.len() ==> idx[a] < idx[b],
            forall|t: int| 0 <= t < idx.len() ==> 0 <= #[trigger] idx[t] < i && r@[t].0@ == checks@[idx[t]].branch@
                && r@[t].1@ == checks@[idx[t]].expected_parent@,
            forall|c: int| 0 <= c < i ==> (#[trigger] checks@[c].current_parent@ != checks@[c].expected_parent@
                <==> exists|t: int| 0 <= t < idx.len() && idx[t] == c),
        decreases checks@.len() - i,
    {
        let c = &checks[i];
        let ghost idx0 = idx;
        if !str_eq(c.current_parent.as_str(), c.expected_parent.as_str()) {
            r.push((c.branch.clone(), c.expected_parent.clone()));
            proof {
                idx = idx.push(i as int);
                assert(idx[idx.len() - 1] == i);
            }
        }
        proof {
            assert forall|cc: int| 0 <= cc < i + 1 implies (#[trigger] checks@[cc].current_parent@
                != checks@[cc].expected_parent@ <==> exists|t: int| 0 <= t < idx.len() && idx[t] == cc) by {
                if cc < i {
                    if exists|t: int| 0 <= t < idx0.len() && idx0[t] == cc {
                        let t = choose|t: int| 0 <= t < idx0.len() && idx0[t] == cc;
                        assert(idx[t] == idx0[t]);
                    }
                    if exists|t: int| 0 <= t < idx.len() && idx[t] == cc {
                        let t = choose|t: int| 0 <= t < idx.len() && idx[t] == cc;
                        if t < idx0.len() {
                            assert(idx0[t] == cc);
                        }
                    }
                } else {
                    if checks@[cc].current_parent@ != checks@[cc].expected_parent@ {
                        assert(idx[idx.len() - 1] == cc);
                    } else {
                        assert forall|t: int| 0 <= t < idx.len() implies idx[t] != cc by {
                            assert(idx[t] == idx0[t]);
                        }
                    }
                }
            }
        }
        i = i + 1;
    }
    r
}

} // verus!
