//! Moving through stacks using a map from each branch to its parent.
//!
//! Trunk branches (`main`, `master`, `develop`) are the bottom of every
//! stack.  Shadow branches (`stax/shadow/<consumer>`), which merge the
//! sources of a diamond, are never shown or stepped onto: a branch whose
//! parent is a shadow counts as a child of the shadow's own parent.
use vstd::prelude::*;
use crate::collections::{StrMap, StrSet};
use crate::text::{views, strictly_sorted, sort_strings, str_eq, str_starts_with, seq_starts_with};

verus! {

/// The names that are treated as trunk branches.
pub open spec fn spec_is_main(name: Seq<char>) -> bool {
    name == "main"@ || name == "master"@ || name == "develop"@
}

/// The prefix that marks a shadow branch.
pub open spec fn shadow_prefix() -> Seq<char> {
    "stax/shadow/"@
}

pub open spec fn spec_is_shadow(name: Seq<char>) -> bool {
    seq_starts_with(name, shadow_prefix())
}

/// The model of a parent map: each branch to its parent, if it has one.
pub type ParentModel = Map<Seq<char>, Option<String>>;

/// The parent that `m` records for `c`, by its characters.
pub open spec fn parent_of(m: ParentModel, c: Seq<char>) -> Option<Seq<char>> {
    match m[c] {
        Some(p) => Some(p@),
        None => None,
    }
}

/// Looking through a shadow branch: a shadow with a recorded parent stands
/// for that parent.
pub open spec fn resolved(m: ParentModel, p: Seq<char>) -> Seq<char> {
    if spec_is_shadow(p) && m.contains_key(p) && m[p] is Some {
        m[p]->0@
    } else {
        p
    }
}

/// The parent of `c` as navigation sees it.
pub open spec fn effective_parent(m: ParentModel, c: Seq<char>) -> Option<Seq<char>> {
    match parent_of(m, c) {
        Some(p) => Some(resolved(m, p)),
        None => None,
    }
}

/// A branch that navigation may step onto: recorded, not trunk, not a
/// shadow, not merged.
pub open spec fn navigable(m: ParentModel, merged: Set<Seq<char>>, c: Seq<char>) -> bool {
    m.contains_key(c) && !spec_is_main(c) && !spec_is_shadow(c) && !merged.contains(c)
}

/// The children of `branch`.
pub open spec fn children_of(m: ParentModel, merged: Set<Seq<char>>, branch: Seq<char>) -> Set<
    Seq<char>,
> {
    Set::new(|c: Seq<char>| navigable(m, merged, c) && effective_parent(m, c) == Some(branch))
}

/// The branches at the base of a stack off `main_branch`: their parent is
/// `main_branch` or a merged branch.
pub open spec fn root_children_of(
    m: ParentModel,
    merged: Set<Seq<char>>,
    main_branch: Seq<char>,
) -> Set<Seq<char>> {
    Set::new(
        |c: Seq<char>|
            navigable(m, merged, c) && c != main_branch && match effective_parent(m, c) {
                Some(p) => p == main_branch || merged.contains(p),
                None => false,
            },
    )
}

/// `rank` strictly grows from parent to child and stays below the number of
/// branches: no branch is its own ancestor.
pub open spec fn ranked(m: ParentModel, rank: spec_fn(Seq<char>) -> nat) -> bool {
    forall|k: Seq<char>|
        #[trigger] m.contains_key(k) ==> rank(k) < m.len() && match parent_of(m, k) {
            Some(p) => m.contains_key(p) ==> rank(p) < rank(k),
            None => true,
        }
}

/// The parent links of `m` contain no cycle.
pub open spec fn acyclic(m: ParentModel) -> bool {
    exists|rank: spec_fn(Seq<char>) -> nat| ranked(m, rank)
}

/// The parent chain from `c` leaves the map, or reaches a branch without a
/// parent, within `f` steps.
pub open spec fn map_ends_within(m: ParentModel, c: Seq<char>, f: nat) -> bool
    decreases f,
{
    if !m.contains_key(c) {
        true
    } else if f == 0 {
        false
    } else {
        match parent_of(m, c) {
            None => true,
            Some(p) => map_ends_within(m, p, (f - 1) as nat),
        }
    }
}

/// How many recorded branches the parent chain from `c` passes through,
/// counting at most `f`.
pub open spec fn map_chain_nodes(m: ParentModel, c: Seq<char>, f: nat) -> nat
    decreases f,
{
    if !m.contains_key(c) || f == 0 {
        0
    } else {
        1 + match parent_of(m, c) {
            None => 0,
            Some(p) => map_chain_nodes(m, p, (f - 1) as nat),
        }
    }
}

proof fn lemma_map_ends_stable(m: ParentModel, c: Seq<char>, f: nat, g: nat)
    requires
        map_ends_within(m, c, f),
        f <= g,
    ensures
        map_ends_within(m, c, g),
        map_chain_nodes(m, c, f) == map_chain_nodes(m, c, g),
        map_chain_nodes(m, c, f) <= f,
    decreases f,
{
    if m.contains_key(c) && f > 0 {
        match parent_of(m, c) {
            Some(p) => lemma_map_ends_stable(m, p, (f - 1) as nat, (g - 1) as nat),
            None => {},
        }
    }
}

/// Every parent chain of the map ends.
pub open spec fn map_chains_end(m: ParentModel) -> bool {
    forall|k: Seq<char>| #[trigger] m.contains_key(k) ==> map_ends_within(m, k, m.len())
}

proof fn lemma_map_chains_end_acyclic(m: ParentModel)
    requires
        map_chains_end(m),
    ensures
        acyclic(m),
{
    let n = m.len();
    let rank = |k: Seq<char>| (map_chain_nodes(m, k, n) - 1) as nat;
    assert forall|k: Seq<char>| #[trigger] m.contains_key(k) implies rank(k) < m.len() && match parent_of(m, k) {
        Some(p) => m.contains_key(p) ==> rank(p) < rank(k),
        None => true,
    } by {
        assert(map_ends_within(m, k, n));
        lemma_map_ends_stable(m, k, n, n);
        assert(n > 0);
        match parent_of(m, k) {
            Some(p) => {
                if m.contains_key(p) {
                    assert(map_ends_within(m, p, (n - 1) as nat));
                    lemma_map_ends_stable(m, p, (n - 1) as nat, n);
                    assert(map_chain_nodes(m, k, n) == 1 + map_chain_nodes(m, p, (n - 1) as nat));
                    assert(map_chain_nodes(m, p, n) >= 1);
                }
            },
            None => {},
        }
    }
    assert(ranked(m, rank));
}

/// Whether the parent chain from `branch` ends within `fuel` steps.
fn map_chain_ends(parent_map: &StrMap<Option<String>>, branch: &str, fuel: usize) -> (r: bool)
    requires
        parent_map.wf(),
    ensures
        r == map_ends_within(parent_map@, branch@, fuel as nat),
{
    let ghost m = parent_map@;
    let mut cur: &str = branch;
    let mut f: usize = fuel;
    loop
        invariant
            parent_map.wf(),
            m == parent_map@,
            map_ends_within(m, cur@, f as nat) == map_ends_within(m, branch@, fuel as nat),
        decreases f,
    {
        match parent_map.get(cur) {
            None => {
                return true;
            },
            Some(entry) => {
                if f == 0 {
                    return false;
                }
                match entry {
                    None => {
                        return true;
                    },
                    Some(p) => {
                        cur = p.as_str();
                        f = f - 1;
                    },
                }
            },
        }
    }
}

/// Whether every parent chain of the map ends; then the parent links form
/// no cycle.
pub fn parent_map_chains_end(parent_map: &StrMap<Option<String>>) -> (r: bool)
    requires
        parent_map.wf(),
    ensures
        r == map_chains_end(parent_map@),
        r ==> acyclic(parent_map@),
{
    let ghost m = parent_map@;
    proof {
        parent_map.lemma_wf();
    }
    let n = parent_map.len();
    let mut i: usize = 0;
    while i < n
        invariant
            parent_map.wf(),
            m == parent_map@,
            n == parent_map.keys().len(),
            m.len() == n,
            forall|k: Seq<char>| #[trigger] m.contains_key(k) ==> exists|j: int|
                0 <= j < parent_map.keys().len() && parent_map.keys()[j] == k,
            forall|j: int| 0 <= j < parent_map.keys().len() ==> m.contains_key(#[trigger] parent_map.keys()[j]),
            i <= n,
            forall|j: int| 0 <= j < i ==> map_ends_within(m, #[trigger] parent_map.keys()[j], n as nat),
        decreases n - i,
    {
        let k = parent_map.key_at(i);
        if !map_chain_ends(parent_map, k.as_str(), n) {
            proof {
                assert(m.contains_key(parent_map.keys()[i as int]));
            }
            return false;
        }
        i = i + 1;
    }
    proof {
        assert forall|k: Seq<char>| #[trigger] m.contains_key(k) implies map_ends_within(m, k, m.len()) by {
            let j = choose|j: int| 0 <= j < parent_map.keys().len() && parent_map.keys()[j] == k;
        }
        lemma_map_chains_end_acyclic(m);
    }
    true
}

/// Each step goes from a branch to its only child.
pub open spec fn sole_child_chain(m: ParentModel, merged: Set<Seq<char>>, path: Seq<Seq<char>>) -> bool {
    &&& path.len() >= 1
    &&& forall|i: int|
        0 <= i < path.len() - 1 ==> children_of(m, merged, #[trigger] path[i]) == set![path[i + 1]]
}

/// Is `name` a trunk branch?
pub fn is_main_branch(name: &str) -> (r: bool)
    ensures
        r == spec_is_main(name@),
{
    str_eq(name, "main") || str_eq(name, "master") || str_eq(name, "develop")
}

/// Is `name` a shadow branch?
pub fn is_shadow_branch(name: &str) -> (r: bool)
    ensures
        r == spec_is_shadow(name@),
{
    str_starts_with(name, "stax/shadow/")
}

/// The parent that `p` stands for, looking through a shadow branch.
fn resolve_parent(p: &String, m: &StrMap<Option<String>>) -> (r: String)
    requires
        m.wf(),
    ensures
        r@ == resolved(m@, p@),
{
    if is_shadow_branch(p.as_str()) {
        match m.get(p.as_str()) {
            Some(Some(pp)) => {
                return pp.clone();
            },
            _ => {},
        }
    }
    p.clone()
}

/// Does navigation count `cand` (stored at `i`) as a child of `branch`?
fn is_child_at(
    i: usize,
    branch: &str,
    parent_map: &StrMap<Option<String>>,
    merged: &StrSet,
) -> (b: bool)
    requires
        parent_map.wf(),
        i < parent_map.keys().len(),
    ensures
        b == (navigable(parent_map@, merged@, parent_map.keys()[i as int]) && effective_parent(
            parent_map@,
            parent_map.keys()[i as int],
        ) == Some(branch@)),
{
    proof {
        parent_map.lemma_wf();
    }
    let cand = parent_map.key_at(i);
    if is_main_branch(cand.as_str()) || is_shadow_branch(cand.as_str()) || merged.contains(
        cand.as_str(),
    ) {
        return false;
    }
    match parent_map.value_at(i) {
        Some(p) => {
            let eff = resolve_parent(p, parent_map);
            str_eq(eff.as_str(), branch)
        },
        None => false,
    }
}

/// Does navigation count `cand` (stored at `i`) as the base of a stack off
/// `main_branch`?
fn is_root_child_at(
    i: usize,
    main_branch: &str,
    parent_map: &StrMap<Option<String>>,
    merged: &StrSet,
) -> (b: bool)
    requires
        parent_map.wf(),
        i < parent_map.keys().len(),
    ensures
        b == root_children_of(parent_map@, merged@, main_branch@).contains(
            parent_map.keys()[i as int],
        ),
{
    proof {
        parent_map.lemma_wf();
    }
    let cand = parent_map.key_at(i);
    if str_eq(cand.as_str(), main_branch) || is_main_branch(cand.as_str()) || is_shadow_branch(
        cand.as_str(),
    ) || merged.contains(cand.as_str()) {
        return false;
    }
    match parent_map.value_at(i) {
        Some(p) => {
            let eff = resolve_parent(p, parent_map);
            str_eq(eff.as_str(), main_branch) || merged.contains(eff.as_str())
        },
        None => false,
    }
}

/// The keys of `parent_map` that satisfy `keep`, in increasing order.
/// (`which` selects the test: `false` for children of `name`, `true` for
/// stack bases off `name`.)
fn collect_sorted(
    name: &str,
    parent_map: &StrMap<Option<String>>,
    merged: &StrSet,
    roots: bool,
) -> (r: Vec<String>)
    requires
        parent_map.wf(),
    ensures
        strictly_sorted(views(r@)),
        views(r@).no_duplicates(),
        !roots ==> views(r@).to_set() == children_of(parent_map@, merged@, name@),
        roots ==> views(r@).to_set() == root_children_of(parent_map@, merged@, name@),
{
    proof {
        parent_map.lemma_wf();
    }
    let ghost target = if roots {
        root_children_of(parent_map@, merged@, name@)
    } else {
        children_of(parent_map@, merged@, name@)
    };
    let ghost keys = parent_map.keys();
    let mut found: Vec<String> = Vec::new();
    let n = parent_map.len();
    let mut i: usize = 0;
    while i < n
        invariant
            n == keys.len(),
            keys == parent_map.keys(),
            parent_map.wf(),
            keys.no_duplicates(),
            i <= n,
            views(found@).no_duplicates(),
            target == (if roots {
                root_children_of(parent_map@, merged@, name@)
            } else {
                children_of(parent_map@, merged@, name@)
            }),
            forall|x: Seq<char>|
                views(found@).contains(x) <==> (exists|j: int|
                    0 <= j < i && #[trigger] keys[j] == x && target.contains(x)),
        decreases n - i,
    {
        let keep = if roots {
            is_root_child_at(i, name, parent_map, merged)
        } else {
            is_child_at(i, name, parent_map, merged)
        };
        let ghost before = views(found@);
        if keep {
            let k = parent_map.key_at(i).clone();
            found.push(k);
            proof {
                assert(views(found@) =~= before.push(keys[i as int]));
                assert(!before.contains(keys[i as int])) by {
                    if before.contains(keys[i as int]) {
                        let j = choose|j: int| 0 <= j < i && #[trigger] keys[j] == keys[i as int];
                    }
                }
                assert forall|x: Seq<char>|
                    views(found@).contains(x) <==> (exists|j: int|
                        0 <= j < i + 1 && #[trigger] keys[j] == x && target.contains(x)) by {
                    if views(found@).contains(x) && x != keys[i as int] {
                        assert(before.contains(x));
                    }
                    if x == keys[i as int] {
                        assert(views(found@)[before.len() as int] == x);
                    }
                    if (exists|j: int| 0 <= j < i + 1 && #[trigger] keys[j] == x && target.contains(x)) {
                        let j = choose|j: int| 0 <= j < i + 1 && #[trigger] keys[j] == x && target.contains(x);
                        if j < i {
                            assert(before.contains(x));
                            let q = choose|q: int| 0 <= q < before.len() && before[q] == x;
                            assert(views(found@)[q] == x);
                        }
                    }
                }
            }
        } else {
            proof {
                assert forall|x: Seq<char>|
                    views(found@).contains(x) <==> (exists|j: int|
                        0 <= j < i + 1 && #[trigger] keys[j] == x && target.contains(x)) by {
                    if (exists|j: int| 0 <= j < i + 1 && #[trigger] keys[j] == x && target.contains(x)) {
                        let j = choose|j: int| 0 <= j < i + 1 && #[trigger] keys[j] == x && target.contains(x);
                        assert(j != i);
                    }
                }
            }
        }
        i = i + 1;
    }
    proof {
        assert(views(found@).to_set() =~= target) by {
            assert forall|x: Seq<char>| target.contains(x) implies views(found@).to_set().contains(x) by {
                assert(target.subset_of(parent_map@.dom()));
                assert(parent_map@.contains_key(x));
                let j = choose|j: int| 0 <= j < keys.len() && keys[j] == x;
                assert(views(found@).contains(x));
            }
        }
    }
    sort_strings(found)
}

/// The children of `branch` in `parent_map`, in increasing order.  Trunk
/// branches, shadow branches and merged branches are never children.
pub fn children_from_map(branch: &str, parent_map: &StrMap<Option<String>>, merged: &StrSet) -> (r:
    Vec<String>)
    requires
        parent_map.wf(),
    ensures
        strictly_sorted(views(r@)),
        views(r@).no_duplicates(),
        views(r@).to_set() == children_of(parent_map@, merged@, branch@),
        r.len() == children_of(parent_map@, merged@, branch@).len(),
{
    let r = collect_sorted(branch, parent_map, merged, false);
    proof {
        views(r@).unique_seq_to_set();
    }
    r
}

/// The branches that form the base of stacks off `main_branch`, in
/// increasing order: those whose parent is `main_branch` or a merged
/// branch.
pub fn root_children_from_map(
    main_branch: &str,
    parent_map: &StrMap<Option<String>>,
    merged: &StrSet,
) -> (r: Vec<String>)
    requires
        parent_map.wf(),
    ensures
        strictly_sorted(views(r@)),
        views(r@).no_duplicates(),
        views(r@).to_set() == root_children_of(parent_map@, merged@, main_branch@),
{
    collect_sorted(main_branch, parent_map, merged, true)
}

/// A child of a branch ranks above it.
proof fn lemma_child_rank(
    m: ParentModel,
    merged: Set<Seq<char>>,
    rank: spec_fn(Seq<char>) -> nat,
    parent: Seq<char>,
    c: Seq<char>,
)
    requires
        ranked(m, rank),
        children_of(m, merged, parent).contains(c),
    ensures
        m.contains_key(c),
        rank(c) < m.len(),
        m.contains_key(parent) ==> rank(parent) < rank(c),
{
    assert(m.contains_key(c));
    let p = parent_of(m, c)->0;
    if resolved(m, p) != p {
        assert(m.contains_key(p));
        assert(parent_of(m, p) == Some(parent));
    }
}

/// Follow sole children up from `start` until a branch has no child or
/// several.  Returns the branch reached.
pub fn walk_to_top(start: &str, parent_map: &StrMap<Option<String>>, merged: &StrSet) -> (r:
    String)
    requires
        parent_map.wf(),
        acyclic(parent_map@),
    ensures
        children_of(parent_map@, merged@, r@).len() != 1,
        exists|path: Seq<Seq<char>>|
            sole_child_chain(parent_map@, merged@, path) && path[0] == start@ && path.last()
                == r@,
{
    let ghost m = parent_map@;
    let ghost rank = choose|rank: spec_fn(Seq<char>) -> nat| ranked(m, rank);
    proof {
        parent_map.lemma_wf();
    }
    let mut current: String = start.to_owned();
    let ghost mut path: Seq<Seq<char>> = seq![start@];
    loop
        invariant
            m == parent_map@,
            parent_map.wf(),
            ranked(m, rank),
            m.dom().finite(),
            sole_child_chain(m, merged@, path),
            path[0] == start@,
            path.last() == current@,
            m.contains_key(current@) ==> rank(current@) < m.len(),
        ensures
            children_of(m, merged@, current@).len() != 1,
            sole_child_chain(m, merged@, path),
            path[0] == start@,
            path.last() == current@,
        decreases
            (if m.contains_key(current@) {
                0int
            } else {
                1int
            }),
            m.len() - (if m.contains_key(current@) {
                rank(current@) as int
            } else {
                0int
            }),
    {
        let children = children_from_map(current.as_str(), parent_map, merged);
        if children.len() != 1 {
            break;
        }
        let next = children[0].clone();
        proof {
            assert(views(children@).to_set() =~= set![next@]) by {
                assert(views(children@)[0] == next@);
            }
            lemma_child_rank(m, merged@, rank, current@, next@);
            let old_path = path;
            path = path.push(next@);
            assert forall|i: int| 0 <= i < path.len() - 1 implies children_of(
                m,
                merged@,
                #[trigger] path[i],
            ) == set![path[i + 1]] by {
                if i < old_path.len() - 1 {
                    assert(path[i] == old_path[i]);
                    assert(path[i + 1] == old_path[i + 1]);
                }
            }
        }
        current = next;
    }
    current
}

/// Should the stack running from `root` up to `top` be offered?  Stacks of
/// several branches always are, as is a branch with several children.  A
/// lone branch is offered only when it has an open pull request, or when no
/// pull-request data is at hand.
pub fn is_active_stack(
    root: &str,
    top: &str,
    open_branches: Option<&StrSet>,
    parent_map: &StrMap<Option<String>>,
    merged: &StrSet,
) -> (b: bool)
    requires
        parent_map.wf(),
    ensures
        b == (root@ != top@ || children_of(parent_map@, merged@, root@).len() > 1 || match open_branches {
            Some(open) => open@.contains(root@),
            None => true,
        }),
{
    if !str_eq(root, top) {
        return true;
    }
    let children = children_from_map(root, parent_map, merged);
    if children.len() > 1 {
        return true;
    }
    match open_branches {
        Some(open) => open.contains(root),
        None => true,
    }
}

/// Whether the stack from `root` up to `top` is offered, as
/// `is_active_stack` decides it.
pub open spec fn stack_offered(
    root: Seq<char>,
    top: Seq<char>,
    open: Option<Set<Seq<char>>>,
    m: ParentModel,
    merged: Set<Seq<char>>,
) -> bool {
    root != top || children_of(m, merged, root).len() > 1 || match open {
        Some(o) => o.contains(root),
        None => true,
    }
}

/// The (top, base) pairs of the stacks given by `tops` and `roots`, taken
/// in order.
pub open spec fn top_root_pairs(tops: Seq<Seq<char>>, roots: Seq<Seq<char>>) -> Seq<(Seq<char>, Seq<char>)> {
    Seq::new(roots.len(), |i: int| (tops[i], roots[i]))
}

/// The characters of an optional set of names.
pub open spec fn opt_set_view(o: Option<&StrSet>) -> Option<Set<Seq<char>>> {
    match o {
        Some(s) => Some(s@),
        None => None,
    }
}

/// The stacks offered from a trunk branch: of the stacks with bases
/// `roots` and tops `tops`, those `is_active_stack` accepts, in order, as
/// their tops and their bases.
pub fn active_stacks(
    tops: &Vec<String>,
    roots: &Vec<String>,
    open_branches: Option<&StrSet>,
    parent_map: &StrMap<Option<String>>,
    merged: &StrSet,
) -> (r: (Vec<String>, Vec<String>))
    requires
        parent_map.wf(),
        tops@.len() == roots@.len(),
    ensures
        r.0@.len() == r.1@.len(),
        top_root_pairs(views(r.0@), views(r.1@)) == top_root_pairs(views(tops@), views(roots@)).filter(
            |p: (Seq<char>, Seq<char>)|
                stack_offered(p.1, p.0, opt_set_view(open_branches), parent_map@, merged@),
        ),
{
    let ghost all = top_root_pairs(views(tops@), views(roots@));
    let ghost keep = |p: (Seq<char>, Seq<char>)|
        stack_offered(p.1, p.0, opt_set_view(open_branches), parent_map@, merged@);
    let mut kept_tops: Vec<String> = Vec::new();
    let mut kept_roots: Vec<String> = Vec::new();
    let mut i: usize = 0;
    proof {
        assert(all.take(0).filter(keep) =~= Seq::<(Seq<char>, Seq<char>)>::empty());
        assert(top_root_pairs(views(kept_tops@), views(kept_roots@)) =~= Seq::<(Seq<char>, Seq<char>)>::empty());
    }
    while i < roots.len()
        invariant
            parent_map.wf(),
            tops@.len() == roots@.len(),
            all == top_root_pairs(views(tops@), views(roots@)),
            keep == (|p: (Seq<char>, Seq<char>)|
                stack_offered(p.1, p.0, opt_set_view(open_branches), parent_map@, merged@)),
            i <= roots@.len(),
            kept_tops@.len() == kept_roots@.len(),
            top_root_pairs(views(kept_tops@), views(kept_roots@)) == all.take(i as int).filter(keep),
        decreases roots@.len() - i,
    {
        proof {
            assert(all.take(i + 1) =~= all.take(i as int).push(all[i as int]));
            all.take(i as int).lemma_filter_push(all[i as int], keep);
            assert(all[i as int] == (tops@[i as int]@, roots@[i as int]@));
        }
        if is_active_stack(roots[i].as_str(), tops[i].as_str(), open_branches, parent_map, merged) {
            let ghost before = top_root_pairs(views(kept_tops@), views(kept_roots@));
            kept_tops.push(tops[i].clone());
            kept_roots.push(roots[i].clone());
            proof {
                assert(top_root_pairs(views(kept_tops@), views(kept_roots@)) =~= before.push(all[i as int]));
            }
        }
        i = i + 1;
    }
    proof {
        assert(all.take(i as int) =~= all);
    }
    (kept_tops, kept_roots)
}

/// Where the walk down from `c` stops, following at most `fuel` parents:
/// at a branch with no recorded parent, or whose parent is a trunk branch.
pub open spec fn bottom_up(m: ParentModel, c: Seq<char>, fuel: nat) -> Seq<char>
    decreases fuel,
{
    if fuel == 0 || !m.contains_key(c) {
        c
    } else {
        match parent_of(m, c) {
            Some(p) => if spec_is_main(p) {
                c
            } else {
                bottom_up(m, p, (fuel - 1) as nat)
            },
            None => c,
        }
    }
}

/// `path` climbs recorded parent links from its first branch to its last,
/// never stepping onto a trunk branch.
pub open spec fn parent_walk(m: ParentModel, path: Seq<Seq<char>>) -> bool {
    &&& path.len() >= 1
    &&& forall|i: int|
        0 <= i < path.len() - 1 ==> m.contains_key(#[trigger] path[i]) && parent_of(m, path[i]) == Some(
            path[i + 1],
        ) && !spec_is_main(path[i + 1])
}

/// The walk toward the trunk stops at `b`: it has no record, no parent, or
/// a trunk branch as its parent.
pub open spec fn at_stack_bottom(m: ParentModel, b: Seq<char>) -> bool {
    !m.contains_key(b) || match parent_of(m, b) {
        Some(p) => spec_is_main(p),
        None => true,
    }
}

proof fn lemma_bottom_up_walk(m: ParentModel, rank: spec_fn(Seq<char>) -> nat, c: Seq<char>, fuel: nat)
    requires
        ranked(m, rank),
        m.contains_key(c) ==> rank(c) < fuel,
    ensures
        at_stack_bottom(m, bottom_up(m, c, fuel)),
        exists|path: Seq<Seq<char>>|
            #[trigger] parent_walk(m, path) && path[0] == c && path.last() == bottom_up(m, c, fuel),
    decreases fuel,
{
    if fuel == 0 || !m.contains_key(c) {
        assert(parent_walk(m, seq![c]));
    } else {
        match parent_of(m, c) {
            Some(p) => {
                if spec_is_main(p) {
                    assert(parent_walk(m, seq![c]));
                } else {
                    if m.contains_key(p) {
                        assert(rank(p) < rank(c));
                    }
                    lemma_bottom_up_walk(m, rank, p, (fuel - 1) as nat);
                    let rest = choose|path: Seq<Seq<char>>|
                        #[trigger] parent_walk(m, path) && path[0] == p && path.last() == bottom_up(m, p, (fuel - 1) as nat);
                    let path = seq![c] + rest;
                    assert(parent_walk(m, path)) by {
                        assert forall|i: int| 0 <= i < path.len() - 1 implies m.contains_key(#[trigger] path[i])
                            && parent_of(m, path[i]) == Some(path[i + 1]) && !spec_is_main(path[i + 1]) by {
                            if i == 0 {
                                assert(path[1] == rest[0]);
                            } else {
                                assert(path[i] == rest[i - 1]);
                                assert(path[i + 1] == rest[i]);
                            }
                        }
                    }
                    assert(path.last() == rest.last());
                }
            },
            None => {
                assert(parent_walk(m, seq![c]));
            },
        }
    }
}

/// The bottom of a stack is reached from the branch by parent links that
/// never step onto a trunk branch, and it is where such a walk must stop:
/// it has no record, no parent, or a trunk branch as parent.
pub proof fn law_bottom_is_above_trunk(m: ParentModel, c: Seq<char>)
    requires
        acyclic(m),
    ensures
        at_stack_bottom(m, bottom_up(m, c, m.len())),
        exists|path: Seq<Seq<char>>|
            #[trigger] parent_walk(m, path) && path[0] == c && path.last() == bottom_up(m, c, m.len()),
{
    let rank = choose|rank: spec_fn(Seq<char>) -> nat| ranked(m, rank);
    lemma_bottom_up_walk(m, rank, c, m.len());
}

/// The bottom of the stack of `current`: the lowest branch above the trunk
/// reached by following recorded parents.
pub fn bottom_of(current: &str, parent_map: &StrMap<Option<String>>) -> (r: String)
    requires
        parent_map.wf(),
        acyclic(parent_map@),
    ensures
        r@ == bottom_up(parent_map@, current@, parent_map@.len()),
        at_stack_bottom(parent_map@, r@),
        exists|path: Seq<Seq<char>>| #[trigger] parent_walk(parent_map@, path) && path[0] == current@ && path.last() == r@,
{
    proof {
        law_bottom_is_above_trunk(parent_map@, current@);
    }
    let ghost m = parent_map@;
    let ghost rank = choose|rank: spec_fn(Seq<char>) -> nat| ranked(m, rank);
    proof {
        parent_map.lemma_wf();
    }
    let mut target: String = current.to_owned();
    let ghost mut steps: nat = 0;
    loop
        invariant_except_break
            m.contains_key(target@) ==> rank(target@) + steps < m.len(),
        invariant
            m == parent_map@,
            parent_map.wf(),
            ranked(m, rank),
            steps <= m.len(),
            bottom_up(m, target@, (m.len() - steps) as nat) == bottom_up(m, current@, m.len()),
        ensures
            target@ == bottom_up(m, current@, m.len()),
        decreases
            if m.contains_key(target@) {
                rank(target@) + 1
            } else {
                0
            },
    {
        match parent_map.get(target.as_str()) {
            Some(Some(p)) => {
                if is_main_branch(p.as_str()) {
                    break ;
                }
                proof {
                    if m.contains_key(p@) {
                        assert(rank(p@) < rank(target@));
                    }
                    steps = steps + 1;
                }
                target = p.clone();
            },
            _ => {
                break ;
            },
        }
    }
    target
}

/// The branches one step up from `current`: the bases of the stacks off a
/// trunk branch, or the children of any other branch, in increasing order.
pub fn up_targets(current: &str, parent_map: &StrMap<Option<String>>, merged: &StrSet) -> (r: Vec<String>)
    requires
        parent_map.wf(),
    ensures
        strictly_sorted(views(r@)),
        views(r@).to_set() == if spec_is_main(current@) {
            root_children_of(parent_map@, merged@, current@)
        } else {
            children_of(parent_map@, merged@, current@)
        },
{
    if is_main_branch(current) {
        root_children_from_map(current, parent_map, merged)
    } else {
        children_from_map(current, parent_map, merged)
    }
}

/// Every name of `names` has a commit in `commits`.
pub open spec fn all_committed(names: Seq<Seq<char>>, commits: Map<Seq<char>, Seq<char>>) -> bool {
    forall|i: int| 0 <= i < names.len() ==> commits.contains_key(#[trigger] names[i])
}

/// A branch worth testing as the parent of `branch`: another branch, not a
/// merged one unless it is a trunk branch, and not at the same commit.
pub open spec fn parent_probe(
    branch: Seq<char>,
    commits: Map<Seq<char>, Seq<char>>,
    merged: Set<Seq<char>>,
    c: Seq<char>,
) -> bool {
    c != branch && !(!spec_is_main(c) && merged.contains(c)) && commits[c] != commits[branch]
}

/// The branches worth testing as the parent of `branch`, in order.
pub fn parent_probe_candidates(
    branch: &str,
    all_branches: &Vec<String>,
    commits: &StrMap<String>,
    merged: &StrSet,
) -> (r: Vec<String>)
    requires
        commits.wf(),
        commits@.contains_key(branch@),
        all_committed(views(all_branches@), commits@),
    ensures
        views(r@) == views(all_branches@).filter(|c: Seq<char>| parent_probe(branch@, commits@, merged@, c)),
{
    let ghost av = views(all_branches@);
    let ghost keep = |c: Seq<char>| parent_probe(branch@, commits@, merged@, c);
    let branch_commit = commits.get(branch).unwrap();
    let mut r: Vec<String> = Vec::new();
    let mut i: usize = 0;
    proof {
        assert(av.take(0).filter(keep) =~= Seq::<Seq<char>>::empty());
    }
    while i < all_branches.len()
        invariant
            commits.wf(),
            av == views(all_branches@),
            all_committed(av, commits@),
            commits@.contains_key(branch@),
            branch_commit@ == commits@[branch@],
            keep == (|c: Seq<char>| parent_probe(branch@, commits@, merged@, c)),
            i <= all_branches@.len(),
            views(r@) == av.take(i as int).filter(keep),
        decreases all_branches@.len() - i,
    {
        let c = &all_branches[i];
        let ghost before = views(r@);
        proof {
            assert(av.take(i + 1) =~= av.take(i as int).push(c@));
            av.take(i as int).lemma_filter_push(c@, keep);
            assert(av[i as int] == c@);
            assert(commits@.contains_key(c@));
        }
        if !str_eq(c.as_str(), branch) && !(!is_main_branch(c.as_str()) && merged.contains(c.as_str())) {
            let cc = commits.get(c.as_str()).unwrap();
            if !str_eq(cc.as_str(), branch_commit.as_str()) {
                r.push(c.clone());
                proof {
                    assert(views(r@) =~= before.push(c@));
                }
            }
        }
        i = i + 1;
    }
    proof {
        assert(av.take(i as int) =~= av);
    }
    r
}

/// The names of `names` that `m` maps to the commit `commits` gives them.
pub fn at_own_tip(names: &Vec<String>, merge_bases: &StrMap<String>, commits: &StrMap<String>) -> (r: Vec<String>)
    requires
        merge_bases.wf(),
        commits.wf(),
        all_committed(views(names@), commits@),
    ensures
        views(r@) == views(names@).filter(
            |c: Seq<char>| merge_bases@.contains_key(c) && merge_bases@[c] == commits@[c],
        ),
{
    let ghost nv = views(names@);
    let ghost keep = |c: Seq<char>| merge_bases@.contains_key(c) && merge_bases@[c] == commits@[c];
    let mut r: Vec<String> = Vec::new();
    let mut i: usize = 0;
    proof {
        assert(nv.take(0).filter(keep) =~= Seq::<Seq<char>>::empty());
    }
    while i < names.len()
        invariant
            merge_bases.wf(),
            commits.wf(),
            nv == views(names@),
            all_committed(nv, commits@),
            keep == (|c: Seq<char>| merge_bases@.contains_key(c) && merge_bases@[c] == commits@[c]),
            i <= names@.len(),
            views(r@) == nv.take(i as int).filter(keep),
        decreases names@.len() - i,
    {
        let c = &names[i];
        let ghost before = views(r@);
        proof {
            assert(nv.take(i + 1) =~= nv.take(i as int).push(c@));
            nv.take(i as int).lemma_filter_push(c@, keep);
            assert(nv[i as int] == c@);
            assert(commits@.contains_key(c@));
        }
        match merge_bases.get(c.as_str()) {
            Some(mb) => {
                let cc = commits.get(c.as_str()).unwrap();
                if str_eq(mb.as_str(), cc.as_str()) {
                    r.push(c.clone());
                    proof {
                        assert(views(r@) =~= before.push(c@));
                    }
                }
            },
            None => {},
        }
        i = i + 1;
    }
    proof {
        assert(nv.take(i as int) =~= nv);
    }
    r
}

/// `i` is the position of the first of `cands` at the least distance.
pub open spec fn nearest_at(cands: Seq<Seq<char>>, distances: Map<Seq<char>, usize>, i: int) -> bool {
    &&& 0 <= i < cands.len()
    &&& forall|j: int| 0 <= j < cands.len() ==> distances[cands[i]] <= distances[#[trigger] cands[j]]
    &&& forall|j: int| 0 <= j < i ==> distances[cands[i]] < distances[#[trigger] cands[j]]
}

/// The first of `cands` at the least distance, if any.
pub open spec fn nearest(cands: Seq<Seq<char>>, distances: Map<Seq<char>, usize>) -> Option<Seq<char>> {
    if cands.len() == 0 {
        None
    } else {
        Some(cands[choose|i: int| nearest_at(cands, distances, i)])
    }
}

/// Only one position is the first at the least distance.
pub proof fn lemma_nearest_at_unique(cands: Seq<Seq<char>>, distances: Map<Seq<char>, usize>, i: int, k: int)
    requires
        nearest_at(cands, distances, i),
        nearest_at(cands, distances, k),
    ensures
        i == k,
{
    if i < k {
        assert(distances[cands[k]] < distances[cands[i]]);
        assert(distances[cands[i]] <= distances[cands[k]]);
    } else if k < i {
        assert(distances[cands[i]] < distances[cands[k]]);
        assert(distances[cands[k]] <= distances[cands[i]]);
    }
}

/// The first of `cands` at the least distance, if any.
pub fn closest(cands: &Vec<String>, distances: &StrMap<usize>) -> (r: Option<String>)
    requires
        distances.wf(),
        forall|i: int| 0 <= i < cands@.len() ==> distances@.contains_key(#[trigger] cands@[i]@),
    ensures
        crate::cache::opt_view(r) == nearest(views(cands@), distances@),
        cands@.len() == 0 <==> r is None,
        r is Some ==> exists|i: int|
            0 <= i < cands@.len() && cands@[i]@ == r->0@ && (forall|j: int|
                0 <= j < cands@.len() ==> distances@[cands@[i]@] <= distances@[#[trigger] cands@[j]@]) && (forall|j: int|
                0 <= j < i ==> distances@[cands@[i]@] < distances@[#[trigger] cands@[j]@]),
{
    if cands.len() == 0 {
        return None;
    }
    let mut best: usize = 0;
    let mut best_d: usize = *distances.get(cands[0].as_str()).unwrap();
    let mut i: usize = 1;
    while i < cands.len()
        invariant
            distances.wf(),
            forall|t: int| 0 <= t < cands@.len() ==> distances@.contains_key(#[trigger] cands@[t]@),
            1 <= i <= cands@.len(),
            best < i,
            best_d == distances@[cands@[best as int]@],
            forall|j: int| 0 <= j < i ==> best_d <= distances@[#[trigger] cands@[j]@],
            forall|j: int| 0 <= j < best ==> best_d < distances@[#[trigger] cands@[j]@],
        decreases cands@.len() - i,
    {
        let d = *distances.get(cands[i].as_str()).unwrap();
        if d < best_d {
            best = i;
            best_d = d;
        }
        i = i + 1;
    }
    proof {
        let cv = views(cands@);
        assert(nearest_at(cv, distances@, best as int)) by {
            assert forall|j: int| 0 <= j < cv.len() implies distances@[cv[best as int]] <= distances@[#[trigger] cv[j]] by {
                assert(cv[j] == cands@[j]@);
            }
            assert forall|j: int| 0 <= j < best implies distances@[cv[best as int]] < distances@[#[trigger] cv[j]] by {
                assert(cv[j] == cands@[j]@);
            }
        }
        let k = choose|k: int| nearest_at(cv, distances@, k);
        lemma_nearest_at_unique(cv, distances@, best as int, k);
    }
    Some(cands[best].clone())
}

/// The first trunk branch among `all_branches` other than `branch`.
pub fn trunk_for(all_branches: &Vec<String>, branch: &str) -> (r: Option<String>)
    ensures
        match r {
            Some(t) => exists|i: int|
                0 <= i < all_branches@.len() && all_branches@[i]@ == t@ && spec_is_main(t@) && t@ != branch@
                    && forall|j: int| 0 <= j < i ==> !(spec_is_main(#[trigger] all_branches@[j]@) && all_branches@[j]@ != branch@),
            None => forall|j: int| 0 <= j < all_branches@.len() ==> !(spec_is_main(#[trigger] all_branches@[j]@) && all_branches@[j]@ != branch@),
        },
{
    let mut i: usize = 0;
    while i < all_branches.len()
        invariant
            i <= all_branches@.len(),
            forall|j: int| 0 <= j < i ==> !(spec_is_main(#[trigger] all_branches@[j]@) && all_branches@[j]@ != branch@),
        decreases all_branches@.len() - i,
    {
        if is_main_branch(all_branches[i].as_str()) && !str_eq(all_branches[i].as_str(), branch) {
            return Some(all_branches[i].clone());
        }
        i = i + 1;
    }
    None
}

/// The trunk to fall back on as a parent: the first of `main`, `master`
/// and `develop` that exists and is not `branch` itself.
pub open spec fn fallback_trunk_of(all: Set<Seq<char>>, branch: Seq<char>) -> Option<Seq<char>> {
    if all.contains("main"@) && "main"@ != branch {
        Some("main"@)
    } else if all.contains("master"@) && "master"@ != branch {
        Some("master"@)
    } else if all.contains("develop"@) && "develop"@ != branch {
        Some("develop"@)
    } else {
        None
    }
}

/// The trunk of a repository with these branches: the first of `main`,
/// `master` and `develop` that exists.
pub open spec fn trunk_of_set(all: Set<Seq<char>>) -> Option<Seq<char>> {
    if all.contains("main"@) {
        Some("main"@)
    } else if all.contains("master"@) {
        Some("master"@)
    } else if all.contains("develop"@) {
        Some("develop"@)
    } else {
        None
    }
}

fn contains_name(all: &Vec<String>, name: &str) -> (r: bool)
    ensures
        r == views(all@).contains(name@),
{
    let mut i: usize = 0;
    while i < all.len()
        invariant
            i <= all@.len(),
            forall|j: int| 0 <= j < i ==> views(all@)[j] != name@,
        decreases all@.len() - i,
    {
        if str_eq(all[i].as_str(), name) {
            assert(views(all@)[i as int] == name@);
            return true;
        }
        i = i + 1;
    }
    false
}

/// The trunk of a repository with these branches.
pub fn trunk_of(all_branches: &Vec<String>) -> (r: Option<String>)
    ensures
        crate::cache::opt_view(r) == trunk_of_set(views(all_branches@).to_set()),
{
    proof {
        assert forall|x: Seq<char>| views(all_branches@).contains(x) == views(all_branches@).to_set().contains(x) by {}
    }
    if contains_name(all_branches, "main") {
        Some("main".to_owned())
    } else if contains_name(all_branches, "master") {
        Some("master".to_owned())
    } else if contains_name(all_branches, "develop") {
        Some("develop".to_owned())
    } else {
        None
    }
}

/// The trunk branch a branch with no better parent falls back on.
pub fn fallback_trunk(all_branches: &Vec<String>, branch: &str) -> (r: Option<String>)
    ensures
        match r {
            Some(t) => fallback_trunk_of(views(all_branches@).to_set(), branch@) == Some(t@),
            None => fallback_trunk_of(views(all_branches@).to_set(), branch@) is None,
        },
{
    proof {
        assert forall|x: Seq<char>| views(all_branches@).contains(x) == views(all_branches@).to_set().contains(x) by {}
    }
    if contains_name(all_branches, "main") && !str_eq("main", branch) {
        Some("main".to_owned())
    } else if contains_name(all_branches, "master") && !str_eq("master", branch) {
        Some("master".to_owned())
    } else if contains_name(all_branches, "develop") && !str_eq("develop", branch) {
        Some("develop".to_owned())
    } else {
        None
    }
}

/// A candidate whose shared history with `branch` goes beyond the trunk,
/// to be checked further: not a trunk branch, and its merge base with
/// `branch` is neither `branch`'s own commit nor the trunk's merge base.
pub open spec fn relaxed_probe_ok(
    merge_bases: Map<Seq<char>, Seq<char>>,
    branch_commit: Seq<char>,
    trunk_base: Seq<char>,
    c: Seq<char>,
) -> bool {
    merge_bases.contains_key(c) && !spec_is_main(c) && merge_bases[c] != branch_commit
        && merge_bases[c] != trunk_base
}

/// The candidates of the relaxed pass whose ancestry must be checked, in
/// order.
pub fn relaxed_probe(
    probe: &Vec<String>,
    merge_bases: &StrMap<String>,
    branch_commit: &str,
    trunk_base: &str,
) -> (r: Vec<String>)
    requires
        merge_bases.wf(),
    ensures
        views(r@) == views(probe@).filter(
            |c: Seq<char>| relaxed_probe_ok(merge_bases@, branch_commit@, trunk_base@, c),
        ),
{
    let ghost pv = views(probe@);
    let ghost keep = |c: Seq<char>| relaxed_probe_ok(merge_bases@, branch_commit@, trunk_base@, c);
    let mut r: Vec<String> = Vec::new();
    let mut i: usize = 0;
    proof {
        assert(pv.take(0).filter(keep) =~= Seq::<Seq<char>>::empty());
    }
    while i < probe.len()
        invariant
            merge_bases.wf(),
            pv == views(probe@),
            keep == (|c: Seq<char>| relaxed_probe_ok(merge_bases@, branch_commit@, trunk_base@, c)),
            i <= probe@.len(),
            views(r@) == pv.take(i as int).filter(keep),
        decreases probe@.len() - i,
    {
        let c = &probe[i];
        let ghost before = views(r@);
        proof {
            assert(pv.take(i + 1) =~= pv.take(i as int).push(c@));
            pv.take(i as int).lemma_filter_push(c@, keep);
        }
        match merge_bases.get(c.as_str()) {
            Some(mb) => {
                if !is_main_branch(c.as_str()) && !str_eq(mb.as_str(), branch_commit) && !str_eq(
                    mb.as_str(),
                    trunk_base,
                ) {
                    r.push(c.clone());
                    proof {
                        assert(views(r@) =~= before.push(c@));
                    }
                }
            },
            None => {},
        }
        i = i + 1;
    }
    proof {
        assert(pv.take(i as int) =~= pv);
    }
    r
}

/// The names of `names` whose entry in `m` is `value`, in order.
pub fn mapped_to(names: &Vec<String>, m: &StrMap<String>, value: &str) -> (r: Vec<String>)
    requires
        m.wf(),
    ensures
        views(r@) == views(names@).filter(|c: Seq<char>| m@.contains_key(c) && m@[c] == value@),
{
    let ghost nv = views(names@);
    let ghost keep = |c: Seq<char>| m@.contains_key(c) && m@[c] == value@;
    let mut r: Vec<String> = Vec::new();
    let mut i: usize = 0;
    proof {
        assert(nv.take(0).filter(keep) =~= Seq::<Seq<char>>::empty());
    }
    while i < names.len()
        invariant
            m.wf(),
            nv == views(names@),
            keep == (|c: Seq<char>| m@.contains_key(c) && m@[c] == value@),
            i <= names@.len(),
            views(r@) == nv.take(i as int).filter(keep),
        decreases names@.len() - i,
    {
        let c = &names[i];
        let ghost before = views(r@);
        proof {
            assert(nv.take(i + 1) =~= nv.take(i as int).push(c@));
            nv.take(i as int).lemma_filter_push(c@, keep);
        }
        match m.get(c.as_str()) {
            Some(v) => {
                if str_eq(v.as_str(), value) {
                    r.push(c.clone());
                    proof {
                        assert(views(r@) =~= before.push(c@));
                    }
                }
            },
            None => {},
        }
        i = i + 1;
    }
    proof {
        assert(nv.take(i as int) =~= nv);
    }
    r
}

/// The candidates of the strict pass: probe candidates at the merge base of
/// themselves and `branch`.
pub open spec fn strict_parents(
    branch: Seq<char>,
    all: Seq<Seq<char>>,
    commits: Map<Seq<char>, Seq<char>>,
    merged: Set<Seq<char>>,
    merge_bases: Map<Seq<char>, Seq<char>>,
) -> Seq<Seq<char>> {
    all.filter(|c: Seq<char>| parent_probe(branch, commits, merged, c)).filter(
        |c: Seq<char>| merge_bases.contains_key(c) && merge_bases[c] == commits[c],
    )
}

/// The candidates of the relaxed pass: probe candidates that share history
/// with `branch` beyond the trunk, as `ancestry` shows it.
pub open spec fn sharing_parents(
    branch: Seq<char>,
    all: Seq<Seq<char>>,
    commits: Map<Seq<char>, Seq<char>>,
    merged: Set<Seq<char>>,
    merge_bases: Map<Seq<char>, Seq<char>>,
    trunk_base: Seq<char>,
    ancestry: Map<Seq<char>, Seq<char>>,
) -> Seq<Seq<char>> {
    all.filter(|c: Seq<char>| parent_probe(branch, commits, merged, c)).filter(
        |c: Seq<char>| relaxed_probe_ok(merge_bases, commits[branch], trunk_base, c),
    ).filter(|c: Seq<char>| ancestry.contains_key(c) && ancestry[c] == trunk_base)
}

/// The parent of `branch`: the nearest candidate of the strict pass; if
/// there is none, the nearest of the relaxed pass (run only when the trunk's
/// merge base with `branch` is known); if there is none either, the
/// fallback trunk.
pub open spec fn parent_search(
    branch: Seq<char>,
    all: Seq<Seq<char>>,
    commits: Map<Seq<char>, Seq<char>>,
    merged: Set<Seq<char>>,
    merge_bases: Map<Seq<char>, Seq<char>>,
    strict_distances: Map<Seq<char>, usize>,
    trunk_base: Option<Seq<char>>,
    ancestry: Map<Seq<char>, Seq<char>>,
    sharing_distances: Map<Seq<char>, usize>,
) -> Option<Seq<char>> {
    let strict = strict_parents(branch, all, commits, merged, merge_bases);
    if strict.len() > 0 {
        nearest(strict, strict_distances)
    } else {
        match trunk_base {
            Some(tb) => {
                let sharing = sharing_parents(branch, all, commits, merged, merge_bases, tb, ancestry);
                if sharing.len() > 0 {
                    nearest(sharing, sharing_distances)
                } else {
                    fallback_trunk_of(all.to_set(), branch)
                }
            },
            None => fallback_trunk_of(all.to_set(), branch),
        }
    }
}

/// A parent the search may give `branch`: another branch, and not a
/// merged branch unless it is a trunk branch.
pub open spec fn acceptable_parent(branch: Seq<char>, merged: Set<Seq<char>>, p: Seq<char>) -> bool {
    p != branch && !(!spec_is_main(p) && merged.contains(p))
}

/// The nearest of candidates that are all acceptable parents is one.
proof fn lemma_nearest_acceptable(
    cands: Seq<Seq<char>>,
    distances: Map<Seq<char>, usize>,
    branch: Seq<char>,
    merged: Set<Seq<char>>,
)
    requires
        cands.len() > 0,
        forall|i: int| 0 <= i < cands.len() ==> acceptable_parent(branch, merged, #[trigger] cands[i]),
        exists|i: int| nearest_at(cands, distances, i),
    ensures
        nearest(cands, distances) is Some,
        acceptable_parent(branch, merged, nearest(cands, distances)->0),
{
    let k = choose|k: int| nearest_at(cands, distances, k);
    assert(acceptable_parent(branch, merged, cands[k]));
}

/// The first of `cands` at the least distance exists when `cands` is not
/// empty.
proof fn lemma_nearest_exists(cands: Seq<Seq<char>>, distances: Map<Seq<char>, usize>)
    requires
        cands.len() > 0,
    ensures
        exists|i: int| nearest_at(cands, distances, i),
    decreases cands.len(),
{
    if cands.len() == 1 {
        assert(nearest_at(cands, distances, 0));
    } else {
        let front = cands.drop_last();
        lemma_nearest_exists(front, distances);
        let i = choose|i: int| nearest_at(front, distances, i);
        let last = cands.len() - 1;
        if distances[cands[last]] < distances[front[i]] {
            assert(nearest_at(cands, distances, last)) by {
                assert forall|j: int| 0 <= j < cands.len() implies distances[cands[last]] <= distances[#[trigger] cands[j]] by {
                    if j < last {
                        assert(cands[j] == front[j]);
                    }
                }
                assert forall|j: int| 0 <= j < last implies distances[cands[last]] < distances[#[trigger] cands[j]] by {
                    assert(cands[j] == front[j]);
                }
            }
        } else {
            assert(nearest_at(cands, distances, i)) by {
                assert forall|j: int| 0 <= j < cands.len() implies distances[cands[i]] <= distances[#[trigger] cands[j]] by {
                    if j < last {
                        assert(cands[j] == front[j]);
                    }
                }
                assert forall|j: int| 0 <= j < i implies distances[cands[i]] < distances[#[trigger] cands[j]] by {
                    assert(cands[j] == front[j]);
                }
            }
        }
    }
}

/// Every candidate of the probe filter, filtered further, is acceptable.
proof fn lemma_probe_filter_acceptable(
    branch: Seq<char>,
    all: Seq<Seq<char>>,
    commits: Map<Seq<char>, Seq<char>>,
    merged: Set<Seq<char>>,
    sub: Seq<Seq<char>>,
)
    requires
        forall|x: Seq<char>| #[trigger] sub.contains(x) ==> all.filter(|c: Seq<char>| parent_probe(branch, commits, merged, c)).contains(x),
    ensures
        forall|i: int| 0 <= i < sub.len() ==> acceptable_parent(branch, merged, #[trigger] sub[i]),
{
    let p = |c: Seq<char>| parent_probe(branch, commits, merged, c);
    assert forall|i: int| 0 <= i < sub.len() implies acceptable_parent(branch, merged, #[trigger] sub[i]) by {
        assert(sub.contains(sub[i]));
        let f = all.filter(p);
        assert(f.contains(sub[i]));
        let k = choose|k: int| 0 <= k < f.len() && f[k] == sub[i];
        all.lemma_filter_pred(p, k);
    }
}

/// The parent of `branch`, given the answers the repository gave: the
/// merge base of `branch` with each candidate that has one, the distances
/// to the candidates of the strict pass, and, for the relaxed pass, the
/// trunk's merge base with `branch`, how each candidate's merge base
/// relates to it, and the distances to the candidates sharing history.
/// The parent is never `branch` itself nor a merged branch other than a
/// trunk branch, and there is one whenever a trunk branch other than
/// `branch` exists.
pub fn search_parent(
    branch: &str,
    all_branches: &Vec<String>,
    commits: &StrMap<String>,
    merged: &StrSet,
    merge_bases: &StrMap<String>,
    strict_distances: &StrMap<usize>,
    trunk_base: Option<&str>,
    ancestry: &StrMap<String>,
    sharing_distances: &StrMap<usize>,
) -> (r: Option<String>)
    requires
        commits.wf(),
        merge_bases.wf(),
        ancestry.wf(),
        strict_distances.wf(),
        sharing_distances.wf(),
        commits@.contains_key(branch@),
        all_committed(views(all_branches@), commits@),
        forall|c: Seq<char>|
            #[trigger] strict_parents(branch@, views(all_branches@), commits@, merged@, merge_bases@).contains(c)
                ==> strict_distances@.contains_key(c),
        forall|tb: Seq<char>, c: Seq<char>|
            crate::cache::opt_str_view(trunk_base) == Some(tb) && #[trigger] sharing_parents(branch@, views(all_branches@), commits@, merged@, merge_bases@, tb, ancestry@).contains(c)
                ==> sharing_distances@.contains_key(c),
    ensures
        crate::cache::opt_view(r) == parent_search(
            branch@,
            views(all_branches@),
            commits@,
            merged@,
            merge_bases@,
            strict_distances@,
            crate::cache::opt_str_view(trunk_base),
            ancestry@,
            sharing_distances@,
        ),
        r is Some ==> acceptable_parent(branch@, merged@, r->0@),
        (exists|t: Seq<char>| views(all_branches@).contains(t) && spec_is_main(t) && t != branch@) ==> r is Some,
{
    let ghost av = views(all_branches@);
    let ghost probe = |c: Seq<char>| parent_probe(branch@, commits@, merged@, c);
    let cands = parent_probe_candidates(branch, all_branches, commits, merged);
    proof {
        assert forall|i: int| 0 <= i < views(cands@).len() implies commits@.contains_key(#[trigger] views(cands@)[i]) by {
            let x = views(cands@)[i];
            assert(av.filter(probe).contains(x));
            av.lemma_filter_contains_rev(probe, x);
            let k = choose|k: int| 0 <= k < av.len() && av[k] == x;
            assert(commits@.contains_key(av[k]));
        }
    }
    let strict = at_own_tip(&cands, merge_bases, commits);
    proof {
        let q = |c: Seq<char>| merge_bases@.contains_key(c) && merge_bases@[c] == commits@[c];
        assert(views(strict@) == strict_parents(branch@, av, commits@, merged@, merge_bases@));
        assert forall|x: Seq<char>| #[trigger] views(strict@).contains(x) implies av.filter(probe).contains(x) by {
            av.filter(probe).lemma_filter_contains_rev(q, x);
        }
        lemma_probe_filter_acceptable(branch@, av, commits@, merged@, views(strict@));
    }
    if strict.len() > 0 {
        proof {
            assert forall|i: int| 0 <= i < strict@.len() implies strict_distances@.contains_key(#[trigger] strict@[i]@) by {
                assert(views(strict@)[i] == strict@[i]@);
                assert(views(strict@).contains(strict@[i]@));
            }
            lemma_nearest_exists(views(strict@), strict_distances@);
            lemma_nearest_acceptable(views(strict@), strict_distances@, branch@, merged@);
        }
        return closest(&strict, strict_distances);
    }
    match trunk_base {
        Some(tb) => {
            let branch_commit = commits.get(branch).unwrap();
            let relaxed = relaxed_probe(&cands, merge_bases, branch_commit.as_str(), tb);
            let sharing = mapped_to(&relaxed, ancestry, tb);
            proof {
                let q1 = |c: Seq<char>| relaxed_probe_ok(merge_bases@, commits@[branch@], tb@, c);
                let q2 = |c: Seq<char>| ancestry@.contains_key(c) && ancestry@[c] == tb@;
                assert(views(sharing@) == sharing_parents(branch@, av, commits@, merged@, merge_bases@, tb@, ancestry@));
                assert forall|x: Seq<char>| #[trigger] views(sharing@).contains(x) implies av.filter(probe).contains(x) by {
                    av.filter(probe).filter(q1).lemma_filter_contains_rev(q2, x);
                    av.filter(probe).lemma_filter_contains_rev(q1, x);
                }
                lemma_probe_filter_acceptable(branch@, av, commits@, merged@, views(sharing@));
            }
            if sharing.len() > 0 {
                proof {
                    assert forall|i: int| 0 <= i < sharing@.len() implies sharing_distances@.contains_key(#[trigger] sharing@[i]@) by {
                        assert(views(sharing@)[i] == sharing@[i]@);
                        assert(views(sharing@).contains(sharing@[i]@));
                    }
                    lemma_nearest_exists(views(sharing@), sharing_distances@);
                    lemma_nearest_acceptable(views(sharing@), sharing_distances@, branch@, merged@);
                }
                return closest(&sharing, sharing_distances);
            }
        },
        None => {},
    }
    let r = fallback_trunk(all_branches, branch);
    proof {
        let allset = av.to_set();
        if exists|t: Seq<char>| av.contains(t) && spec_is_main(t) && t != branch@ {
            let t = choose|t: Seq<char>| av.contains(t) && spec_is_main(t) && t != branch@;
            assert(allset.contains(t));
        }
    }
    r
}

/// A branch worth testing as a child of `branch`: another branch, neither
/// a trunk branch nor merged, and not at the same commit.
pub open spec fn child_probe(
    branch: Seq<char>,
    commits: Map<Seq<char>, Seq<char>>,
    merged: Set<Seq<char>>,
    c: Seq<char>,
) -> bool {
    c != branch && !spec_is_main(c) && !merged.contains(c) && commits[c] != commits[branch]
}

/// The branches worth testing as children of `branch`, in order.
pub fn child_probe_candidates(
    branch: &str,
    all_branches: &Vec<String>,
    commits: &StrMap<String>,
    merged: &StrSet,
) -> (r: Vec<String>)
    requires
        commits.wf(),
        commits@.contains_key(branch@),
        all_committed(views(all_branches@), commits@),
    ensures
        views(r@) == views(all_branches@).filter(|c: Seq<char>| child_probe(branch@, commits@, merged@, c)),
{
    let ghost av = views(all_branches@);
    let ghost keep = |c: Seq<char>| child_probe(branch@, commits@, merged@, c);
    let branch_commit = commits.get(branch).unwrap();
    let mut r: Vec<String> = Vec::new();
    let mut i: usize = 0;
    proof {
        assert(av.take(0).filter(keep) =~= Seq::<Seq<char>>::empty());
    }
    while i < all_branches.len()
        invariant
            commits.wf(),
            av == views(all_branches@),
            all_committed(av, commits@),
            commits@.contains_key(branch@),
            branch_commit@ == commits@[branch@],
            keep == (|c: Seq<char>| child_probe(branch@, commits@, merged@, c)),
            i <= all_branches@.len(),
            views(r@) == av.take(i as int).filter(keep),
        decreases all_branches@.len() - i,
    {
        let c = &all_branches[i];
        let ghost before = views(r@);
        proof {
            assert(av.take(i + 1) =~= av.take(i as int).push(c@));
            av.take(i as int).lemma_filter_push(c@, keep);
            assert(av[i as int] == c@);
            assert(commits@.contains_key(c@));
        }
        if !str_eq(c.as_str(), branch) && !is_main_branch(c.as_str()) && !merged.contains(c.as_str()) {
            let cc = commits.get(c.as_str()).unwrap();
            if !str_eq(cc.as_str(), branch_commit.as_str()) {
                r.push(c.clone());
                proof {
                    assert(views(r@) =~= before.push(c@));
                }
            }
        }
        i = i + 1;
    }
    proof {
        assert(av.take(i as int) =~= av);
    }
    r
}

/// `c` descends from another candidate: some candidate at another commit
/// is the merge base of the two, as `pair_bases` records it with triples
/// (candidate, other, merge base).
pub open spec fn under_other(
    cands: Seq<Seq<char>>,
    commits: Map<Seq<char>, Seq<char>>,
    pair_bases: Seq<(Seq<char>, Seq<char>, Seq<char>)>,
    c: Seq<char>,
) -> bool {
    exists|j: int, t: int|
        0 <= j < cands.len() && 0 <= t < pair_bases.len() && cands[j] != c && commits[#[trigger] cands[j]]
            != commits[c] && #[trigger] pair_bases[t] == (c, cands[j], commits[cands[j]])
}

/// The characters of string triples.
pub open spec fn triple_strs(s: Seq<(String, String, String)>) -> Seq<(Seq<char>, Seq<char>, Seq<char>)> {
    s.map_values(|e: (String, String, String)| (e.0@, e.1@, e.2@))
}

/// Is `(c, o, v)` one of the triples?
fn has_triple(pair_bases: &Vec<(String, String, String)>, c: &str, o: &str, v: &str) -> (r: bool)
    ensures
        r == exists|t: int| 0 <= t < pair_bases@.len() && #[trigger] triple_strs(pair_bases@)[t] == (c@, o@, v@),
{
    let mut t: usize = 0;
    while t < pair_bases.len()
        invariant
            t <= pair_bases@.len(),
            forall|u: int| 0 <= u < t ==> #[trigger] triple_strs(pair_bases@)[u] != (c@, o@, v@),
        decreases pair_bases@.len() - t,
    {
        let e = &pair_bases[t];
        if str_eq(e.0.as_str(), c) && str_eq(e.1.as_str(), o) && str_eq(e.2.as_str(), v) {
            assert(triple_strs(pair_bases@)[t as int] == (c@, o@, v@));
            return true;
        }
        t = t + 1;
    }
    false
}

/// The direct children among `cands`: those that descend from no other
/// candidate.  `pair_bases` holds (candidate, other, merge base) triples
/// for the pairs whose merge base was found.
pub fn direct_children(
    cands: &Vec<String>,
    commits: &StrMap<String>,
    pair_bases: &Vec<(String, String, String)>,
) -> (r: Vec<String>)
    requires
        commits.wf(),
        all_committed(views(cands@), commits@),
    ensures
        views(r@) == views(cands@).filter(
            |c: Seq<char>| !under_other(views(cands@), commits@, triple_strs(pair_bases@), c),
        ),
{
    let ghost cv = views(cands@);
    let ghost pb = triple_strs(pair_bases@);
    let ghost keep = |c: Seq<char>| !under_other(cv, commits@, pb, c);
    let mut r: Vec<String> = Vec::new();
    let mut i: usize = 0;
    proof {
        assert(cv.take(0).filter(keep) =~= Seq::<Seq<char>>::empty());
    }
    while i < cands.len()
        invariant
            commits.wf(),
            cv == views(cands@),
            pb == triple_strs(pair_bases@),
            all_committed(cv, commits@),
            keep == (|c: Seq<char>| !under_other(cv, commits@, pb, c)),
            i <= cands@.len(),
            views(r@) == cv.take(i as int).filter(keep),
        decreases cands@.len() - i,
    {
        let c = &cands[i];
        let ghost before = views(r@);
        proof {
            assert(cv.take(i + 1) =~= cv.take(i as int).push(c@));
            cv.take(i as int).lemma_filter_push(c@, keep);
            assert(cv[i as int] == c@);
        }
        let c_commit = commits.get(c.as_str()).unwrap();
        let mut below = false;
        let mut j: usize = 0;
        while j < cands.len()
            invariant
                commits.wf(),
                cv == views(cands@),
                pb == triple_strs(pair_bases@),
                all_committed(cv, commits@),
                commits@.contains_key(c@),
                c_commit@ == commits@[c@],
                j <= cands@.len(),
                !below ==> forall|jj: int, t: int|
                    0 <= jj < j && 0 <= t < pb.len() ==> !(cv[jj] != c@ && commits@[#[trigger] cv[jj]] != commits@[c@]
                        && #[trigger] pb[t] == (c@, cv[jj], commits@[cv[jj]])),
                below ==> under_other(cv, commits@, pb, c@),
            decreases cands@.len() - j,
        {
            let o = &cands[j];
            proof {
                assert(cv[j as int] == o@);
                assert(commits@.contains_key(o@));
            }
            if !below && !str_eq(o.as_str(), c.as_str()) {
                let o_commit = commits.get(o.as_str()).unwrap();
                if !str_eq(o_commit.as_str(), c_commit.as_str()) {
                    if has_triple(pair_bases, c.as_str(), o.as_str(), o_commit.as_str()) {
                        below = true;
                        proof {
                            let t = choose|t: int| 0 <= t < pair_bases@.len() && #[trigger] triple_strs(pair_bases@)[t] == (c@, o@, o_commit@);
                            assert(pb[t] == (c@, cv[j as int], commits@[cv[j as int]]));
                        }
                    }
                }
            }
            j = j + 1;
        }
        if !below {
            r.push(c.clone());
            proof {
                assert(views(r@) =~= before.push(c@));
            }
        }
        i = i + 1;
    }
    proof {
        assert(cv.take(i as int) =~= cv);
    }
    r
}

/// The connector drawn before a branch in the picker's preview tree: none
/// at the root, a corner for a last child, a tee otherwise.
pub fn preview_connector(is_root: bool, is_last: bool) -> (r: &'static str)
    ensures
        r@ == if is_root {
            ""@
        } else if is_last {
            "\u{2514}\u{2500} "@
        } else {
            "\u{251c}\u{2500} "@
        },
{
    if is_root {
        ""
    } else if is_last {
        "\u{2514}\u{2500} "
    } else {
        "\u{251c}\u{2500} "
    }
}

/// The prefix drawn before the children of a branch in the preview tree:
/// none under the root, blanks under a last child, a bar otherwise.
pub fn preview_child_prefix(prefix: &str, is_root: bool, is_last: bool) -> (r: String)
    ensures
        r@ == if is_root {
            Seq::<char>::empty()
        } else if is_last {
            prefix@ + "   "@
        } else {
            prefix@ + "\u{2502}  "@
        },
{
    if is_root {
        proof {
            reveal_strlit("");
        }
        "".to_owned()
    } else if is_last {
        prefix.to_owned().concat("   ")
    } else {
        prefix.to_owned().concat("\u{2502}  ")
    }
}

/// A key pressed in the branch picker.
#[derive(Debug, Clone, Copy, PartialEq, Eq, Structural)]
pub enum PickerKey {
    /// Arrow up or `k`.
    Up,
    /// Arrow down or `j`.
    Down,
    /// Enter.
    Enter,
    /// Escape or Ctrl+C.
    Cancel,
    /// Any other key.
    Other,
}

/// What the picker does after a key.
#[derive(Debug, Clone, Copy, PartialEq, Eq, Structural)]
pub enum PickerStep {
    /// Highlight this choice and wait for the next key.
    Highlight(usize),
    /// Take this choice.
    Choose(usize),
    /// Give up without a choice.
    Cancel,
}

/// The picker's answer to `key` with choice `selected` of `count`
/// highlighted: up and down move within the list and stop at its ends.
pub fn picker_step(selected: usize, count: usize, key: PickerKey) -> (r: PickerStep)
    requires
        selected < count,
    ensures
        r == match key {
            PickerKey::Up => PickerStep::Highlight(if selected > 0 { (selected - 1) as usize } else { 0 }),
            PickerKey::Down => PickerStep::Highlight(if selected + 1 < count { (selected + 1) as usize } else { (count - 1) as usize }),
            PickerKey::Enter => PickerStep::Choose(selected),
            PickerKey::Cancel => PickerStep::Cancel,
            PickerKey::Other => PickerStep::Highlight(selected),
        },
{
    match key {
        PickerKey::Up => PickerStep::Highlight(selected.saturating_sub(1)),
        PickerKey::Down => {
            if selected + 1 < count {
                PickerStep::Highlight(selected + 1)
            } else {
                PickerStep::Highlight(count - 1)
            }
        },
        PickerKey::Enter => PickerStep::Choose(selected),
        PickerKey::Cancel => PickerStep::Cancel,
        PickerKey::Other => PickerStep::Highlight(selected),
    }
}

} // verus!
