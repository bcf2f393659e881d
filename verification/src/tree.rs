//! The stack drawn as a tree: which line each branch gets, how deep it is
//! indented, and what it is annotated with.  Colours are left to the
//! caller.
use vstd::prelude::*;
use crate::collections::{StrMap, StrSet};
use crate::navigate::spec_is_shadow;
use crate::stack::{
    ancestors, children_consistent, children_recorded, lemma_listing_names_stack, names_are_keys,
    parents_acyclic, parents_ranked, stack_listing, stack_names, BranchModel, Stack,
    StackBranchView,
};
use crate::submit::{child_rank, children_acyclic, children_ranked, lemma_children_acyclic};
use crate::text::{str_eq, views};

verus! {

/// One line of the drawn tree.
#[derive(Debug, Clone, PartialEq, Eq)]
pub enum TreeLine {
    /// A branch: its merge sources besides the first, whether it is checked
    /// out, and the state and number of its pull request.
    Branch {
        depth: usize,
        name: String,
        other_sources: Vec<String>,
        is_current: bool,
        pr: Option<(String, u64)>,
    },
    /// A diamond consumer shown under another of its sources, with its
    /// sources other than that one.
    Consumer { depth: usize, name: String, other_sources: Vec<String> },
    /// A branch met again on its own path from the root.
    Cycle { depth: usize, name: String },
}

/// The characters of a tree line.
pub enum TreeLineView {
    Branch {
        depth: nat,
        name: Seq<char>,
        other_sources: Seq<Seq<char>>,
        is_current: bool,
        pr: Option<(Seq<char>, u64)>,
    },
    Consumer { depth: nat, name: Seq<char>, other_sources: Seq<Seq<char>> },
    Cycle { depth: nat, name: Seq<char> },
}

impl View for TreeLine {
    type V = TreeLineView;

    open spec fn view(&self) -> TreeLineView {
        match self {
            TreeLine::Branch { depth, name, other_sources, is_current, pr } => TreeLineView::Branch {
                depth: *depth as nat,
                name: name@,
                other_sources: views(other_sources@),
                is_current: *is_current,
                pr: match pr {
                    Some(p) => Some((p.0@, p.1)),
                    None => None,
                },
            },
            TreeLine::Consumer { depth, name, other_sources } => TreeLineView::Consumer {
                depth: *depth as nat,
                name: name@,
                other_sources: views(other_sources@),
            },
            TreeLine::Cycle { depth, name } => TreeLineView::Cycle { depth: *depth as nat, name: name@ },
        }
    }
}

/// The characters of tree lines.
pub open spec fn line_views(s: Seq<TreeLine>) -> Seq<TreeLineView> {
    s.map_values(|l: TreeLine| l@)
}

/// Merge sources by branch name.
pub type SourceModel = Map<Seq<char>, Seq<Seq<char>>>;

/// The characters of a map of string lists.
pub open spec fn source_views(m: Map<Seq<char>, Seq<String>>) -> SourceModel {
    m.map_values(|v: Seq<String>| views(v))
}

/// The merge sources recorded for `b`, none when it has no entry.
pub open spec fn sources_of(srcs: SourceModel, b: Seq<char>) -> Seq<Seq<char>> {
    if srcs.contains_key(b) {
        srcs[b]
    } else {
        Seq::empty()
    }
}

/// The merge sources of `b` after its first, which the tree shows by
/// where `b` stands.
pub open spec fn extra_sources(srcs: SourceModel, b: Seq<char>) -> Seq<Seq<char>> {
    if sources_of(srcs, b).len() > 1 {
        sources_of(srcs, b).skip(1)
    } else {
        Seq::empty()
    }
}

/// `name` once for each time `s` occurs in `tail`.
pub open spec fn name_per_match(tail: Seq<Seq<char>>, s: Seq<char>, name: Seq<char>) -> Seq<Seq<char>>
    decreases tail.len(),
{
    if tail.len() == 0 {
        Seq::empty()
    } else {
        name_per_match(tail.drop_last(), s, name) + if tail.last() == s {
            seq![name]
        } else {
            Seq::empty()
        }
    }
}

/// The consumers that list `s` among their merge sources after the first,
/// taken from the records under `ks` in order, once per listing.
pub open spec fn consumers_of(bm: BranchModel, ks: Seq<Seq<char>>, srcs: SourceModel, s: Seq<char>) -> Seq<
    Seq<char>,
>
    decreases ks.len(),
{
    if ks.len() == 0 {
        Seq::empty()
    } else {
        consumers_of(bm, ks.drop_last(), srcs, s) + name_per_match(
            extra_sources(srcs, ks.last()),
            s,
            bm[ks.last()].name,
        )
    }
}

/// The line of a branch record.
pub open spec fn branch_line(br: StackBranchView, srcs: SourceModel, key: Seq<char>, depth: nat) -> TreeLineView {
    TreeLineView::Branch {
        depth,
        name: br.name,
        other_sources: extra_sources(srcs, key),
        is_current: br.is_current,
        pr: match br.pull_request {
            Some(p) => Some((p.state, p.number)),
            None => None,
        },
    }
}

/// The lines of the consumers in `cs` shown under source `b`: those with a
/// record, in the stack and not on the path.
pub open spec fn consumer_lines(
    bm: BranchModel,
    scope: Set<Seq<char>>,
    srcs: SourceModel,
    b: Seq<char>,
    depth: nat,
    path: Seq<Seq<char>>,
    cs: Seq<Seq<char>>,
) -> Seq<TreeLineView>
    decreases cs.len(),
{
    if cs.len() == 0 {
        Seq::empty()
    } else {
        let rest = consumer_lines(bm, scope, srcs, b, depth, path, cs.drop_last());
        let c = cs.last();
        if !path.contains(c) && scope.contains(c) && bm.contains_key(c) {
            rest.push(
                TreeLineView::Consumer {
                    depth,
                    name: c,
                    other_sources: sources_of(srcs, c).filter(|x: Seq<char>| x != b),
                },
            )
        } else {
            rest
        }
    }
}

/// The lines drawn for `b` at `depth`, with `path` the branches above it,
/// descending at most `fuel` levels.  Branches outside `scope` are left
/// out; a shadow branch is not drawn but its children are, at its depth; a
/// branch already on the path is drawn as a cycle; any other branch gets
/// its line, the lines of the consumers shown under it, then its
/// children's lines one level deeper.
pub open spec fn tree_lines(
    bm: BranchModel,
    ks: Seq<Seq<char>>,
    scope: Set<Seq<char>>,
    srcs: SourceModel,
    b: Seq<char>,
    depth: nat,
    path: Seq<Seq<char>>,
    fuel: nat,
) -> Seq<TreeLineView>
    decreases fuel, 0nat,
{
    if fuel == 0 || !scope.contains(b) {
        Seq::empty()
    } else if spec_is_shadow(b) {
        if bm.contains_key(b) {
            kid_lines(bm, ks, scope, srcs, bm[b].children, depth, path, (fuel - 1) as nat)
        } else {
            Seq::empty()
        }
    } else if path.contains(b) {
        seq![TreeLineView::Cycle { depth, name: b }]
    } else if bm.contains_key(b) {
        let p2 = path.push(b);
        seq![branch_line(bm[b], srcs, b, depth)] + consumer_lines(
            bm,
            scope,
            srcs,
            b,
            depth + 1,
            p2,
            consumers_of(bm, ks, srcs, b),
        ) + kid_lines(bm, ks, scope, srcs, bm[b].children, depth + 1, p2, (fuel - 1) as nat)
    } else {
        Seq::empty()
    }
}

/// The lines of each of `kids`, one after another.
pub open spec fn kid_lines(
    bm: BranchModel,
    ks: Seq<Seq<char>>,
    scope: Set<Seq<char>>,
    srcs: SourceModel,
    kids: Seq<Seq<char>>,
    depth: nat,
    path: Seq<Seq<char>>,
    fuel: nat,
) -> Seq<TreeLineView>
    decreases fuel, kids.len(),
{
    if kids.len() == 0 {
        Seq::empty()
    } else {
        kid_lines(bm, ks, scope, srcs, kids.drop_last(), depth, path, fuel) + tree_lines(
            bm,
            ks,
            scope,
            srcs,
            kids.last(),
            depth,
            path,
            fuel,
        )
    }
}

/// Every branch on `path` has a record.
pub open spec fn path_recorded(bm: BranchModel, path: Seq<Seq<char>>) -> bool {
    forall|i: int| 0 <= i < path.len() ==> bm.contains_key(#[trigger] path[i])
}

proof fn lemma_unrecorded_empty(
    bm: BranchModel,
    ks: Seq<Seq<char>>,
    scope: Set<Seq<char>>,
    srcs: SourceModel,
    b: Seq<char>,
    depth: nat,
    path: Seq<Seq<char>>,
    fuel: nat,
)
    requires
        !bm.contains_key(b),
        path_recorded(bm, path),
    ensures
        tree_lines(bm, ks, scope, srcs, b, depth, path, fuel) == Seq::<TreeLineView>::empty(),
{
    if path.contains(b) {
        let i = choose|i: int| 0 <= i < path.len() && path[i] == b;
        assert(bm.contains_key(path[i]));
    }
}

proof fn lemma_tree_fuel(
    bm: BranchModel,
    rank: spec_fn(Seq<char>) -> nat,
    ks: Seq<Seq<char>>,
    scope: Set<Seq<char>>,
    srcs: SourceModel,
    b: Seq<char>,
    depth: nat,
    path: Seq<Seq<char>>,
    f1: nat,
    f2: nat,
)
    requires
        children_ranked(bm, rank),
        path_recorded(bm, path),
        bm.contains_key(b),
        rank(b) < f1,
        rank(b) < f2,
    ensures
        tree_lines(bm, ks, scope, srcs, b, depth, path, f1) == tree_lines(
            bm,
            ks,
            scope,
            srcs,
            b,
            depth,
            path,
            f2,
        ),
    decreases f1, 0nat,
{
    let kids = bm[b].children;
    assert forall|i: int| 0 <= i < kids.len() && bm.contains_key(#[trigger] kids[i]) implies rank(kids[i]) < (
    f1 - 1) as nat && rank(kids[i]) < (f2 - 1) as nat by {
        assert(bm.contains_key(bm[b].children[i]));
    }
    if scope.contains(b) {
        if spec_is_shadow(b) {
            lemma_kids_fuel(bm, rank, ks, scope, srcs, kids, depth, path, (f1 - 1) as nat, (f2 - 1) as nat);
        } else if !path.contains(b) {
            let p2 = path.push(b);
            assert(path_recorded(bm, p2)) by {
                assert forall|i: int| 0 <= i < p2.len() implies bm.contains_key(#[trigger] p2[i]) by {
                    if i < path.len() {
                        assert(p2[i] == path[i]);
                    }
                }
            }
            lemma_kids_fuel(bm, rank, ks, scope, srcs, kids, depth + 1, p2, (f1 - 1) as nat, (f2 - 1) as nat);
        }
    }
}

proof fn lemma_kids_fuel(
    bm: BranchModel,
    rank: spec_fn(Seq<char>) -> nat,
    ks: Seq<Seq<char>>,
    scope: Set<Seq<char>>,
    srcs: SourceModel,
    kids: Seq<Seq<char>>,
    depth: nat,
    path: Seq<Seq<char>>,
    f1: nat,
    f2: nat,
)
    requires
        children_ranked(bm, rank),
        path_recorded(bm, path),
        forall|i: int| 0 <= i < kids.len() && bm.contains_key(#[trigger] kids[i]) ==> rank(kids[i]) < f1 && rank(kids[i]) < f2,
    ensures
        kid_lines(bm, ks, scope, srcs, kids, depth, path, f1) == kid_lines(
            bm,
            ks,
            scope,
            srcs,
            kids,
            depth,
            path,
            f2,
        ),
    decreases f1, kids.len(),
{
    if kids.len() > 0 {
        let c = kids.last();
        assert(kids[kids.len() - 1] == c);
        lemma_kids_fuel(bm, rank, ks, scope, srcs, kids.drop_last(), depth, path, f1, f2);
        if bm.contains_key(c) {
            lemma_tree_fuel(bm, rank, ks, scope, srcs, c, depth, path, f1, f2);
        } else {
            lemma_unrecorded_empty(bm, ks, scope, srcs, c, depth, path, f1);
            lemma_unrecorded_empty(bm, ks, scope, srcs, c, depth, path, f2);
        }
    }
}

/// Whether `x` is on `path`.
fn path_has(path: &Vec<String>, x: &str) -> (r: bool)
    ensures
        r == views(path@).contains(x@),
{
    let mut i: usize = 0;
    while i < path.len()
        invariant
            i <= path@.len(),
            forall|j: int| 0 <= j < i ==> views(path@)[j] != x@,
        decreases path@.len() - i,
    {
        if str_eq(path[i].as_str(), x) {
            assert(views(path@)[i as int] == x@);
            return true;
        }
        i = i + 1;
    }
    false
}

/// The merge sources of `key` after its first.
fn extra_sources_of(sources: &StrMap<Vec<String>>, key: &str) -> (r: Vec<String>)
    requires
        sources.wf(),
    ensures
        views(r@) == extra_sources(source_views(sources@), key@),
{
    let ghost srcs = source_views(sources@);
    let mut r: Vec<String> = Vec::new();
    match sources.get(key) {
        Some(ms) => {
            if ms.len() > 1 {
                let ghost tail = views(ms@).skip(1);
                let mut j: usize = 1;
                while j < ms.len()
                    invariant
                        1 <= j <= ms@.len(),
                        tail == views(ms@).skip(1),
                        views(r@) == tail.take(j - 1),
                    decreases ms@.len() - j,
                {
                    r.push(ms[j].clone());
                    proof {
                        assert(tail.take(j as int) =~= tail.take(j - 1).push(views(ms@)[j as int]));
                    }
                    j = j + 1;
                }
                proof {
                    assert(tail.take(j - 1) =~= tail);
                }
            }
        },
        None => {},
    }
    proof {
        assert(views(r@) =~= extra_sources(srcs, key@));
    }
    r
}

/// The merge sources of `c` other than `b`, in order.
fn sources_except(sources: &StrMap<Vec<String>>, c: &str, b: &str) -> (r: Vec<String>)
    requires
        sources.wf(),
    ensures
        views(r@) == sources_of(source_views(sources@), c@).filter(|x: Seq<char>| x != b@),
{
    let ghost keep = |x: Seq<char>| x != b@;
    let mut r: Vec<String> = Vec::new();
    match sources.get(c) {
        Some(ms) => {
            let ghost mv = views(ms@);
            let mut j: usize = 0;
            proof {
                assert(mv.take(0).filter(keep) =~= Seq::<Seq<char>>::empty());
            }
            while j < ms.len()
                invariant
                    j <= ms@.len(),
                    mv == views(ms@),
                    keep == (|x: Seq<char>| x != b@),
                    views(r@) == mv.take(j as int).filter(keep),
                decreases ms@.len() - j,
            {
                proof {
                    assert(mv.take(j + 1) =~= mv.take(j as int).push(mv[j as int]));
                    mv.take(j as int).lemma_filter_push(mv[j as int], keep);
                }
                if !str_eq(ms[j].as_str(), b) {
                    let ghost before = views(r@);
                    r.push(ms[j].clone());
                    proof {
                        assert(views(r@) =~= before.push(mv[j as int]));
                    }
                }
                j = j + 1;
            }
            proof {
                assert(mv.take(j as int) =~= mv);
            }
        },
        None => {
            proof {
                assert(Seq::<Seq<char>>::empty().filter(keep) =~= Seq::<Seq<char>>::empty());
            }
        },
    }
    r
}

/// The consumers shown under source `b`: for each record in order, its
/// name once for each time it lists `b` among its sources after the first.
fn consumers_for(stack: &Stack, sources: &StrMap<Vec<String>>, b: &str) -> (r: Vec<String>)
    requires
        stack.branches.wf(),
        sources.wf(),
    ensures
        views(r@) == consumers_of(stack.branches@, stack.branches.keys(), source_views(sources@), b@),
{
    let ghost bm = stack.branches@;
    let ghost ks = stack.branches.keys();
    let ghost srcs = source_views(sources@);
    proof {
        stack.branches.lemma_wf();
    }
    let mut r: Vec<String> = Vec::new();
    let mut i: usize = 0;
    while i < stack.branches.len()
        invariant
            stack.branches.wf(),
            bm == stack.branches@,
            ks == stack.branches.keys(),
            srcs == source_views(sources@),
            sources.wf(),
            i <= ks.len(),
            ks.len() == stack.branches.vals().len(),
            forall|t: int| 0 <= t < ks.len() ==> #[trigger] bm.contains_key(ks[t]) && bm[ks[t]] == stack.branches.vals()[t],
            views(r@) == consumers_of(bm, ks.take(i as int), srcs, b@),
        decreases ks.len() - i,
    {
        let key = stack.branches.key_at(i);
        let name = &stack.branches.value_at(i).name;
        let extra = extra_sources_of(sources, key.as_str());
        let ghost base = views(r@);
        let ghost tail = views(extra@);
        proof {
            assert(bm.contains_key(ks[i as int]));
            assert(bm[ks[i as int]] == stack.branches.vals()[i as int]);
        }
        let mut j: usize = 0;
        while j < extra.len()
            invariant
                j <= extra@.len(),
                tail == views(extra@),
                views(r@) == base + name_per_match(tail.take(j as int), b@, name@),
            decreases extra@.len() - j,
        {
            proof {
                assert(tail.take(j + 1).drop_last() =~= tail.take(j as int));
                assert(tail.take(j + 1).last() == tail[j as int]);
            }
            proof {
                assert(tail[j as int] == extra@[j as int]@);
            }
            if str_eq(extra[j].as_str(), b) {
                let ghost before = views(r@);
                let nm = name.clone();
                r.push(nm);
                proof {
                    assert(views(r@) =~= before.push(nm@));
                    assert(views(r@) =~= base + name_per_match(tail.take(j + 1), b@, name@));
                }
            } else {
                proof {
                    assert(name_per_match(tail.take(j + 1), b@, name@) =~= name_per_match(tail.take(j as int), b@, name@));
                }
            }
            j = j + 1;
        }
        proof {
            assert(tail.take(j as int) =~= tail);
            assert(ks.take(i + 1).drop_last() =~= ks.take(i as int));
            assert(ks.take(i + 1).last() == ks[i as int]);
        }
        i = i + 1;
    }
    proof {
        assert(ks.take(i as int) =~= ks);
    }
    r
}

/// Append the lines drawn for the branch recorded under `key` at `depth`,
/// with `path` the branches above it.
fn draw_keyed(
    stack: &Stack,
    sources: &StrMap<Vec<String>>,
    scope: &StrSet,
    key: &str,
    depth: usize,
    path: &mut Vec<String>,
    lines: &mut Vec<TreeLine>,
)
    requires
        stack.branches.wf(),
        sources.wf(),
        scope.wf(),
        children_acyclic(stack.branches@),
        stack.branches@.contains_key(key@),
        depth + child_rank(stack.branches@)(key@) < usize::MAX,
        path_recorded(stack.branches@, views(old(path)@)),
    ensures
        final(path)@ == old(path)@,
        line_views(final(lines)@) == line_views(old(lines)@) + tree_lines(
            stack.branches@,
            stack.branches.keys(),
            scope@,
            source_views(sources@),
            key@,
            depth as nat,
            views(old(path)@),
            child_rank(stack.branches@)(key@) + 1,
        ),
    decreases child_rank(stack.branches@)(key@), 1nat,
{
    let ghost bm = stack.branches@;
    let ghost rank = child_rank(bm);
    let ghost ks = stack.branches.keys();
    let ghost srcs = source_views(sources@);
    let ghost pv = views(path@);
    let ghost start = line_views(lines@);
    let ghost fuel = (rank(key@) + 1) as nat;
    if !scope.contains(key) {
        proof {
            assert(line_views(lines@) =~= start + Seq::<TreeLineView>::empty());
        }
        return;
    }
    if crate::navigate::is_shadow_branch(key) {
        draw_children(stack, sources, scope, key, depth, path, lines);
        return;
    }
    if path_has(path, key) {
        let line = TreeLine::Cycle { depth, name: key.to_owned() };
        lines.push(line);
        proof {
            assert(line_views(lines@) =~= start + seq![line@]);
        }
        return;
    }
    let br = stack.branches.get(key).unwrap();
    path.push(key.to_owned());
    let ghost p2 = views(path@);
    proof {
        assert(p2 =~= pv.push(key@));
        assert forall|i: int| 0 <= i < p2.len() implies bm.contains_key(#[trigger] p2[i]) by {
            if i < pv.len() {
                assert(p2[i] == pv[i]);
            }
        }
    }
    let own = TreeLine::Branch {
        depth,
        name: br.name.clone(),
        other_sources: extra_sources_of(sources, key),
        is_current: br.is_current,
        pr: match &br.pull_request {
            Some(p) => Some((p.state.clone(), p.number)),
            None => None,
        },
    };
    proof {
        assert(own@ == branch_line(bm[key@], srcs, key@, depth as nat));
    }
    lines.push(own);
    let ghost mid = line_views(lines@);
    proof {
        assert(mid =~= start + seq![branch_line(bm[key@], srcs, key@, depth as nat)]);
    }
    let cs = consumers_for(stack, sources, key);
    let ghost cv = views(cs@);
    let mut i: usize = 0;
    while i < cs.len()
        invariant
            stack.branches.wf(),
            sources.wf(),
            scope.wf(),
            bm == stack.branches@,
            srcs == source_views(sources@),
            views(path@) == p2,
            cv == views(cs@),
            i <= cv.len(),
            depth < usize::MAX,
            line_views(lines@) == mid + consumer_lines(bm, scope@, srcs, key@, (depth + 1) as nat, p2, cv.take(i as int)),
        decreases cv.len() - i,
    {
        let c = &cs[i];
        let ghost before = line_views(lines@);
        proof {
            assert(cv[i as int] == c@);
            assert(cv.take(i + 1).drop_last() =~= cv.take(i as int));
            assert(cv.take(i + 1).last() == c@);
        }
        if !path_has(path, c.as_str()) && scope.contains(c.as_str()) && stack.branches.contains_key(c.as_str()) {
            let line = TreeLine::Consumer {
                depth: depth + 1,
                name: c.clone(),
                other_sources: sources_except(sources, c.as_str(), key),
            };
            lines.push(line);
            proof {
                assert(line_views(lines@) =~= before.push(line@));
            }
        }
        i = i + 1;
    }
    proof {
        assert(cv.take(i as int) =~= cv);
    }
    let ghost with_consumers = line_views(lines@);
    draw_children(stack, sources, scope, key, depth + 1, path, lines);
    path.pop();
    proof {
        assert(path@ =~= old(path)@);
        assert(line_views(lines@) =~= start + tree_lines(bm, ks, scope@, srcs, key@, depth as nat, pv, fuel));
    }
}

/// Append the lines of the children of the branch recorded under `key`,
/// each at `depth`.
fn draw_children(
    stack: &Stack,
    sources: &StrMap<Vec<String>>,
    scope: &StrSet,
    key: &str,
    depth: usize,
    path: &mut Vec<String>,
    lines: &mut Vec<TreeLine>,
)
    requires
        stack.branches.wf(),
        sources.wf(),
        scope.wf(),
        children_acyclic(stack.branches@),
        stack.branches@.contains_key(key@),
        depth + child_rank(stack.branches@)(key@) <= usize::MAX,
        path_recorded(stack.branches@, views(old(path)@)),
    ensures
        final(path)@ == old(path)@,
        line_views(final(lines)@) == line_views(old(lines)@) + kid_lines(
            stack.branches@,
            stack.branches.keys(),
            scope@,
            source_views(sources@),
            stack.branches@[key@].children,
            depth as nat,
            views(old(path)@),
            child_rank(stack.branches@)(key@),
        ),
    decreases child_rank(stack.branches@)(key@), 0nat,
{
    let ghost bm = stack.branches@;
    let ghost rank = child_rank(bm);
    let ghost ks = stack.branches.keys();
    let ghost srcs = source_views(sources@);
    let ghost pv = views(path@);
    let ghost start = line_views(lines@);
    let ghost fuel = rank(key@);
    proof {
        assert(children_ranked(bm, rank));
    }
    let br = stack.branches.get(key).unwrap();
    let ghost kids = br@.children;
    proof {
        assert(kids == bm[key@].children);
    }
    let mut j: usize = 0;
    while j < br.children.len()
        invariant
            stack.branches.wf(),
            sources.wf(),
            scope.wf(),
            children_acyclic(bm),
            children_ranked(bm, rank),
            bm == stack.branches@,
            ks == stack.branches.keys(),
            rank == child_rank(bm),
            srcs == source_views(sources@),
            bm.contains_key(key@),
            br@ == bm[key@],
            kids == br@.children,
            fuel == rank(key@),
            depth + fuel <= usize::MAX,
            views(path@) == pv,
            path@ == old(path)@,
            path_recorded(bm, pv),
            j <= kids.len(),
            line_views(lines@) == start + kid_lines(bm, ks, scope@, srcs, kids.take(j as int), depth as nat, pv, fuel),
        decreases kids.len() - j,
    {
        let c = &br.children[j];
        proof {
            assert(kids[j as int] == c@);
            assert(kids.take(j + 1).drop_last() =~= kids.take(j as int));
            assert(kids.take(j + 1).last() == c@);
        }
        if stack.branches.contains_key(c.as_str()) {
            proof {
                assert(bm.contains_key(bm[key@].children[j as int]));
                assert(rank(c@) < rank(key@));
            }
            draw_keyed(stack, sources, scope, c.as_str(), depth, path, lines);
            proof {
                lemma_tree_fuel(bm, rank, ks, scope@, srcs, c@, depth as nat, pv, rank(c@) + 1, fuel);
            }
        } else {
            proof {
                lemma_unrecorded_empty(bm, ks, scope@, srcs, c@, depth as nat, pv, fuel);
            }
        }
        j = j + 1;
    }
    proof {
        assert(kids.take(j as int) =~= kids);
    }
}

/// The name a stack is drawn from: follow recorded parents up from `b`
/// until a branch without a parent, or a name without a record.
pub open spec fn root_up(bm: BranchModel, b: Seq<char>, fuel: nat) -> Seq<char>
    decreases fuel,
{
    if fuel == 0 || !bm.contains_key(b) {
        b
    } else {
        match bm[b].parent {
            Some(p) => root_up(bm, p, (fuel - 1) as nat),
            None => b,
        }
    }
}

/// The branches reached from the merge sources named by the records under
/// `keys`: each such source and its ancestors.
pub open spec fn source_ancestors(bm: BranchModel, srcs: SourceModel, keys: Seq<Seq<char>>) -> Set<Seq<char>> {
    Set::new(
        |x: Seq<char>|
            exists|u: int, s: Seq<char>|
                0 <= u < keys.len() && #[trigger] sources_of(srcs, keys[u]).contains(s) && #[trigger] ancestors(
                    bm,
                    s,
                ).contains(x),
    )
}

/// The branches drawn for the stack of `current`: that stack, and every
/// merge source of a diamond consumer in it, with the source's ancestors.
pub open spec fn tree_scope(bm: BranchModel, srcs: SourceModel, current: Seq<char>) -> Set<Seq<char>> {
    stack_names(bm, current) + Set::new(
        |x: Seq<char>|
            exists|k: Seq<char>, s: Seq<char>|
                stack_names(bm, current).contains(k) && #[trigger] sources_of(srcs, k).contains(s)
                    && #[trigger] ancestors(bm, s).contains(x),
    )
}

/// The tree of the stack of `current`, drawn from its root: the stack's
/// records in `bm`, stored in the order `ks`, with merge sources `srcs`.
pub open spec fn stack_tree(bm: BranchModel, ks: Seq<Seq<char>>, srcs: SourceModel, current: Seq<char>) -> Seq<
    TreeLineView,
> {
    tree_lines(
        bm,
        ks,
        tree_scope(bm, srcs, current),
        srcs,
        root_up(bm, current, bm.len()),
        0,
        Seq::empty(),
        bm.len() + 1,
    )
}

/// The name the stack of `name` is drawn from.
fn stack_root(stack: &Stack, name: &str) -> (r: String)
    requires
        stack.branches.wf(),
        parents_acyclic(stack.branches@),
    ensures
        r@ == root_up(stack.branches@, name@, stack.branches@.len()),
{
    let ghost bm = stack.branches@;
    let ghost rank = choose|rank: spec_fn(Seq<char>) -> nat| parents_ranked(bm, rank);
    let mut root: String = name.to_owned();
    let ghost mut steps: nat = 0;
    loop
        invariant_except_break
            bm.contains_key(root@) ==> rank(root@) + steps < bm.len(),
        invariant
            stack.branches.wf(),
            bm == stack.branches@,
            parents_ranked(bm, rank),
            steps <= bm.len(),
            root_up(bm, root@, (bm.len() - steps) as nat) == root_up(bm, name@, bm.len()),
        ensures
            root@ == root_up(bm, name@, bm.len()),
        decreases
            if bm.contains_key(root@) {
                rank(root@) + 1
            } else {
                0
            },
    {
        match stack.branches.get(root.as_str()) {
            Some(br) => match &br.parent {
                Some(p) => {
                    proof {
                        assert(bm.contains_key(root@));
                        if bm.contains_key(p@) {
                            assert(rank(p@) < rank(root@));
                        }
                    }
                    root = p.clone();
                    proof {
                        steps = steps + 1;
                    }
                },
                None => {
                    break ;
                },
            },
            None => {
                break ;
            },
        }
    }
    root
}

/// The branches drawn for the stack of the current branch.
fn scope_of(stack: &Stack, sources: &StrMap<Vec<String>>) -> (r: StrSet)
    requires
        stack.branches.wf(),
        sources.wf(),
        parents_acyclic(stack.branches@),
        children_recorded(stack.branches@),
        names_are_keys(stack.branches@),
    ensures
        r.wf(),
        r@ == tree_scope(stack.branches@, source_views(sources@), stack.current_branch@),
{
    let ghost bm = stack.branches@;
    let ghost cur = stack.current_branch@;
    let ghost srcs = source_views(sources@);
    let ghost sn = stack_names(bm, cur);
    let listed = stack.get_stack_for_branch(stack.current_branch.as_str());
    let ghost ks = choose|ks: Seq<Seq<char>>|
        #[trigger] stack_listing(bm, cur, ks) && ks.len() == listed@.len() && forall|i: int|
            0 <= i < ks.len() ==> #[trigger] listed@[i]@ == bm[ks[i]];
    proof {
        lemma_listing_names_stack(bm, cur, ks);
    }
    let mut r = StrSet::new();
    let mut i: usize = 0;
    while i < listed.len()
        invariant
            r.wf(),
            i <= listed@.len(),
            ks.len() == listed@.len(),
            names_are_keys(bm),
            forall|t: int| 0 <= t < ks.len() ==> bm.contains_key(#[trigger] ks[t]),
            forall|t: int| 0 <= t < ks.len() ==> #[trigger] listed@[t]@ == bm[ks[t]],
            r@ == Set::new(|x: Seq<char>| exists|t: int| 0 <= t < i && x == ks[t]),
        decreases listed@.len() - i,
    {
        r.insert(listed[i].name.clone());
        proof {
            assert(listed@[i as int]@ == bm[ks[i as int]]);
            assert(bm.contains_key(ks[i as int]));
            assert(r@ =~= Set::new(|x: Seq<char>| exists|t: int| 0 <= t < i + 1 && x == ks[t])) by {
                assert forall|x: Seq<char>| r@.contains(x) implies exists|t: int| 0 <= t < i + 1 && x == ks[t] by {
                    if x == ks[i as int] {
                    } else {
                        let t = choose|t: int| 0 <= t < i && x == ks[t];
                    }
                }
            }
        }
        i = i + 1;
    }
    proof {
        assert(r@ =~= sn) by {
            assert forall|x: Seq<char>| r@.contains(x) implies sn.contains(x) by {
                let t = choose|t: int| 0 <= t < ks.len() && x == ks[t];
            }
            assert forall|x: Seq<char>| sn.contains(x) implies r@.contains(x) by {
                let t = choose|t: int| 0 <= t < ks.len() && ks[t] == x;
            }
        }
        assert(source_ancestors(bm, srcs, ks.take(0)) =~= Set::<Seq<char>>::empty());
    }
    let mut i: usize = 0;
    while i < listed.len()
        invariant
            stack.branches.wf(),
            sources.wf(),
            bm == stack.branches@,
            srcs == source_views(sources@),
            parents_acyclic(bm),
            r.wf(),
            i <= listed@.len(),
            ks.len() == listed@.len(),
            names_are_keys(bm),
            forall|t: int| 0 <= t < ks.len() ==> bm.contains_key(#[trigger] ks[t]),
            forall|t: int| 0 <= t < ks.len() ==> #[trigger] listed@[t]@ == bm[ks[t]],
            r@ == sn + source_ancestors(bm, srcs, ks.take(i as int)),
        decreases listed@.len() - i,
    {
        let name = &listed[i].name;
        let ghost k = ks[i as int];
        proof {
            assert(listed@[i as int]@ == bm[k]);
            assert(bm.contains_key(k));
            assert(name@ == k);
        }
        let ghost before = r@;
        match sources.get(name.as_str()) {
            Some(ms) => {
                let ghost mv = views(ms@);
                proof {
                    assert(sources_of(srcs, k) == mv);
                }
                let mut j: usize = 0;
                while j < ms.len()
                    invariant
                        stack.branches.wf(),
                        bm == stack.branches@,
                        parents_acyclic(bm),
                        names_are_keys(bm),
                        r.wf(),
                        mv == views(ms@),
                        j <= mv.len(),
                        r@ == before + Set::new(
                            |x: Seq<char>| exists|u: int| 0 <= u < j && #[trigger] ancestors(bm, mv[u]).contains(x),
                        ),
                    decreases mv.len() - j,
                {
                    let chain = stack.ancestor_chain(ms[j].as_str());
                    let ghost a = ancestors(bm, mv[j as int]);
                    proof {
                        assert(ms@[j as int]@ == mv[j as int]);
                    }
                    let ghost mid = r@;
                    let mut t: usize = 0;
                    while t < chain.len()
                        invariant
                            bm == stack.branches@,
                            names_are_keys(bm),
                            r.wf(),
                            chain@.len() == a.len(),
                            forall|q: int| 0 <= q < chain@.len() ==> bm.contains_key(#[trigger] a[q]),
                            forall|q: int| 0 <= q < chain@.len() ==> #[trigger] chain@[q]@ == bm[a[q]],
                            t <= chain@.len(),
                            r@ == mid + a.take(t as int).to_set(),
                        decreases chain@.len() - t,
                    {
                        r.insert(chain[t].name.clone());
                        proof {
                            assert(chain@[t as int]@ == bm[a[t as int]]);
                            assert(bm.contains_key(a[t as int]));
                            assert(a.take(t + 1) =~= a.take(t as int).push(a[t as int]));
                            assert(a.take(t + 1).to_set() =~= a.take(t as int).to_set().insert(a[t as int])) by {
                                a.take(t as int).lemma_push_to_set_commute(a[t as int]);
                            }
                            assert(r@ =~= mid + a.take(t + 1).to_set());
                        }
                        t = t + 1;
                    }
                    proof {
                        assert(a.take(t as int) =~= a);
                        assert(r@ =~= before + Set::new(
                            |x: Seq<char>| exists|u: int| 0 <= u < j + 1 && #[trigger] ancestors(bm, mv[u]).contains(x),
                        )) by {
                            assert forall|x: Seq<char>| r@.contains(x) implies (before + Set::new(
                                |x: Seq<char>| exists|u: int| 0 <= u < j + 1 && #[trigger] ancestors(bm, mv[u]).contains(x),
                            )).contains(x) by {
                                if a.to_set().contains(x) {
                                    assert(ancestors(bm, mv[j as int]).contains(x));
                                }
                            }
                            assert forall|x: Seq<char>| (before + Set::new(
                                |x: Seq<char>| exists|u: int| 0 <= u < j + 1 && #[trigger] ancestors(bm, mv[u]).contains(x),
                            )).contains(x) implies r@.contains(x) by {
                                if !before.contains(x) {
                                    let u = choose|u: int| 0 <= u < j + 1 && #[trigger] ancestors(bm, mv[u]).contains(x);
                                    if u == j {
                                        assert(a.contains(x));
                                        assert(a.to_set().contains(x));
                                    }
                                }
                            }
                        }
                    }
                    j = j + 1;
                }
                proof {
                    assert(r@ =~= sn + source_ancestors(bm, srcs, ks.take(i + 1))) by {
                        assert forall|x: Seq<char>| r@.contains(x) implies (sn + source_ancestors(bm, srcs, ks.take(i + 1))).contains(x) by {
                            if !before.contains(x) {
                                let u = choose|u: int| 0 <= u < j && #[trigger] ancestors(bm, mv[u]).contains(x);
                                assert(ks.take(i + 1)[i as int] == k);
                                assert(sources_of(srcs, ks.take(i + 1)[i as int]).contains(mv[u]));
                            } else if !sn.contains(x) {
                                let (u, s) = choose|u: int, s: Seq<char>|
                                    0 <= u < ks.take(i as int).len() && #[trigger] sources_of(srcs, ks.take(i as int)[u]).contains(s)
                                        && #[trigger] ancestors(bm, s).contains(x);
                                assert(ks.take(i + 1)[u] == ks.take(i as int)[u]);
                            }
                        }
                        assert forall|x: Seq<char>| (sn + source_ancestors(bm, srcs, ks.take(i + 1))).contains(x) implies r@.contains(x) by {
                            if !sn.contains(x) {
                                let (u, s) = choose|u: int, s: Seq<char>|
                                    0 <= u < ks.take(i + 1).len() && #[trigger] sources_of(srcs, ks.take(i + 1)[u]).contains(s)
                                        && #[trigger] ancestors(bm, s).contains(x);
                                if u < i {
                                    assert(ks.take(i as int)[u] == ks.take(i + 1)[u]);
                                    assert(source_ancestors(bm, srcs, ks.take(i as int)).contains(x));
                                } else {
                                    assert(ks.take(i + 1)[u] == k);
                                    let w = choose|w: int| 0 <= w < mv.len() && mv[w] == s;
                                    assert(ancestors(bm, mv[w]).contains(x));
                                }
                            }
                        }
                    }
                }
            },
            None => {
                proof {
                    assert(sources_of(srcs, k) == Seq::<Seq<char>>::empty());
                    assert(r@ =~= sn + source_ancestors(bm, srcs, ks.take(i + 1))) by {
                        assert forall|x: Seq<char>| (sn + source_ancestors(bm, srcs, ks.take(i + 1))).contains(x) implies r@.contains(x) by {
                            if !sn.contains(x) {
                                let (u, s) = choose|u: int, s: Seq<char>|
                                    0 <= u < ks.take(i + 1).len() && #[trigger] sources_of(srcs, ks.take(i + 1)[u]).contains(s)
                                        && #[trigger] ancestors(bm, s).contains(x);
                                if u < i {
                                    assert(ks.take(i as int)[u] == ks.take(i + 1)[u]);
                                    assert(source_ancestors(bm, srcs, ks.take(i as int)).contains(x));
                                } else {
                                    assert(ks.take(i + 1)[u] == k);
                                }
                            }
                        }
                        assert forall|x: Seq<char>| r@.contains(x) implies (sn + source_ancestors(bm, srcs, ks.take(i + 1))).contains(x) by {
                            if !sn.contains(x) {
                                let (u, s) = choose|u: int, s: Seq<char>|
                                    0 <= u < ks.take(i as int).len() && #[trigger] sources_of(srcs, ks.take(i as int)[u]).contains(s)
                                        && #[trigger] ancestors(bm, s).contains(x);
                                assert(ks.take(i + 1)[u] == ks.take(i as int)[u]);
                            }
                        }
                    }
                }
            },
        }
        i = i + 1;
    }
    proof {
        assert(ks.take(i as int) =~= ks);
        assert(r@ =~= tree_scope(bm, srcs, cur)) by {
            assert forall|x: Seq<char>| r@.contains(x) implies tree_scope(bm, srcs, cur).contains(x) by {
                if !sn.contains(x) {
                    let (u, s) = choose|u: int, s: Seq<char>|
                        0 <= u < ks.len() && #[trigger] sources_of(srcs, ks[u]).contains(s)
                            && #[trigger] ancestors(bm, s).contains(x);
                    assert(sn.contains(ks[u]));
                }
            }
            assert forall|x: Seq<char>| tree_scope(bm, srcs, cur).contains(x) implies r@.contains(x) by {
                if !sn.contains(x) {
                    let (k, s) = choose|k: Seq<char>, s: Seq<char>|
                        sn.contains(k) && #[trigger] sources_of(srcs, k).contains(s) && #[trigger] ancestors(bm, s).contains(x);
                    let u = choose|u: int| 0 <= u < ks.len() && ks[u] == k;
                    assert(sources_of(srcs, ks[u]).contains(s));
                }
            }
        }
    }
    r
}

/// The lines of the tree of the current branch's stack, drawn from the
/// root of that stack: every branch of the stack with its merge sources
/// beyond the first (from `sources`), its checkout mark and its pull
/// request, the diamond consumers shown under their other sources, and
/// shadow branches left out with their children drawn in their place.
pub fn stack_tree_lines(stack: &Stack, sources: &StrMap<Vec<String>>) -> (r: Vec<TreeLine>)
    requires
        stack.branches.wf(),
        sources.wf(),
        parents_acyclic(stack.branches@),
        children_recorded(stack.branches@),
        children_consistent(stack.branches@),
        names_are_keys(stack.branches@),
    ensures
        line_views(r@) == stack_tree(
            stack.branches@,
            stack.branches.keys(),
            source_views(sources@),
            stack.current_branch@,
        ),
{
    let ghost bm = stack.branches@;
    let ghost ks = stack.branches.keys();
    let ghost srcs = source_views(sources@);
    proof {
        lemma_children_acyclic(bm);
        stack.branches.lemma_wf();
    }
    let ghost rank = child_rank(bm);
    let n = stack.branches.len();
    let scope = scope_of(stack, sources);
    let root = stack_root(stack, stack.current_branch.as_str());
    let mut lines: Vec<TreeLine> = Vec::new();
    let mut path: Vec<String> = Vec::new();
    proof {
        assert(views(path@) =~= Seq::<Seq<char>>::empty());
        assert(line_views(lines@) =~= Seq::<TreeLineView>::empty());
    }
    if stack.branches.contains_key(root.as_str()) {
        proof {
            assert(children_ranked(bm, rank));
            assert(rank(root@) < n);
        }
        draw_keyed(stack, sources, &scope, root.as_str(), 0, &mut path, &mut lines);
        proof {
            lemma_tree_fuel(bm, rank, ks, scope@, srcs, root@, 0, Seq::empty(), rank(root@) + 1, bm.len() + 1);
            assert(line_views(lines@) =~= stack_tree(bm, ks, srcs, stack.current_branch@));
        }
    } else {
        proof {
            lemma_unrecorded_empty(bm, ks, scope@, srcs, root@, 0, Seq::empty(), bm.len() + 1);
        }
    }
    lines
}

/// No branch line and no cycle line among `lines` names a shadow branch.
pub open spec fn shows_no_shadow(lines: Seq<TreeLineView>) -> bool {
    forall|i: int|
        0 <= i < lines.len() ==> match #[trigger] lines[i] {
            TreeLineView::Branch { name, .. } => !spec_is_shadow(name),
            TreeLineView::Cycle { name, .. } => !spec_is_shadow(name),
            TreeLineView::Consumer { .. } => true,
        }
}

proof fn lemma_shows_no_shadow_concat(a: Seq<TreeLineView>, b: Seq<TreeLineView>)
    requires
        shows_no_shadow(a),
        shows_no_shadow(b),
    ensures
        shows_no_shadow(a + b),
{
    assert forall|i: int| 0 <= i < (a + b).len() implies match #[trigger] (a + b)[i] {
        TreeLineView::Branch { name, .. } => !spec_is_shadow(name),
        TreeLineView::Cycle { name, .. } => !spec_is_shadow(name),
        TreeLineView::Consumer { .. } => true,
    } by {
        if i < a.len() {
            assert((a + b)[i] == a[i]);
        } else {
            assert((a + b)[i] == b[i - a.len()]);
        }
    }
}

proof fn lemma_consumer_lines_no_shadow(
    bm: BranchModel,
    scope: Set<Seq<char>>,
    srcs: SourceModel,
    b: Seq<char>,
    depth: nat,
    path: Seq<Seq<char>>,
    cs: Seq<Seq<char>>,
)
    ensures
        shows_no_shadow(consumer_lines(bm, scope, srcs, b, depth, path, cs)),
    decreases cs.len(),
{
    if cs.len() > 0 {
        lemma_consumer_lines_no_shadow(bm, scope, srcs, b, depth, path, cs.drop_last());
        let rest = consumer_lines(bm, scope, srcs, b, depth, path, cs.drop_last());
        let c = cs.last();
        if !path.contains(c) && scope.contains(c) && bm.contains_key(c) {
            let line = TreeLineView::Consumer {
                depth,
                name: c,
                other_sources: sources_of(srcs, c).filter(|x: Seq<char>| x != b),
            };
            assert(shows_no_shadow(seq![line]));
            lemma_shows_no_shadow_concat(rest, seq![line]);
            assert(rest.push(line) =~= rest + seq![line]);
        }
    }
}

proof fn lemma_tree_lines_no_shadow(
    bm: BranchModel,
    ks: Seq<Seq<char>>,
    scope: Set<Seq<char>>,
    srcs: SourceModel,
    b: Seq<char>,
    depth: nat,
    path: Seq<Seq<char>>,
    fuel: nat,
)
    requires
        names_are_keys(bm),
    ensures
        shows_no_shadow(tree_lines(bm, ks, scope, srcs, b, depth, path, fuel)),
    decreases fuel, 0nat,
{
    if fuel > 0 && scope.contains(b) {
        if spec_is_shadow(b) {
            if bm.contains_key(b) {
                lemma_kid_lines_no_shadow(bm, ks, scope, srcs, bm[b].children, depth, path, (fuel - 1) as nat);
            }
        } else if path.contains(b) {
            assert(shows_no_shadow(seq![TreeLineView::Cycle { depth, name: b }]));
        } else if bm.contains_key(b) {
            let p2 = path.push(b);
            let own = seq![branch_line(bm[b], srcs, b, depth)];
            assert(bm[b].name == b);
            assert(shows_no_shadow(own));
            lemma_consumer_lines_no_shadow(bm, scope, srcs, b, depth + 1, p2, consumers_of(bm, ks, srcs, b));
            lemma_kid_lines_no_shadow(bm, ks, scope, srcs, bm[b].children, depth + 1, p2, (fuel - 1) as nat);
            let cl = consumer_lines(bm, scope, srcs, b, depth + 1, p2, consumers_of(bm, ks, srcs, b));
            let kl = kid_lines(bm, ks, scope, srcs, bm[b].children, depth + 1, p2, (fuel - 1) as nat);
            lemma_shows_no_shadow_concat(own, cl);
            lemma_shows_no_shadow_concat(own + cl, kl);
        }
    }
}

proof fn lemma_kid_lines_no_shadow(
    bm: BranchModel,
    ks: Seq<Seq<char>>,
    scope: Set<Seq<char>>,
    srcs: SourceModel,
    kids: Seq<Seq<char>>,
    depth: nat,
    path: Seq<Seq<char>>,
    fuel: nat,
)
    requires
        names_are_keys(bm),
    ensures
        shows_no_shadow(kid_lines(bm, ks, scope, srcs, kids, depth, path, fuel)),
    decreases fuel, kids.len(),
{
    if kids.len() > 0 {
        lemma_kid_lines_no_shadow(bm, ks, scope, srcs, kids.drop_last(), depth, path, fuel);
        lemma_tree_lines_no_shadow(bm, ks, scope, srcs, kids.last(), depth, path, fuel);
        lemma_shows_no_shadow_concat(
            kid_lines(bm, ks, scope, srcs, kids.drop_last(), depth, path, fuel),
            tree_lines(bm, ks, scope, srcs, kids.last(), depth, path, fuel),
        );
    }
}

/// Shadow branches stay hidden in the drawn stack: no branch line and no

/// How the drawn tree marks the pull request of a branch.
#[derive(Debug, Clone, Copy, PartialEq, Eq, Structural)]
pub enum PrMark {
    Open,
    Draft,
    Closed,
    Merged,
    /// A pull request in a state the tool does not know.
    Other,
    /// The branch has no pull request.
    NoPr,
}

/// The mark for a pull request in `state`, or for none.
pub open spec fn mark_of_state(state: Option<Seq<char>>) -> PrMark {
    match state {
        None => PrMark::NoPr,
        Some(s) => if s == "open"@ {
            PrMark::Open
        } else if s == "draft"@ {
            PrMark::Draft
        } else if s == "closed"@ {
            PrMark::Closed
        } else if s == "merged"@ {
            PrMark::Merged
        } else {
            PrMark::Other
        },
    }
}

/// The mark for the pull request of a branch line, given as its state and
/// number.
pub fn pr_mark(pr: &Option<(String, u64)>) -> (r: PrMark)
    ensures
        r == mark_of_state(
            match pr {
                Some(p) => Some(p.0@),
                None => None,
            },
        ),
{
    match pr {
        None => PrMark::NoPr,
        Some((state, _)) => {
            if str_eq(state.as_str(), "open") {
                PrMark::Open
            } else if str_eq(state.as_str(), "draft") {
                PrMark::Draft
            } else if str_eq(state.as_str(), "closed") {
                PrMark::Closed
            } else if str_eq(state.as_str(), "merged") {
                PrMark::Merged
            } else {
                PrMark::Other
            }
        },
    }
}

/// The symbol drawn for a mark.
pub open spec fn mark_symbol(m: PrMark) -> Seq<char> {
    match m {
        PrMark::Open => "\u{25cf}"@,
        PrMark::Draft => "\u{25d0}"@,
        PrMark::Closed => "\u{25cb}"@,
        PrMark::Merged => "\u{2713}"@,
        PrMark::Other => "?"@,
        PrMark::NoPr => "\u{25cb}"@,
    }
}

impl PrMark {
    /// The symbol drawn for this mark.
    pub fn symbol(&self) -> (r: &'static str)
        ensures
            r@ == mark_symbol(*self),
    {
        match self {
            PrMark::Open => "\u{25cf}",
            PrMark::Draft => "\u{25d0}",
            PrMark::Closed => "\u{25cb}",
            PrMark::Merged => "\u{2713}",
            PrMark::Other => "?",
            PrMark::NoPr => "\u{25cb}",
        }
    }
}

/// cycle line of the tree names a shadow branch.
pub proof fn law_tree_hides_shadow_branches(
    bm: BranchModel,
    ks: Seq<Seq<char>>,
    srcs: SourceModel,
    current: Seq<char>,
)
    requires
        names_are_keys(bm),
    ensures
        shows_no_shadow(stack_tree(bm, ks, srcs, current)),
{
    lemma_tree_lines_no_shadow(
        bm,
        ks,
        tree_scope(bm, srcs, current),
        srcs,
        root_up(bm, current, bm.len()),
        0,
        Seq::empty(),
        bm.len() + 1,
    );
}

} // verus!
