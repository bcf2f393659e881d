//! The stack comment posted on every pull request of a stack: one line per
//! pull request, leaves first, children of a branch with several children
//! indented one level deeper, and a footer naming the base branch.
use vstd::prelude::*;
use crate::collections::StrMap;
use crate::github::{PullRequest, PullRequestView};
use crate::stack::{
    ancestors, chain_up, children_consistent, children_recorded, parents_acyclic, parents_ranked,
    stack_listing, walk_listing, BranchModel, Stack, StackBranch, StackBranchView,
};
use crate::navigate::spec_is_main;
use crate::text::{
    is_whitespace, join_strings, join_with, seq_contains_seq, str_contains, str_eq, to_uppercase,
    uppercase_of, views, whitespace,
};

verus! {

/// The marker that identifies a stack comment among a pull request's comments.
pub const STACK_COMMENT_MARKER: &'static str = "<!-- stax-stack-comment -->";

/// The icon for a pull request's state: merged, closed, draft, or open.
pub open spec fn spec_status_icon(pr: PullRequestView) -> Seq<char> {
    if pr.state == "merged"@ {
        "\u{1F7E3}"@
    } else if pr.state == "closed"@ {
        "\u{1F534}"@
    } else if pr.draft {
        "\u{26AB}"@
    } else {
        "\u{1F7E2}"@
    }
}

/// The decimal digit `d`.
pub open spec fn digit_text(d: nat) -> Seq<char> {
    if d == 0 {
        "0"@
    } else if d == 1 {
        "1"@
    } else if d == 2 {
        "2"@
    } else if d == 3 {
        "3"@
    } else if d == 4 {
        "4"@
    } else if d == 5 {
        "5"@
    } else if d == 6 {
        "6"@
    } else if d == 7 {
        "7"@
    } else if d == 8 {
        "8"@
    } else {
        "9"@
    }
}

/// `n` written in decimal, without leading zeros.
pub open spec fn decimal_text(n: nat) -> Seq<char>
    decreases n,
{
    if n < 10 {
        digit_text(n)
    } else {
        decimal_text(n / 10) + digit_text(n % 10)
    }
}

/// `depth` levels of indentation.
pub open spec fn indent_text(depth: nat) -> Seq<char>
    decreases depth,
{
    if depth == 0 {
        Seq::empty()
    } else {
        indent_text((depth - 1) as nat) + "&nbsp;&nbsp;"@
    }
}

/// The list line for a pull request: its icon, the branch name, the number
/// linking to the pull request, in bold with a pointer when it is the pull
/// request the comment is posted on.
pub open spec fn spec_stack_line(
    name: Seq<char>,
    pr: PullRequestView,
    depth: nat,
    is_current: bool,
) -> Seq<char> {
    let head = "- "@ + indent_text(depth) + spec_status_icon(pr) + " "@;
    let link = "`"@ + name + "` [#"@ + decimal_text(pr.number as nat) + "]("@ + pr.html_url + ")"@;
    if is_current {
        head + "**"@ + link + " \u{2190} this PR**"@
    } else {
        head + link
    }
}

/// The line of a branch, if it has a pull request.
pub open spec fn own_line(br: StackBranchView, depth: nat, current_pr: u64) -> Seq<Seq<char>> {
    match br.pull_request {
        Some(pr) => seq![spec_stack_line(br.name, pr, depth, pr.number == current_pr)],
        None => Seq::empty(),
    }
}

/// The names in `kids` that have a record, in order.
pub open spec fn present_children(bm: BranchModel, kids: Seq<Seq<char>>) -> Seq<Seq<char>>
    decreases kids.len(),
{
    if kids.len() == 0 {
        Seq::empty()
    } else {
        let rest = present_children(bm, kids.drop_last());
        if bm.contains_key(kids.last()) {
            rest.push(kids.last())
        } else {
            rest
        }
    }
}

/// The lines of `br` and its descendants, children before their parent,
/// descending at most `fuel` levels.
pub open spec fn subtree_lines(
    bm: BranchModel,
    br: StackBranchView,
    depth: nat,
    current_pr: u64,
    fuel: nat,
) -> Seq<Seq<char>>
    decreases fuel, 0nat,
{
    if fuel == 0 {
        Seq::empty()
    } else {
        let kids = present_children(bm, br.children);
        let child_depth = if kids.len() > 1 {
            depth + 1
        } else {
            depth
        };
        children_lines(bm, kids, child_depth, current_pr, (fuel - 1) as nat) + own_line(
            br,
            depth,
            current_pr,
        )
    }
}

/// The subtree lines of each recorded branch in `kids`, one after another.
pub open spec fn children_lines(
    bm: BranchModel,
    kids: Seq<Seq<char>>,
    depth: nat,
    current_pr: u64,
    fuel: nat,
) -> Seq<Seq<char>>
    decreases fuel, kids.len(),
{
    if kids.len() == 0 {
        Seq::empty()
    } else {
        children_lines(bm, kids.drop_last(), depth, current_pr, fuel) + subtree_lines(
            bm,
            bm[kids.last()],
            depth,
            current_pr,
            fuel,
        )
    }
}

/// `rank` falls from a branch to each of its recorded children and stays
/// below the number of branches.
pub open spec fn children_ranked(bm: BranchModel, rank: spec_fn(Seq<char>) -> nat) -> bool {
    forall|k: Seq<char>|
        #[trigger] bm.contains_key(k) ==> rank(k) < bm.len() && forall|i: int|
            0 <= i < bm[k].children.len() && bm.contains_key(#[trigger] bm[k].children[i])
                ==> rank(bm[k].children[i]) < rank(k)
}

/// Child links form no cycle.
pub open spec fn children_acyclic(bm: BranchModel) -> bool {
    exists|rank: spec_fn(Seq<char>) -> nat| children_ranked(bm, rank)
}

/// A ranking of the branches that falls along child links.
pub open spec fn child_rank(bm: BranchModel) -> spec_fn(Seq<char>) -> nat {
    choose|rank: spec_fn(Seq<char>) -> nat| children_ranked(bm, rank)
}

/// The lines of `br` and all its descendants.
pub open spec fn subtree_view(
    bm: BranchModel,
    br: StackBranchView,
    depth: nat,
    current_pr: u64,
) -> Seq<Seq<char>> {
    subtree_lines(bm, br, depth, current_pr, bm.len() + 1)
}

/// Where the parent links from `b` end: the last name reached, recorded or
/// not, following at most `fuel` links.
pub open spec fn base_up(bm: BranchModel, b: Seq<char>, fuel: nat) -> Seq<char>
    decreases fuel,
{
    if fuel == 0 || !bm.contains_key(b) {
        b
    } else {
        match bm[b].parent {
            Some(p) => base_up(bm, p, (fuel - 1) as nat),
            None => b,
        }
    }
}

/// The branch the stack of `b` merges into.
pub open spec fn stack_base(bm: BranchModel, b: Seq<char>) -> Seq<char> {
    base_up(bm, b, bm.len())
}

/// The lines of the ancestors listed in `names`, in that order, leaving
/// out any record named `current`.
pub open spec fn ancestor_lines(
    bm: BranchModel,
    names: Seq<Seq<char>>,
    current: Seq<char>,
    current_pr: u64,
) -> Seq<Seq<char>>
    decreases names.len(),
{
    if names.len() == 0 {
        Seq::empty()
    } else {
        let br = bm[names.last()];
        ancestor_lines(bm, names.drop_last(), current, current_pr) + if br.name == current {
            Seq::empty()
        } else {
            own_line(br, 0, current_pr)
        }
    }
}

/// `path` climbs recorded parents from its first branch to its last.
pub open spec fn upward_path(bm: BranchModel, path: Seq<Seq<char>>) -> bool {
    &&& path.len() >= 1
    &&& forall|i: int|
        0 <= i < path.len() - 1 ==> bm.contains_key(#[trigger] path[i]) && bm[path[i]].parent == Some(path[i + 1])
}

/// The parent chain ends at `b`: it has no record, or its record has no
/// parent.
pub open spec fn chain_end(bm: BranchModel, b: Seq<char>) -> bool {
    !bm.contains_key(b) || bm[b].parent is None
}

proof fn lemma_base_up_path(bm: BranchModel, rank: spec_fn(Seq<char>) -> nat, b: Seq<char>, fuel: nat)
    requires
        parents_ranked(bm, rank),
        bm.contains_key(b) ==> rank(b) < fuel,
    ensures
        chain_end(bm, base_up(bm, b, fuel)),
        exists|path: Seq<Seq<char>>|
            #[trigger] upward_path(bm, path) && path[0] == b && path.last() == base_up(bm, b, fuel),
    decreases fuel,
{
    if fuel == 0 || !bm.contains_key(b) {
        assert(upward_path(bm, seq![b]));
    } else {
        match bm[b].parent {
            Some(p) => {
                if bm.contains_key(p) {
                    assert(rank(p) < rank(b));
                }
                lemma_base_up_path(bm, rank, p, (fuel - 1) as nat);
                let rest = choose|path: Seq<Seq<char>>|
                    #[trigger] upward_path(bm, path) && path[0] == p && path.last() == base_up(bm, p, (fuel - 1) as nat);
                let path = seq![b] + rest;
                assert(upward_path(bm, path)) by {
                    assert forall|i: int| 0 <= i < path.len() - 1 implies bm.contains_key(#[trigger] path[i])
                        && bm[path[i]].parent == Some(path[i + 1]) by {
                        if i == 0 {
                            assert(path[1] == rest[0]);
                        } else {
                            assert(path[i] == rest[i - 1]);
                            assert(path[i + 1] == rest[i]);
                        }
                    }
                }
                assert(path.last() == rest.last());
            },
            None => {
                assert(upward_path(bm, seq![b]));
            },
        }
    }
}

/// The branch a stack merges into is reached from the branch by its
/// recorded parents, and the chain ends there: it has no record or no
/// parent.
pub proof fn law_stack_base_ends_chain(bm: BranchModel, b: Seq<char>)
    requires
        parents_acyclic(bm),
    ensures
        chain_end(bm, stack_base(bm, b)),
        exists|path: Seq<Seq<char>>|
            #[trigger] upward_path(bm, path) && path[0] == b && path.last() == stack_base(bm, b),
{
    let rank = choose|rank: spec_fn(Seq<char>) -> nat| parents_ranked(bm, rank);
    lemma_base_up_path(bm, rank, b, bm.len());
}

/// The lines of the stack comment for the stack's current branch, posted
/// on pull request `current_pr`.
pub open spec fn comment_lines(bm: BranchModel, current: Seq<char>, current_pr: u64) -> Seq<
    Seq<char>,
> {
    let body = if bm.contains_key(current) {
        subtree_view(bm, bm[current], 0, current_pr)
    } else {
        Seq::empty()
    };
    seq!["<!-- stax-stack-comment -->"@, "### Stack"@] + body + ancestor_lines(
        bm,
        ancestors(bm, current),
        current,
        current_pr,
    ) + seq![""@, "\u{2193} merges to `"@ + stack_base(bm, current) + "`"@]
}

proof fn lemma_present_children(bm: BranchModel, kids: Seq<Seq<char>>)
    ensures
        forall|i: int|
            0 <= i < present_children(bm, kids).len() ==> bm.contains_key(
                #[trigger] present_children(bm, kids)[i],
            ) && kids.contains(present_children(bm, kids)[i]),
    decreases kids.len(),
{
    if kids.len() > 0 {
        lemma_present_children(bm, kids.drop_last());
        let rest = present_children(bm, kids.drop_last());
        assert forall|i: int| 0 <= i < rest.len() implies kids.contains(#[trigger] rest[i]) by {
            let j = choose|j: int| 0 <= j < kids.drop_last().len() && kids.drop_last()[j] == rest[i];
            assert(kids[j] == rest[i]);
        }
        assert(kids[kids.len() - 1] == kids.last());
    }
}

proof fn lemma_subtree_fuel(
    bm: BranchModel,
    rank: spec_fn(Seq<char>) -> nat,
    k: Seq<char>,
    depth: nat,
    current_pr: u64,
    f1: nat,
    f2: nat,
)
    requires
        children_ranked(bm, rank),
        bm.contains_key(k),
        rank(k) < f1,
        rank(k) < f2,
    ensures
        subtree_lines(bm, bm[k], depth, current_pr, f1) == subtree_lines(
            bm,
            bm[k],
            depth,
            current_pr,
            f2,
        ),
    decreases f1, 0nat,
{
    let br = bm[k];
    let kids = present_children(bm, br.children);
    let cd = if kids.len() > 1 {
        depth + 1
    } else {
        depth
    };
    lemma_present_children(bm, br.children);
    assert forall|i: int| 0 <= i < kids.len() implies bm.contains_key(#[trigger] kids[i]) && rank(
        kids[i],
    ) < (f1 - 1) as nat && rank(kids[i]) < (f2 - 1) as nat by {
        assert(br.children.contains(kids[i]));
        let j = choose|j: int| 0 <= j < br.children.len() && br.children[j] == kids[i];
        assert(bm.contains_key(bm[k].children[j]));
    }
    lemma_children_fuel(bm, rank, kids, cd, current_pr, (f1 - 1) as nat, (f2 - 1) as nat);
}

proof fn lemma_children_fuel(
    bm: BranchModel,
    rank: spec_fn(Seq<char>) -> nat,
    kids: Seq<Seq<char>>,
    depth: nat,
    current_pr: u64,
    f1: nat,
    f2: nat,
)
    requires
        children_ranked(bm, rank),
        forall|i: int|
            0 <= i < kids.len() ==> bm.contains_key(#[trigger] kids[i]) && rank(kids[i]) < f1
                && rank(kids[i]) < f2,
    ensures
        children_lines(bm, kids, depth, current_pr, f1) == children_lines(
            bm,
            kids,
            depth,
            current_pr,
            f2,
        ),
    decreases f1, kids.len(),
{
    if kids.len() > 0 {
        let init = kids.drop_last();
        assert forall|i: int| 0 <= i < init.len() implies bm.contains_key(#[trigger] init[i])
            && rank(init[i]) < f1 && rank(init[i]) < f2 by {
            assert(init[i] == kids[i]);
        }
        lemma_children_fuel(bm, rank, init, depth, current_pr, f1, f2);
        assert(kids[kids.len() - 1] == kids.last());
        lemma_subtree_fuel(bm, rank, kids.last(), depth, current_pr, f1, f2);
    }
}

/// The icon for the state of `pr`.
pub fn status_icon(pr: &PullRequest) -> (r: &'static str)
    ensures
        r@ == spec_status_icon(pr@),
{
    if str_eq(pr.state.as_str(), "merged") {
        "\u{1F7E3}"
    } else if str_eq(pr.state.as_str(), "closed") {
        "\u{1F534}"
    } else if pr.draft {
        "\u{26AB}"
    } else {
        "\u{1F7E2}"
    }
}

fn digit(d: u64) -> (r: &'static str)
    requires
        d < 10,
    ensures
        r@ == digit_text(d as nat),
{
    if d == 0 {
        "0"
    } else if d == 1 {
        "1"
    } else if d == 2 {
        "2"
    } else if d == 3 {
        "3"
    } else if d == 4 {
        "4"
    } else if d == 5 {
        "5"
    } else if d == 6 {
        "6"
    } else if d == 7 {
        "7"
    } else if d == 8 {
        "8"
    } else {
        "9"
    }
}

/// `n` in decimal.
pub fn decimal(n: u64) -> (r: String)
    ensures
        r@ == decimal_text(n as nat),
    decreases n,
{
    if n < 10 {
        digit(n).to_owned()
    } else {
        decimal(n / 10).concat(digit(n % 10))
    }
}

/// The list line for `pr` on branch `branch_name`, indented `depth`
/// levels, in bold when it is the pull request the comment goes on.
pub fn format_stack_line(branch_name: &str, pr: &PullRequest, depth: usize, is_current: bool) -> (r:
    String)
    ensures
        r@ == spec_stack_line(branch_name@, pr@, depth as nat, is_current),
{
    let mut indent = String::new();
    let mut i: usize = 0;
    while i < depth
        invariant
            i <= depth,
            indent@ == indent_text(i as nat),
        decreases depth - i,
    {
        indent.append("&nbsp;&nbsp;");
        i = i + 1;
    }
    let icon = status_icon(pr);
    let head = "- ".to_owned().concat(indent.as_str()).concat(icon).concat(" ");
    let link = "`".to_owned().concat(branch_name).concat("` [#").concat(
        decimal(pr.number).as_str(),
    ).concat("](").concat(pr.html_url.as_str()).concat(")");
    if is_current {
        head.concat("**").concat(link.as_str()).concat(" \u{2190} this PR**")
    } else {
        head.concat(link.as_str())
    }
}

/// The characters of each borrowed string.
pub open spec fn views_of(s: Seq<&String>) -> Seq<Seq<char>> {
    s.map_values(|x: &String| x@)
}

/// The recorded children of `branch`, in order.
fn recorded_children<'a>(stack: &Stack, branch: &'a StackBranch) -> (r: Vec<&'a String>)
    requires
        stack.branches.wf(),
    ensures
        views_of(r@) == present_children(stack.branches@, branch@.children),
{
    let ghost bm = stack.branches@;
    let mut kids: Vec<&String> = Vec::new();
    let mut i: usize = 0;
    while i < branch.children.len()
        invariant
            stack.branches.wf(),
            bm == stack.branches@,
            i <= branch.children@.len(),
            views_of(kids@) == present_children(bm, views(branch.children@).take(i as int)),
        decreases branch.children@.len() - i,
    {
        let name = &branch.children[i];
        proof {
            assert(views(branch.children@).take(i + 1).drop_last() =~= views(
                branch.children@,
            ).take(i as int));
            assert(views(branch.children@).take(i + 1).last() == name@);
        }
        let ghost before = views_of(kids@);
        if stack.branches.contains_key(name.as_str()) {
            kids.push(name);
            proof {
                assert(views_of(kids@) =~= before.push(name@));
            }
        }
        i = i + 1;
    }
    proof {
        assert(views(branch.children@).take(i as int) =~= views(branch.children@));
    }
    kids
}


/// Append the lines of the branch recorded under `key` and of its
/// descendants.
fn render_keyed(stack: &Stack, key: &str, depth: usize, current_pr_number: u64, lines: &mut Vec<String>)
    requires
        stack.branches.wf(),
        children_acyclic(stack.branches@),
        stack.branches@.contains_key(key@),
        depth + child_rank(stack.branches@)(key@) < usize::MAX,
    ensures
        views(final(lines)@) == views(old(lines)@) + subtree_lines(
            stack.branches@,
            stack.branches@[key@],
            depth as nat,
            current_pr_number,
            child_rank(stack.branches@)(key@) + 1,
        ),
    decreases child_rank(stack.branches@)(key@),
{
    let ghost bm = stack.branches@;
    let ghost rank = child_rank(bm);
    let branch = stack.branches.get(key).unwrap();
    let kids = recorded_children(stack, branch);
    let ghost kv = views_of(kids@);
    proof {
        lemma_present_children(bm, branch@.children);
        assert forall|j: int| 0 <= j < kv.len() implies bm.contains_key(#[trigger] kv[j])
            && rank(kv[j]) < rank(key@) by {
            assert(branch@.children.contains(kv[j]));
            let t = choose|t: int| 0 <= t < branch@.children.len() && branch@.children[t] == kv[j];
            assert(bm.contains_key(bm[key@].children[t]));
        }
    }
    let child_depth = if kids.len() > 1 {
        depth + 1
    } else {
        depth
    };
    let ghost start = views(lines@);
    let mut j: usize = 0;
    while j < kids.len()
        invariant
            stack.branches.wf(),
            bm == stack.branches@,
            children_acyclic(bm),
            rank == child_rank(bm),
            children_ranked(bm, rank),
            kv == views_of(kids@),
            j <= kids@.len(),
            forall|t: int| 0 <= t < kv.len() ==> bm.contains_key(#[trigger] kv[t]) && rank(kv[t]) < rank(key@),
            child_depth + rank(key@) <= usize::MAX,
            views(lines@) == start + children_lines(bm, kv.take(j as int), child_depth as nat, current_pr_number, rank(key@)),
        decreases kids@.len() - j,
    {
        let ghost before = views(lines@);
        proof {
            assert(kv[j as int] == kids@[j as int]@);
            assert(child_depth + rank(kv[j as int]) < usize::MAX);
        }
        render_keyed(stack, kids[j].as_str(), child_depth, current_pr_number, lines);
        proof {
            let c = kv[j as int];
            lemma_subtree_fuel(bm, rank, c, child_depth as nat, current_pr_number, rank(c) + 1, rank(key@));
            assert(kv.take(j + 1).drop_last() =~= kv.take(j as int));
            assert(kv.take(j + 1).last() == c);
        }
        j = j + 1;
    }
    proof {
        assert(kv.take(j as int) =~= kv);
    }
    match &branch.pull_request {
        Some(pr) => {
            let line = format_stack_line(branch.name.as_str(), pr, depth, pr.number == current_pr_number);
            let ghost before = views(lines@);
            lines.push(line);
            proof {
                assert(views(lines@) =~= before.push(line@));
            }
        },
        None => {},
    }
    proof {
        let f = rank(key@) + 1;
        assert(views(lines@) =~= views(old(lines)@) + subtree_lines(bm, bm[key@], depth as nat, current_pr_number, f));
    }
}

/// Append the lines of `branch` and its descendants: children before
/// their parent, the children of a branch with several children one
/// level deeper.
pub fn render_subtree(
    stack: &Stack,
    branch: &StackBranch,
    depth: usize,
    current_pr_number: u64,
    lines: &mut Vec<String>,
)
    requires
        stack.branches.wf(),
        children_acyclic(stack.branches@),
        depth + stack.branches@.len() < usize::MAX,
    ensures
        views(final(lines)@) == views(old(lines)@) + subtree_view(
            stack.branches@,
            branch@,
            depth as nat,
            current_pr_number,
        ),
{
    let ghost bm = stack.branches@;
    let ghost rank = child_rank(bm);
    let ghost fuel = (bm.len() + 1) as nat;
    let kids = recorded_children(stack, branch);
    let ghost kv = views_of(kids@);
    proof {
        lemma_present_children(bm, branch@.children);
        assert forall|j: int| 0 <= j < kv.len() implies bm.contains_key(#[trigger] kv[j])
            && rank(kv[j]) < bm.len() by {
        }
    }
    let child_depth = if kids.len() > 1 {
        depth + 1
    } else {
        depth
    };
    let ghost start = views(lines@);
    let mut j: usize = 0;
    while j < kids.len()
        invariant
            stack.branches.wf(),
            bm == stack.branches@,
            children_acyclic(bm),
            rank == child_rank(bm),
            children_ranked(bm, rank),
            kv == views_of(kids@),
            fuel == bm.len() + 1,
            j <= kids@.len(),
            forall|t: int| 0 <= t < kv.len() ==> bm.contains_key(#[trigger] kv[t]) && rank(kv[t]) < bm.len(),
            child_depth + bm.len() <= usize::MAX,
            views(lines@) == start + children_lines(bm, kv.take(j as int), child_depth as nat, current_pr_number, (fuel - 1) as nat),
        decreases kids@.len() - j,
    {
        proof {
            assert(kv[j as int] == kids@[j as int]@);
        }
        render_keyed(stack, kids[j].as_str(), child_depth, current_pr_number, lines);
        proof {
            let c = kv[j as int];
            lemma_subtree_fuel(bm, rank, c, child_depth as nat, current_pr_number, rank(c) + 1, (fuel - 1) as nat);
            assert(kv.take(j + 1).drop_last() =~= kv.take(j as int));
            assert(kv.take(j + 1).last() == c);
        }
        j = j + 1;
    }
    proof {
        assert(kv.take(j as int) =~= kv);
    }
    match &branch.pull_request {
        Some(pr) => {
            let line = format_stack_line(branch.name.as_str(), pr, depth, pr.number == current_pr_number);
            let ghost before = views(lines@);
            lines.push(line);
            proof {
                assert(views(lines@) =~= before.push(line@));
            }
        },
        None => {},
    }
    proof {
        assert(views(lines@) =~= views(old(lines)@) + subtree_lines(bm, branch@, depth as nat, current_pr_number, fuel));
    }
}


/// The stack comment for the stack's current branch, posted on pull
/// request `current_pr_number`: the marker, a heading, the lines of the
/// current branch's subtree, then those of its ancestors up to the base,
/// and a footer naming the base branch.
pub fn render_stack_comment(stack: &Stack, current_pr_number: u64) -> (r: String)
    requires
        stack.branches.wf(),
        parents_acyclic(stack.branches@),
        children_acyclic(stack.branches@),
        stack.branches@.len() < usize::MAX,
    ensures
        r@ == join_with(comment_lines(stack.branches@, stack.current_branch@, current_pr_number), "\n"@),
        exists|path: Seq<Seq<char>>|
            #[trigger] upward_path(stack.branches@, path) && path[0] == stack.current_branch@ && chain_end(
                stack.branches@,
                path.last(),
            ) && comment_lines(stack.branches@, stack.current_branch@, current_pr_number).last() == "\u{2193} merges to `"@
                + path.last() + "`"@,
{
    proof {
        law_stack_base_ends_chain(stack.branches@, stack.current_branch@);
    }
    let ghost bm = stack.branches@;
    let ghost cb = stack.current_branch@;
    let ghost prank = choose|rank: spec_fn(Seq<char>) -> nat| parents_ranked(bm, rank);
    proof {
        stack.branches.lemma_wf();
    }
    let current_branch = stack.current_branch.as_str();

    // Walk up to the base of the stack.
    let mut root: &str = current_branch;
    let ghost mut steps: nat = 0;
    loop
        invariant_except_break
            bm.contains_key(root@) ==> prank(root@) + steps < bm.len(),
        invariant
            bm == stack.branches@,
            stack.branches.wf(),
            parents_ranked(bm, prank),
            steps <= bm.len(),
            base_up(bm, root@, (bm.len() - steps) as nat) == stack_base(bm, cb),
        ensures
            root@ == stack_base(bm, cb),
        decreases
            if bm.contains_key(root@) {
                prank(root@) + 1
            } else {
                0
            },
    {
        match stack.branches.get(root) {
            Some(branch) => {
                match &branch.parent {
                    Some(parent) => {
                        proof {
                            if bm.contains_key(parent@) {
                                assert(prank(parent@) < prank(root@));
                            }
                            steps = steps + 1;
                        }
                        root = parent.as_str();
                    },
                    None => {
                        break ;
                    },
                }
            },
            None => {
                break ;
            },
        }
    }
    let base_branch = root;

    let ancestors_up = stack.ancestor_chain(current_branch);
    let ghost anc = ancestors(bm, cb);

    let mut body_lines: Vec<String> = Vec::new();
    match stack.branches.get(current_branch) {
        Some(branch) => {
            render_subtree(stack, branch, 0, current_pr_number, &mut body_lines);
        },
        None => {},
    }
    let ghost body0 = views(body_lines@);
    proof {
        assert(body0 == (if bm.contains_key(cb) {
            subtree_view(bm, bm[cb], 0, current_pr_number)
        } else {
            Seq::empty()
        }));
    }
    let mut i: usize = 0;
    while i < ancestors_up.len()
        invariant
            ancestors_up@.len() == anc.len(),
            forall|t: int| 0 <= t < anc.len() ==> #[trigger] ancestors_up@[t]@ == bm[anc[t]],
            i <= anc.len(),
            views(body_lines@) == body0 + ancestor_lines(bm, anc.take(i as int), cb, current_pr_number),
            current_branch@ == cb,
        decreases anc.len() - i,
    {
        let ancestor = ancestors_up[i];
        let ghost before = views(body_lines@);
        proof {
            assert(ancestor@ == bm[anc[i as int]]);
            assert(anc.take(i + 1).drop_last() =~= anc.take(i as int));
            assert(anc.take(i + 1).last() == anc[i as int]);
        }
        let skip = str_eq(ancestor.name.as_str(), current_branch) || (str_eq(
            ancestor.name.as_str(),
            base_branch,
        ) && ancestor.pull_request.is_none());
        if !skip {
            match &ancestor.pull_request {
                Some(pr) => {
                    let line = format_stack_line(ancestor.name.as_str(), pr, 0, pr.number == current_pr_number);
                    body_lines.push(line);
                    proof {
                        assert(views(body_lines@) =~= before.push(line@));
                    }
                },
                None => {},
            }
        }
        proof {
            assert(views(body_lines@) =~= body0 + ancestor_lines(bm, anc.take(i + 1), cb, current_pr_number));
        }
        i = i + 1;
    }
    proof {
        assert(anc.take(i as int) =~= anc);
    }

    let mut result: Vec<String> = Vec::new();
    result.push(STACK_COMMENT_MARKER.to_owned());
    result.push("### Stack".to_owned());
    let ghost head = views(result@);
    let mut j: usize = 0;
    while j < body_lines.len()
        invariant
            j <= body_lines@.len(),
            views(result@) == head + views(body_lines@).take(j as int),
        decreases body_lines@.len() - j,
    {
        let ghost before = views(result@);
        result.push(body_lines[j].clone());
        proof {
            assert(views(result@) =~= before.push(body_lines@[j as int]@));
            assert(views(body_lines@).take(j + 1) =~= views(body_lines@).take(j as int).push(body_lines@[j as int]@));
        }
        j = j + 1;
    }
    proof {
        assert(views(body_lines@).take(j as int) =~= views(body_lines@));
    }
    let ghost mid = views(result@);
    result.push(String::new());
    let footer = "\u{2193} merges to `".to_owned().concat(base_branch).concat("`");
    result.push(footer);
    proof {
        assert(views(result@) =~= mid + seq![Seq::<char>::empty(), footer@]);
        assert(""@ =~= Seq::<char>::empty()) by {
            reveal_strlit("");
        }
        assert(views(result@) =~= comment_lines(bm, cb, current_pr_number));
    }
    join_strings(&result, "\n")
}

proof fn lemma_join_starts_with_first(parts: Seq<Seq<char>>, sep: Seq<char>)
    requires
        parts.len() >= 1,
    ensures
        parts[0].len() <= join_with(parts, sep).len(),
        join_with(parts, sep).subrange(0, parts[0].len() as int) == parts[0],
    decreases parts.len(),
{
    if parts.len() > 1 {
        lemma_join_starts_with_first(parts.drop_last(), sep);
        let j = join_with(parts.drop_last(), sep);
        assert(join_with(parts, sep) == j + sep + parts.last());
        assert((j + sep + parts.last()).subrange(0, parts[0].len() as int) =~= j.subrange(0, parts[0].len() as int));
    }
}

/// Every stack comment starts with the marker that identifies it among a
/// pull request's comments.
pub proof fn law_comment_starts_with_marker(bm: BranchModel, current: Seq<char>, current_pr: u64)
    ensures
        crate::text::seq_starts_with(
            join_with(comment_lines(bm, current, current_pr), "\n"@),
            "<!-- stax-stack-comment -->"@,
        ),
{
    let lines = comment_lines(bm, current, current_pr);
    assert(lines[0] == "<!-- stax-stack-comment -->"@);
    lemma_join_starts_with_first(lines, "\n"@);
}

/// A posted stack comment is found again by its marker: the comment
/// rendered for any stack holds the marker that `stack_comment_id` looks
/// for.
pub proof fn law_comment_found_by_marker(bm: BranchModel, current: Seq<char>, current_pr: u64)
    ensures
        seq_contains_seq(join_with(comment_lines(bm, current, current_pr), "\n"@), STACK_COMMENT_MARKER@),
{
    law_comment_starts_with_marker(bm, current, current_pr);
    let text = join_with(comment_lines(bm, current, current_pr), "\n"@);
    assert(STACK_COMMENT_MARKER@ == "<!-- stax-stack-comment -->"@);
    assert(crate::text::occurs_at(text, STACK_COMMENT_MARKER@, 0));
}

/// A character that separates the words of a branch name: a dash, an
/// underscore (both read as spaces), or whitespace.
pub open spec fn separator(c: char) -> bool {
    c == '-' || c == '_' || whitespace(c)
}

/// The finished words of `s` and the word still being read.
pub open spec fn split_words(s: Seq<char>) -> (Seq<Seq<char>>, Seq<char>)
    decreases s.len(),
{
    if s.len() == 0 {
        (Seq::empty(), Seq::empty())
    } else {
        let (ws, cur) = split_words(s.drop_last());
        if separator(s.last()) {
            if cur.len() > 0 {
                (ws.push(cur), Seq::empty())
            } else {
                (ws, Seq::empty())
            }
        } else {
            (ws, cur.push(s.last()))
        }
    }
}

/// The words of `s`: its maximal runs of non-separators.
pub open spec fn words_of(s: Seq<char>) -> Seq<Seq<char>> {
    let (ws, cur) = split_words(s);
    if cur.len() > 0 {
        ws.push(cur)
    } else {
        ws
    }
}

/// A word with its first character in uppercase.
pub open spec fn capitalized(w: Seq<char>) -> Seq<char> {
    uppercase_of(w[0]) + w.skip(1)
}

/// The title a pull request gets from its branch name: the words of the
/// name, each capitalized, separated by single spaces.
pub open spec fn title_from_name(name: Seq<char>) -> Seq<char> {
    join_with(words_of(name).map_values(|w: Seq<char>| capitalized(w)), " "@)
}

fn is_separator(c: char) -> (r: bool)
    ensures
        r == separator(c),
{
    c == '-' || c == '_' || is_whitespace(c)
}

/// The word of `s` from `start` up to `end`, capitalized.
fn capitalized_word(s: &str, start: usize, end: usize) -> (r: String)
    requires
        start < end <= s@.len(),
    ensures
        r@ == capitalized(s@.subrange(start as int, end as int)),
{
    let head = to_uppercase(s.get_char(start));
    let rest = s.substring_char(start + 1, end);
    proof {
        assert(s@.subrange(start as int, end as int).skip(1) =~= s@.subrange(start + 1, end as int));
    }
    head.concat(rest)
}

/// The default title of a pull request for a branch with this name.
pub fn default_pr_title(branch_name: &str) -> (r: String)
    ensures
        r@ == title_from_name(branch_name@),
{
    let ghost s = branch_name@;
    let n = branch_name.unicode_len();
    let mut words: Vec<String> = Vec::new();
    let mut start: usize = 0;
    let mut in_word = false;
    let mut i: usize = 0;
    proof {
        assert(s.take(0) =~= Seq::<char>::empty());
        assert(views(words@) =~= split_words(s.take(0)).0.map_values(|w: Seq<char>| capitalized(w)));
    }
    while i < n
        invariant
            n == s.len(),
            s == branch_name@,
            i <= n,
            views(words@) == split_words(s.take(i as int)).0.map_values(|w: Seq<char>| capitalized(w)),
            in_word ==> start < i && split_words(s.take(i as int)).1 == s.subrange(start as int, i as int),
            !in_word ==> split_words(s.take(i as int)).1.len() == 0,
        decreases n - i,
    {
        let c = branch_name.get_char(i);
        let ghost pre = s.take(i as int);
        let ghost post = s.take(i + 1);
        proof {
            assert(post.drop_last() =~= pre);
            assert(post.last() == c);
        }
        let ghost before = views(words@);
        if is_separator(c) {
            if in_word {
                let w = capitalized_word(branch_name, start, i);
                words.push(w);
                in_word = false;
                proof {
                    assert(views(words@) =~= before.push(w@));
                    assert(split_words(post).0 == split_words(pre).0.push(split_words(pre).1));
                    assert(split_words(post).0.map_values(|w: Seq<char>| capitalized(w)) =~= split_words(pre).0.map_values(
                        |w: Seq<char>| capitalized(w),
                    ).push(capitalized(split_words(pre).1)));
                }
            }
        } else {
            if !in_word {
                start = i;
                in_word = true;
            }
            proof {
                assert(split_words(post).1 == split_words(pre).1.push(c));
                assert(split_words(post).1 =~= s.subrange(start as int, i + 1));
            }
        }
        i = i + 1;
    }
    proof {
        assert(s.take(n as int) =~= s);
    }
    if in_word {
        let ghost before = views(words@);
        let w = capitalized_word(branch_name, start, n);
        words.push(w);
        proof {
            assert(views(words@) =~= before.push(w@));
            assert(words_of(s).map_values(|w: Seq<char>| capitalized(w)) =~= split_words(s).0.map_values(
                |w: Seq<char>| capitalized(w),
            ).push(capitalized(split_words(s).1)));
        }
    }
    join_strings(&words, " ")
}

/// How to get a branch onto the remote before its pull request is made.
#[derive(Debug, PartialEq, Eq)]
pub enum PushAction {
    /// It diverged from its remote copy: push it with force.
    ForcePush,
    /// It is missing on the remote and pushing is automatic: push it.
    Push,
    /// It is missing on the remote: ask before pushing it.
    AskThenPush,
    /// The remote copy is up to date.
    Nothing,
}

/// How to push a branch, given whether it diverged from the remote, whether
/// the remote has it, and whether pushing is automatic.
pub fn push_action(diverged: bool, on_remote: bool, auto_push: bool) -> (r: PushAction)
    ensures
        r == if diverged {
            PushAction::ForcePush
        } else if !on_remote {
            if auto_push {
                PushAction::Push
            } else {
                PushAction::AskThenPush
            }
        } else {
            PushAction::Nothing
        },
{
    if diverged {
        PushAction::ForcePush
    } else if !on_remote {
        if auto_push {
            PushAction::Push
        } else {
            PushAction::AskThenPush
        }
    } else {
        PushAction::Nothing
    }
}

/// The base a new pull request asks for: the branch's parent, or the
/// default base when it has none.
pub fn detected_base(branch: &StackBranch, default_base: &str) -> (r: String)
    ensures
        r@ == match branch@.parent {
            Some(p) => p,
            None => default_base@,
        },
{
    match &branch.parent {
        Some(p) => p.clone(),
        None => default_base.to_owned(),
    }
}

/// The base a new pull request gets: the detected base when the remote
/// has it, the default base otherwise.
pub fn pr_base_branch(detected: &str, default_base: &str, detected_on_remote: bool) -> (r: String)
    ensures
        r@ == if detected_on_remote {
            detected@
        } else {
            default_base@
        },
{
    if detected_on_remote {
        detected.to_owned()
    } else {
        default_base.to_owned()
    }
}

/// The ancestors of `cur`, nearest first, that need a pull request before
/// `cur` gets one: recorded, not main branches, and without a pull request.
pub open spec fn missing_pr_up(bm: BranchModel, cur: Seq<char>, fuel: nat) -> Seq<Seq<char>>
    decreases fuel,
{
    if fuel == 0 || !bm.contains_key(cur) {
        Seq::empty()
    } else {
        match bm[cur].parent {
            None => Seq::empty(),
            Some(p) => (if !spec_is_main(p) && bm.contains_key(p) && bm[p].pull_request is None {
                seq![p]
            } else {
                Seq::empty()
            }) + missing_pr_up(bm, p, (fuel - 1) as nat),
        }
    }
}

/// The ancestors of the current branch that have no pull request yet,
/// farthest first, so that each gets its pull request before its children.
pub fn ancestors_without_prs(stack: &Stack) -> (r: Vec<String>)
    requires
        stack.branches.wf(),
        parents_acyclic(stack.branches@),
    ensures
        views(r@) == missing_pr_up(stack.branches@, stack.current_branch@, stack.branches@.len()).reverse(),
{
    let ghost bm = stack.branches@;
    let ghost rank = choose|rank: spec_fn(Seq<char>) -> nat| parents_ranked(bm, rank);
    proof {
        stack.branches.lemma_wf();
    }
    let mut found: Vec<String> = Vec::new();
    let mut cur: &str = stack.current_branch.as_str();
    let ghost mut steps: nat = 0;
    loop
        invariant_except_break
            bm.contains_key(cur@) ==> rank(cur@) + steps < bm.len(),
        invariant
            bm == stack.branches@,
            stack.branches.wf(),
            parents_ranked(bm, rank),
            steps <= bm.len(),
            views(found@) + missing_pr_up(bm, cur@, (bm.len() - steps) as nat) == missing_pr_up(
                bm,
                stack.current_branch@,
                bm.len(),
            ),
        ensures
            views(found@) == missing_pr_up(bm, stack.current_branch@, bm.len()),
        decreases
            if bm.contains_key(cur@) {
                rank(cur@) + 1
            } else {
                0
            },
    {
        let ghost f = (bm.len() - steps) as nat;
        match stack.branches.get(cur) {
            Some(branch) => {
                match &branch.parent {
                    Some(parent) => {
                        let ghost before = views(found@);
                        let wanted = if crate::navigate::is_main_branch(parent.as_str()) {
                            false
                        } else {
                            match stack.branches.get(parent.as_str()) {
                                Some(pb) => pb.pull_request.is_none(),
                                None => false,
                            }
                        };
                        if wanted {
                            found.push(parent.clone());
                        }
                        proof {
                            assert(f > 0);
                            let head = if wanted { seq![parent@] } else { Seq::<Seq<char>>::empty() };
                            assert(missing_pr_up(bm, cur@, f) == head + missing_pr_up(bm, parent@, (f - 1) as nat));
                            if wanted {
                                assert(views(found@) =~= before.push(parent@));
                                assert(before.push(parent@) =~= before + head);
                            } else {
                                assert(views(found@) =~= before + head);
                            }
                            assert(views(found@) + missing_pr_up(bm, parent@, (f - 1) as nat) =~= before
                                + missing_pr_up(bm, cur@, f));
                            if bm.contains_key(parent@) {
                                assert(rank(parent@) < rank(cur@));
                            }
                            steps = steps + 1;
                        }
                        cur = parent.as_str();
                    },
                    None => {
                        proof {
                            assert(f > 0);
                            assert(views(found@) + missing_pr_up(bm, cur@, f) =~= views(found@));
                        }
                        break ;
                    },
                }
            },
            None => {
                proof {
                    assert(views(found@) + missing_pr_up(bm, cur@, f) =~= views(found@));
                }
                break ;
            },
        }
    }
    let mut r: Vec<String> = Vec::new();
    let mut k: usize = found.len();
    while k > 0
        invariant
            k <= found@.len(),
            views(r@) == views(found@).reverse().take(found@.len() - k),
        decreases k,
    {
        k = k - 1;
        let ghost before = views(r@);
        r.push(found[k].clone());
        proof {
            let rv = views(found@).reverse();
            let m = found@.len() - 1 - k;
            assert(rv[m] == views(found@)[k as int]);
            assert(views(found@)[k as int] == found@[k as int]@);
            assert(views(r@) =~= before.push(rv[m]));
            assert(rv.take(m + 1) =~= rv.take(m).push(rv[m]));
        }
    }
    proof {
        assert(views(found@).reverse().take(found@.len() as int) =~= views(found@).reverse());
    }
    r
}

/// The names of the records listed in `ks` that get a pull request when a
/// whole stack is submitted: not main branches, and without one yet.
pub open spec fn names_to_submit(bm: BranchModel, ks: Seq<Seq<char>>) -> Seq<Seq<char>>
    decreases ks.len(),
{
    if ks.len() == 0 {
        Seq::empty()
    } else {
        let rest = names_to_submit(bm, ks.drop_last());
        let br = bm[ks.last()];
        if !spec_is_main(br.name) && br.pull_request is None {
            rest.push(br.name)
        } else {
            rest
        }
    }
}

/// The branches of the current branch's stack that still need a pull
/// request, in stack order.
pub fn branches_to_submit(stack: &Stack) -> (r: Vec<String>)
    requires
        stack.branches.wf(),
        parents_acyclic(stack.branches@),
        children_recorded(stack.branches@),
    ensures
        exists|ks: Seq<Seq<char>>|
            #[trigger] stack_listing(stack.branches@, stack.current_branch@, ks) && walk_listing(
                stack.branches@,
                stack.current_branch@,
                ks,
            ) && views(r@) == names_to_submit(
                stack.branches@,
                ks,
            ),
{
    let ghost bm = stack.branches@;
    let listed = stack.get_stack_for_branch(stack.current_branch.as_str());
    let ghost ks = choose|ks: Seq<Seq<char>>|
        #[trigger] stack_listing(bm, stack.current_branch@, ks) && walk_listing(bm, stack.current_branch@, ks)
            && ks.len() == listed@.len() && forall|i: int| 0 <= i < ks.len() ==> #[trigger] listed@[i]@ == bm[ks[i]];
    let mut r: Vec<String> = Vec::new();
    let mut i: usize = 0;
    while i < listed.len()
        invariant
            ks.len() == listed@.len(),
            forall|t: int| 0 <= t < ks.len() ==> #[trigger] listed@[t]@ == bm[ks[t]],
            i <= listed@.len(),
            views(r@) == names_to_submit(bm, ks.take(i as int)),
        decreases listed@.len() - i,
    {
        let b = listed[i];
        let ghost before = views(r@);
        proof {
            assert(ks.take(i + 1).drop_last() =~= ks.take(i as int));
            assert(ks.take(i + 1).last() == ks[i as int]);
            assert(b@ == bm[ks[i as int]]);
        }
        if !crate::navigate::is_main_branch(b.name.as_str()) && b.pull_request.is_none() {
            r.push(b.name.clone());
            proof {
                assert(views(r@) =~= before.push(b.name@));
            }
        }
        i = i + 1;
    }
    proof {
        assert(ks.take(i as int) =~= ks);
    }
    r
}

/// When every recorded child names its lister as its parent, parents
/// without a cycle give children without a cycle.
pub proof fn lemma_children_acyclic(bm: BranchModel)
    requires
        parents_acyclic(bm),
        children_consistent(bm),
    ensures
        children_acyclic(bm),
{
    let prank = choose|rank: spec_fn(Seq<char>) -> nat| parents_ranked(bm, rank);
    let n = bm.len();
    let crank = |k: Seq<char>| (n - 1 - prank(k)) as nat;
    assert forall|k: Seq<char>| #[trigger] bm.contains_key(k) implies crank(k) < bm.len() && forall|i: int|
        0 <= i < bm[k].children.len() && bm.contains_key(#[trigger] bm[k].children[i]) ==> crank(bm[k].children[i]) < crank(k) by {
        assert(prank(k) < n);
        assert forall|i: int| 0 <= i < bm[k].children.len() && bm.contains_key(#[trigger] bm[k].children[i]) implies crank(
            bm[k].children[i],
        ) < crank(k) by {
            let c = bm[k].children[i];
            assert(bm[c].parent == Some(k));
            assert(prank(k) < prank(c));
            assert(prank(c) < n);
        }
    }
    assert(children_ranked(bm, crank));
}

/// The id of the stack comment among a pull request's comments, given as
/// (id, body): the first whose body holds the marker.
pub fn stack_comment_id(comments: &Vec<(u64, String)>) -> (r: Option<u64>)
    ensures
        match r {
            Some(id) => exists|i: int|
                0 <= i < comments@.len() && comments@[i].0 == id && seq_contains_seq(
                    comments@[i].1@,
                    STACK_COMMENT_MARKER@,
                ) && forall|j: int| 0 <= j < i ==> !seq_contains_seq(#[trigger] comments@[j].1@, STACK_COMMENT_MARKER@),
            None => forall|i: int|
                0 <= i < comments@.len() ==> !seq_contains_seq(#[trigger] comments@[i].1@, STACK_COMMENT_MARKER@),
        },
{
    let mut i: usize = 0;
    while i < comments.len()
        invariant
            i <= comments@.len(),
            forall|j: int| 0 <= j < i ==> !seq_contains_seq(#[trigger] comments@[j].1@, STACK_COMMENT_MARKER@),
        decreases comments@.len() - i,
    {
        if str_contains(comments[i].1.as_str(), STACK_COMMENT_MARKER) {
            return Some(comments[i].0);
        }
        i = i + 1;
    }
    None
}

} // verus!
