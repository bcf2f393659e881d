use stax::collections::{StrMap, StrSet};
use stax::navigate::{
    active_stacks, at_own_tip, parent_map_chains_end, preview_child_prefix, preview_connector, bottom_of, child_probe_candidates, children_from_map, closest, direct_children,
    fallback_trunk, is_active_stack, is_main_branch, is_shadow_branch, mapped_to,
    parent_probe_candidates, picker_step, relaxed_probe, root_children_from_map, search_parent, trunk_for, trunk_of,
    up_targets, walk_to_top, PickerKey, PickerStep,
};

fn parent_map(entries: &[(&str, Option<&str>)]) -> StrMap<Option<String>> {
    let mut map = StrMap::new();
    for (k, v) in entries {
        map.insert(k.to_string(), v.map(|s| s.to_string()));
    }
    map
}

fn set_of(items: &[&str]) -> StrSet {
    let mut s = StrSet::new();
    for i in items {
        s.insert(i.to_string());
    }
    s
}

#[test]
fn test_is_main_branch_recognizes_main() {
    assert!(is_main_branch("main"));
}

#[test]
fn test_is_main_branch_recognizes_master() {
    assert!(is_main_branch("master"));
}

#[test]
fn test_is_main_branch_recognizes_develop() {
    assert!(is_main_branch("develop"));
}

#[test]
fn test_is_main_branch_rejects_feature() {
    assert!(!is_main_branch("feature"));
    assert!(!is_main_branch("main-feature"));
    assert!(!is_main_branch("my-main"));
}

#[test]
fn test_is_shadow_branch() {
    assert!(is_shadow_branch("stax/shadow/consumer"));
    assert!(is_shadow_branch("stax/shadow/feat-x"));
    assert!(!is_shadow_branch("feat-a"));
    assert!(!is_shadow_branch("main"));
    assert!(!is_shadow_branch("stax-shadow-consumer"));
}

#[test]
fn test_children_from_map_basic() {
    let map = parent_map(&[
        ("main", None),
        ("A", Some("main")),
        ("B", Some("A")),
        ("C", Some("main")),
    ]);
    let merged = StrSet::new();

    let mut children_main = children_from_map("main", &map, &merged);
    children_main.sort();
    assert_eq!(children_main, vec!["A", "C"]);

    let children_a = children_from_map("A", &map, &merged);
    assert_eq!(children_a, vec!["B"]);

    let children_b = children_from_map("B", &map, &merged);
    assert!(children_b.is_empty());
}

#[test]
fn test_children_from_map_skips_merged() {
    let map = parent_map(&[("main", None), ("A", Some("main")), ("B", Some("main"))]);
    let merged = set_of(&["A"]);

    let children = children_from_map("main", &map, &merged);
    assert_eq!(
        children,
        vec!["B"],
        "merged branch A should be excluded from children"
    );
}

#[test]
fn test_children_from_map_skips_main_branches() {
    let map = parent_map(&[
        ("main", None),
        ("develop", Some("main")),
        ("feature", Some("main")),
    ]);
    let merged = StrSet::new();

    let children = children_from_map("main", &map, &merged);
    assert_eq!(
        children,
        vec!["feature"],
        "develop should be excluded (is_main_branch)"
    );
}

#[test]
fn test_children_from_map_resolves_shadow() {
    let map = parent_map(&[
        ("main", None),
        ("feat-a", Some("main")),
        ("stax/shadow/consumer", Some("feat-a")),
        ("consumer", Some("stax/shadow/consumer")),
    ]);
    let merged = StrSet::new();

    let children = children_from_map("feat-a", &map, &merged);
    assert_eq!(children, vec!["consumer".to_string()]);
}

#[test]
fn test_root_children_from_map_basic() {
    let map = parent_map(&[
        ("main", None),
        ("A", Some("main")),
        ("B", Some("A")),
        ("C", Some("main")),
    ]);
    let merged = StrSet::new();

    let mut roots = root_children_from_map("main", &map, &merged);
    roots.sort();
    assert_eq!(roots, vec!["A", "C"]);
}

#[test]
fn test_root_children_from_map_skips_merged() {
    let map = parent_map(&[("main", None), ("A", Some("main")), ("B", Some("main"))]);
    let merged = set_of(&["A"]);

    let roots = root_children_from_map("main", &map, &merged);
    assert_eq!(roots, vec!["B"], "merged branch A should be excluded");
}

#[test]
fn test_root_children_from_map_includes_orphaned_by_merge() {
    let map = parent_map(&[("main", None), ("A", Some("main")), ("B", Some("A"))]);
    let merged = set_of(&["A"]);

    let roots = root_children_from_map("main", &map, &merged);
    assert!(
        roots.contains(&"B".to_string()),
        "B should be a root child since its parent A is merged"
    );
}

#[test]
fn test_root_children_from_map_empty_when_no_branches() {
    let map = parent_map(&[("main", None)]);
    let merged = StrSet::new();
    let roots = root_children_from_map("main", &map, &merged);
    assert!(roots.is_empty());
}

#[test]
fn test_walk_to_top_linear() {
    let map = parent_map(&[
        ("main", None),
        ("A", Some("main")),
        ("B", Some("A")),
        ("C", Some("B")),
    ]);
    let merged = StrSet::new();

    let top = walk_to_top("A", &map, &merged);
    assert_eq!(top, "C", "should walk linear chain A → B → C");
}

#[test]
fn test_walk_to_top_single_branch() {
    let map = parent_map(&[("main", None), ("A", Some("main"))]);
    let merged = StrSet::new();

    let top = walk_to_top("A", &map, &merged);
    assert_eq!(top, "A", "single branch should return itself");
}

#[test]
fn test_walk_to_top_stops_at_fork() {
    let map = parent_map(&[
        ("main", None),
        ("A", Some("main")),
        ("B", Some("A")),
        ("C", Some("A")),
    ]);
    let merged = StrSet::new();

    let top = walk_to_top("A", &map, &merged);
    assert_eq!(top, "A", "should stop at fork (A has 2 children)");
}

#[test]
fn test_walk_to_top_skips_merged_children() {
    let map = parent_map(&[
        ("main", None),
        ("A", Some("main")),
        ("B", Some("A")),
        ("C", Some("B")),
    ]);
    let merged = set_of(&["B"]);

    let top = walk_to_top("A", &map, &merged);
    assert_eq!(
        top, "A",
        "should stop at A because its only child B is merged"
    );
}

#[test]
fn test_walk_to_top_from_middle_of_stack() {
    let map = parent_map(&[
        ("main", None),
        ("A", Some("main")),
        ("B", Some("A")),
        ("C", Some("B")),
        ("D", Some("C")),
    ]);
    let merged = StrSet::new();

    let top = walk_to_top("B", &map, &merged);
    assert_eq!(top, "D", "should walk B → C → D");
}

#[test]
fn test_is_active_stack_multi_branch_always_active() {
    let map = parent_map(&[("main", None), ("A", Some("main")), ("B", Some("A"))]);
    let merged = StrSet::new();

    assert!(
        is_active_stack("A", "B", None, &map, &merged),
        "multi-branch stack should always be active"
    );

    let empty_prs = StrSet::new();
    assert!(
        is_active_stack("A", "B", Some(&empty_prs), &map, &merged),
        "multi-branch stack active even with no open PRs"
    );
}

#[test]
fn test_is_active_stack_single_branch_with_open_pr() {
    let map = parent_map(&[("main", None), ("A", Some("main"))]);
    let merged = StrSet::new();
    let open = set_of(&["A"]);

    assert!(
        is_active_stack("A", "A", Some(&open), &map, &merged),
        "single-branch with open PR should be active"
    );
}

#[test]
fn test_is_active_stack_single_branch_without_open_pr() {
    let map = parent_map(&[("main", None), ("A", Some("main"))]);
    let merged = StrSet::new();
    let open = StrSet::new();

    assert!(
        !is_active_stack("A", "A", Some(&open), &map, &merged),
        "single-branch with no open PR should be inactive"
    );
}

#[test]
fn test_is_active_stack_single_branch_no_pr_data() {
    let map = parent_map(&[("main", None), ("A", Some("main"))]);
    let merged = StrSet::new();

    assert!(
        is_active_stack("A", "A", None, &map, &merged),
        "single-branch with no PR data should default to active"
    );
}

#[test]
fn test_is_active_stack_fork_at_root() {
    let map = parent_map(&[
        ("main", None),
        ("A", Some("main")),
        ("B", Some("A")),
        ("C", Some("A")),
    ]);
    let merged = StrSet::new();

    let empty_prs = StrSet::new();
    assert!(
        is_active_stack("A", "A", Some(&empty_prs), &map, &merged),
        "fork at root should be active even with no open PRs"
    );
}

fn names(items: &[&str]) -> Vec<String> {
    items.iter().map(|s| s.to_string()).collect()
}

fn str_map(entries: &[(&str, &str)]) -> StrMap<String> {
    let mut m = StrMap::new();
    for (k, v) in entries {
        m.insert(k.to_string(), v.to_string());
    }
    m
}

#[test]
fn test_bottom_of_stack() {
    let pm = parent_map(&[
        ("main", None),
        ("A", Some("main")),
        ("B", Some("A")),
        ("C", Some("B")),
    ]);
    assert_eq!(bottom_of("C", &pm), "A");
    assert_eq!(bottom_of("A", &pm), "A");
    assert_eq!(bottom_of("main", &pm), "main");
    assert_eq!(bottom_of("unknown", &pm), "unknown");
}

#[test]
fn test_up_targets_sorted() {
    let pm = parent_map(&[
        ("main", None),
        ("B", Some("main")),
        ("A", Some("main")),
        ("A2", Some("A")),
        ("A1", Some("A")),
    ]);
    let merged = StrSet::new();
    assert_eq!(up_targets("main", &pm, &merged), names(&["A", "B"]));
    assert_eq!(up_targets("A", &pm, &merged), names(&["A1", "A2"]));
    assert!(up_targets("B", &pm, &merged).is_empty());
}

#[test]
fn test_parent_probe_candidates() {
    let all = names(&["main", "A", "B", "old", "same"]);
    let commits = str_map(&[("main", "m"), ("A", "a"), ("B", "b"), ("old", "o"), ("same", "b")]);
    let merged = set_of(&["old", "main"]);
    // B itself, the merged "old" and "same" (at B's commit) are left out;
    // main stays though merged, being a trunk branch.
    assert_eq!(parent_probe_candidates("B", &all, &commits, &merged), names(&["main", "A"]));
}

#[test]
fn test_child_probe_candidates() {
    let all = names(&["main", "A", "B", "old", "same"]);
    let commits = str_map(&[("main", "m"), ("A", "a"), ("B", "b"), ("old", "o"), ("same", "a")]);
    let merged = set_of(&["old"]);
    assert_eq!(child_probe_candidates("A", &all, &commits, &merged), names(&["B"]));
}

#[test]
fn test_at_own_tip_and_mapped_to() {
    let cands = names(&["main", "A", "B"]);
    let commits = str_map(&[("main", "m"), ("A", "a"), ("B", "b")]);
    // The merge base of C with each candidate.
    let bases = str_map(&[("main", "m"), ("A", "a"), ("B", "a")]);
    assert_eq!(at_own_tip(&cands, &bases, &commits), names(&["main", "A"]));
    assert_eq!(mapped_to(&cands, &bases, "a"), names(&["A", "B"]));
    assert!(mapped_to(&cands, &bases, "zzz").is_empty());
}

#[test]
fn test_closest_picks_first_smallest() {
    let cands = names(&["main", "A", "B"]);
    let mut d: StrMap<usize> = StrMap::new();
    d.insert("main".to_string(), 3);
    d.insert("A".to_string(), 1);
    d.insert("B".to_string(), 1);
    assert_eq!(closest(&cands, &d), Some("A".to_string()));
    assert_eq!(closest(&Vec::new(), &d), None);
}

#[test]
fn test_trunk_and_fallback() {
    let all = names(&["feature", "develop", "master"]);
    assert_eq!(trunk_for(&all, "feature"), Some("develop".to_string()));
    assert_eq!(trunk_for(&all, "develop"), Some("master".to_string()));
    assert_eq!(fallback_trunk(&all, "feature"), Some("master".to_string()));
    assert_eq!(fallback_trunk(&names(&["main", "feature"]), "feature"), Some("main".to_string()));
    assert_eq!(fallback_trunk(&names(&["main"]), "main"), None);
    assert_eq!(trunk_for(&names(&["x", "y"]), "x"), None);
}

#[test]
fn test_relaxed_probe() {
    let probe = names(&["main", "A", "B", "C"]);
    let bases = str_map(&[("main", "t"), ("A", "a"), ("B", "own"), ("C", "t")]);
    // main is a trunk branch, B's base is the branch's own commit, C's is
    // the trunk's merge base.
    assert_eq!(relaxed_probe(&probe, &bases, "own", "t"), names(&["A"]));
}

#[test]
fn test_direct_children_drop_descendants() {
    let cands = names(&["B", "C", "D"]);
    let commits = str_map(&[("B", "b"), ("C", "c"), ("D", "d")]);
    // C descends from B: their merge base is B's commit.
    let pair_bases = vec![
        ("C".to_string(), "B".to_string(), "b".to_string()),
        ("B".to_string(), "C".to_string(), "b".to_string()),
        ("D".to_string(), "B".to_string(), "x".to_string()),
    ];
    assert_eq!(direct_children(&cands, &commits, &pair_bases), names(&["B", "D"]));
}

#[test]
fn test_picker_step() {
    assert_eq!(picker_step(0, 3, PickerKey::Up), PickerStep::Highlight(0));
    assert_eq!(picker_step(2, 3, PickerKey::Up), PickerStep::Highlight(1));
    assert_eq!(picker_step(2, 3, PickerKey::Down), PickerStep::Highlight(2));
    assert_eq!(picker_step(0, 3, PickerKey::Down), PickerStep::Highlight(1));
    assert_eq!(picker_step(1, 3, PickerKey::Enter), PickerStep::Choose(1));
    assert_eq!(picker_step(1, 3, PickerKey::Cancel), PickerStep::Cancel);
    assert_eq!(picker_step(1, 3, PickerKey::Other), PickerStep::Highlight(1));
}

#[test]
fn test_active_stacks_hide_lone_branch_without_open_pr() {
    let pm = parent_map(&[
        ("main", None),
        ("A", Some("main")),
        ("A2", Some("A")),
        ("lone", Some("main")),
        ("open-lone", Some("main")),
    ]);
    let merged = StrSet::new();
    let roots = names(&["A", "lone", "open-lone"]);
    let tops = names(&["A2", "lone", "open-lone"]);
    let open = set_of(&["open-lone"]);
    let (t, r) = active_stacks(&tops, &roots, Some(&open), &pm, &merged);
    assert_eq!(t, names(&["A2", "open-lone"]));
    assert_eq!(r, names(&["A", "open-lone"]));
    let (t2, r2) = active_stacks(&tops, &roots, None, &pm, &merged);
    assert_eq!(t2, tops);
    assert_eq!(r2, roots);
}

#[test]
fn test_preview_tree_pieces() {
    assert_eq!(preview_connector(true, true), "");
    assert_eq!(preview_connector(false, true), "\u{2514}\u{2500} ");
    assert_eq!(preview_connector(false, false), "\u{251c}\u{2500} ");
    assert_eq!(preview_child_prefix("  ", true, false), "");
    assert_eq!(preview_child_prefix("  ", false, true), "     ");
    assert_eq!(preview_child_prefix("", false, false), "\u{2502}  ");
}

#[test]
fn test_parent_map_chains_end() {
    let ok = parent_map(&[("main", None), ("A", Some("main")), ("B", Some("A")), ("C", Some("gone"))]);
    assert!(parent_map_chains_end(&ok));
    let looped = parent_map(&[("A", Some("B")), ("B", Some("A"))]);
    assert!(!parent_map_chains_end(&looped));
}

fn dist(entries: &[(&str, usize)]) -> StrMap<usize> {
    let mut d = StrMap::new();
    for (k, v) in entries {
        d.insert(k.to_string(), *v);
    }
    d
}

#[test]
fn test_search_parent_strict_pass() {
    // C sits on B, which sits on A: both are at their merge base with C,
    // and B is nearer.
    let all = names(&["main", "A", "B", "C"]);
    let commits = str_map(&[("main", "m"), ("A", "a"), ("B", "b"), ("C", "c")]);
    let merged = set_of(&[]);
    let bases = str_map(&[("main", "m"), ("A", "a"), ("B", "b")]);
    let strict = dist(&[("main", 3), ("A", 2), ("B", 1)]);
    let none = str_map(&[]);
    assert_eq!(
        search_parent("C", &all, &commits, &merged, &bases, &strict, None, &none, &dist(&[])),
        Some("B".to_string())
    );
}

#[test]
fn test_search_parent_relaxed_pass_then_fallback() {
    // A merged main after C branched off it: no candidate is at its merge
    // base with C, but A shares history with C beyond the trunk.
    let all = names(&["main", "A", "C"]);
    let commits = str_map(&[("main", "m2"), ("A", "a2"), ("C", "c")]);
    let merged = set_of(&[]);
    let bases = str_map(&[("main", "m1"), ("A", "a1")]);
    let ancestry = str_map(&[("A", "m1")]);
    let sharing = dist(&[("A", 1)]);
    assert_eq!(
        search_parent("C", &all, &commits, &merged, &bases, &dist(&[]), Some("m1"), &ancestry, &sharing),
        Some("A".to_string())
    );
    // Without the trunk's merge base only the fallback is left.
    assert_eq!(
        search_parent("C", &all, &commits, &merged, &bases, &dist(&[]), None, &ancestry, &sharing),
        Some("main".to_string())
    );
}

#[test]
fn test_search_parent_skips_merged_and_self() {
    let all = names(&["main", "old", "C"]);
    let commits = str_map(&[("main", "m"), ("old", "o"), ("C", "c")]);
    let merged = set_of(&["old"]);
    // "old" would be at its merge base with C, but it is merged.
    let bases = str_map(&[("old", "o")]);
    let none = str_map(&[]);
    assert_eq!(
        search_parent("C", &all, &commits, &merged, &bases, &dist(&[("old", 1)]), None, &none, &dist(&[])),
        Some("main".to_string())
    );
    // With no trunk branch at all there is no parent.
    let all2 = names(&["X", "C"]);
    let commits2 = str_map(&[("X", "x"), ("C", "c")]);
    assert_eq!(
        search_parent("C", &all2, &commits2, &merged, &none, &dist(&[]), None, &none, &dist(&[])),
        None
    );
}

#[test]
fn test_trunk_of_prefers_main() {
    assert_eq!(trunk_of(&names(&["develop", "feature", "main"])), Some("main".to_string()));
    assert_eq!(trunk_of(&names(&["develop", "master"])), Some("master".to_string()));
    assert_eq!(trunk_of(&names(&["develop", "x"])), Some("develop".to_string()));
    assert_eq!(trunk_of(&names(&["x"])), None);
}

// The git scenarios of the parent search, given as the answers git gives.

#[test]
fn test_search_parent_linear_stack() {
    // main <- A <- B <- C: C's parent is B, B's is A, A's is main.
    let all = names(&["main", "A", "B", "C"]);
    let commits = str_map(&[("main", "m"), ("A", "a"), ("B", "b"), ("C", "c")]);
    let merged = set_of(&[]);
    let none = str_map(&[]);
    let bases_c = str_map(&[("main", "m"), ("A", "a"), ("B", "b")]);
    let d_c = dist(&[("main", 3), ("A", 2), ("B", 1)]);
    assert_eq!(search_parent("C", &all, &commits, &merged, &bases_c, &d_c, None, &none, &dist(&[])), Some("B".to_string()));
    let bases_b = str_map(&[("main", "m"), ("A", "a"), ("C", "b")]);
    let d_b = dist(&[("main", 2), ("A", 1)]);
    assert_eq!(search_parent("B", &all, &commits, &merged, &bases_b, &d_b, None, &none, &dist(&[])), Some("A".to_string()));
    let bases_a = str_map(&[("main", "m"), ("B", "a"), ("C", "a")]);
    let d_a = dist(&[("main", 1)]);
    assert_eq!(search_parent("A", &all, &commits, &merged, &bases_a, &d_a, None, &none, &dist(&[])), Some("main".to_string()));
}

#[test]
fn test_search_parent_siblings_both_off_main() {
    // A and B both branch off main: neither is the other's parent.
    let all = names(&["main", "A", "B"]);
    let commits = str_map(&[("main", "m"), ("A", "a"), ("B", "b")]);
    let merged = set_of(&[]);
    let none = str_map(&[]);
    let bases = str_map(&[("main", "m"), ("A", "m")]);
    assert_eq!(
        search_parent("B", &all, &commits, &merged, &bases, &dist(&[("main", 1)]), Some("m"), &none, &dist(&[])),
        Some("main".to_string())
    );
}

#[test]
fn test_search_parent_relaxed_when_parent_merged_main() {
    // A merged main after B was cut from it: A's tip is past the merge
    // base, which lies beyond the trunk's merge base with B.
    let all = names(&["main", "A", "B"]);
    let commits = str_map(&[("main", "m2"), ("A", "a2"), ("B", "b")]);
    let merged = set_of(&[]);
    let bases = str_map(&[("main", "m1"), ("A", "a1")]);
    let ancestry = str_map(&[("A", "m1")]);
    assert_eq!(
        search_parent("B", &all, &commits, &merged, &bases, &dist(&[]), Some("m1"), &ancestry, &dist(&[("A", 2)])),
        Some("A".to_string())
    );
}
