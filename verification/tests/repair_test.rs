use stax::collections::{StrMap, StrSet};
use stax::github::PullRequest;
use stax::repair::{
    check_topology, collect_descendants, expected_parents, heads_by_base,
    infer_gap_branch_parents, local_prs, needs_repair, topological_sort, topology_mismatches,
};

fn make_pr(head: &str, base: &str, number: u64) -> PullRequest {
    PullRequest {
        number,
        title: String::new(),
        body: None,
        state: "open".to_string(),
        head_ref: head.to_string(),
        base_ref: base.to_string(),
        html_url: format!("https://github.com/o/r/pull/{number}"),
        draft: false,
    }
}

fn set_of(items: &[&str]) -> StrSet {
    let mut s = StrSet::new();
    for i in items {
        s.insert(i.to_string());
    }
    s
}

#[test]
fn test_collect_descendants_transitive() {
    let mut m: StrMap<Vec<String>> = StrMap::new();
    m.insert("main".to_string(), vec!["a".to_string(), "x".to_string()]);
    m.insert("a".to_string(), vec!["b".to_string()]);
    m.insert("b".to_string(), vec!["c".to_string()]);
    let d = collect_descendants("a", &m);
    assert_eq!(d.len(), 2);
    assert!(d.contains("b"));
    assert!(d.contains("c"));
    assert!(!d.contains("a"));
    assert!(collect_descendants("c", &m).is_empty());
    assert_eq!(collect_descendants("main", &m).len(), 4);
}

#[test]
fn test_heads_by_base() {
    let prs = vec![make_pr("a", "main", 1), make_pr("b", "a", 2), make_pr("c", "a", 3)];
    let refs: Vec<&PullRequest> = prs.iter().collect();
    let m = heads_by_base(&refs);
    assert_eq!(m.get("a").unwrap(), &vec!["b".to_string(), "c".to_string()]);
    assert_eq!(m.get("main").unwrap(), &vec!["a".to_string()]);
    assert!(m.get("b").is_none());
}

#[test]
fn test_topological_sort_parents_first() {
    let mut ep = StrMap::new();
    ep.insert("c".to_string(), "b".to_string());
    ep.insert("b".to_string(), "a".to_string());
    ep.insert("a".to_string(), "main".to_string());
    let sorted = topological_sort(&ep);
    assert_eq!(
        sorted,
        vec![
            ("a".to_string(), "main".to_string()),
            ("b".to_string(), "a".to_string()),
            ("c".to_string(), "b".to_string()),
        ]
    );
}

#[test]
fn test_gap_branch_gets_sole_chain_tail() {
    // tail→main, child→gap; gap has no pull request of its own.
    let prs = vec![make_pr("tail", "main", 1), make_pr("child", "gap", 2)];
    let branches = set_of(&["main", "tail", "gap", "child"]);
    let local = local_prs(&prs, &branches);
    assert_eq!(local.len(), 2);
    let gi = infer_gap_branch_parents(&local, &branches);
    assert_eq!(gi.inferred.get("gap"), Some(&"tail".to_string()));
    assert!(gi.ambiguous.is_empty());
    assert!(gi.unresolved.is_empty());

    let ep = expected_parents(&local, &gi.inferred);
    assert_eq!(ep.get("tail"), Some(&"main".to_string()));
    assert_eq!(ep.get("child"), Some(&"gap".to_string()));
    assert_eq!(ep.get("gap"), Some(&"tail".to_string()));

    // gap currently sits on main: it is the one to repair.
    let mut pm = StrMap::new();
    pm.insert("main".to_string(), None);
    pm.insert("tail".to_string(), Some("main".to_string()));
    pm.insert("gap".to_string(), Some("main".to_string()));
    pm.insert("child".to_string(), Some("gap".to_string()));
    let sorted = topological_sort(&ep);
    let checks = check_topology(&sorted, &pm, &gi.inferred);
    assert_eq!(checks.len(), 3);
    let fix = needs_repair(&checks);
    assert_eq!(fix, vec![("gap".to_string(), "tail".to_string())]);
    let gap_check = checks.iter().find(|c| c.branch == "gap").unwrap();
    assert!(gap_check.inferred);
    assert_eq!(gap_check.current_parent, "main");
}

#[test]
fn test_gap_branch_ambiguous_and_unresolved() {
    // Two chains end in t1 and t2: a gap below neither has two candidates.
    let prs = vec![
        make_pr("t1", "main", 1),
        make_pr("t2", "main", 2),
        make_pr("child", "gap", 3),
    ];
    let branches = set_of(&["main", "t1", "t2", "gap", "child"]);
    let local = local_prs(&prs, &branches);
    let gi = infer_gap_branch_parents(&local, &branches);
    assert!(gi.inferred.is_empty());
    assert_eq!(gi.ambiguous.len(), 1);
    assert_eq!(gi.ambiguous[0].0, "gap");
    assert_eq!(gi.ambiguous[0].1.len(), 2);

    // The only chain tail descends from the gap: nothing is left.
    let prs2 = vec![make_pr("child", "gap", 1)];
    let local2 = local_prs(&prs2, &branches);
    let gi2 = infer_gap_branch_parents(&local2, &branches);
    assert_eq!(gi2.unresolved, vec!["gap".to_string()]);
    assert!(gi2.inferred.is_empty());
}

#[test]
fn test_local_prs_drops_missing_branches() {
    let prs = vec![make_pr("a", "main", 1), make_pr("gone", "main", 2), make_pr("b", "gone", 3)];
    let branches = set_of(&["main", "a", "b"]);
    let local = local_prs(&prs, &branches);
    assert_eq!(local.len(), 1);
    assert_eq!(local[0].head_ref, "a");
}

#[test]
fn test_check_topology_unknown_parent_and_no_false_positive() {
    let sorted = vec![("a".to_string(), "main".to_string()), ("b".to_string(), "a".to_string())];
    let mut pm = StrMap::new();
    pm.insert("a".to_string(), Some("main".to_string()));
    let inferred = StrMap::new();
    let checks = check_topology(&sorted, &pm, &inferred);
    assert_eq!(checks[0].current_parent, "main");
    assert_eq!(checks[1].current_parent, "unknown");
    assert!(!checks[1].inferred);
    assert_eq!(needs_repair(&checks), vec![("b".to_string(), "a".to_string())]);
    pm.insert("b".to_string(), Some("a".to_string()));
    assert!(needs_repair(&check_topology(&sorted, &pm, &inferred)).is_empty());
}

#[test]
fn test_topology_mismatches_keep_only_misplaced() {
    let sorted = vec![("a".to_string(), "main".to_string()), ("b".to_string(), "a".to_string())];
    let mut pm = StrMap::new();
    pm.insert("a".to_string(), Some("main".to_string()));
    pm.insert("b".to_string(), Some("main".to_string()));
    let checks = check_topology(&sorted, &pm, &StrMap::new());
    let bad = topology_mismatches(&checks);
    assert_eq!(bad.len(), 1);
    assert_eq!(bad[0].branch, "b");
    assert_eq!(bad[0].current_parent, "main");
    assert_eq!(bad[0].expected_parent, "a");
}

#[test]
fn test_gap_branches_each_listed_once() {
    // Two gaps, each below both chain tails: each is ambiguous, once.
    let prs = vec![
        make_pr("t1", "main", 1),
        make_pr("t2", "main", 2),
        make_pr("c1", "g1", 3),
        make_pr("c2", "g2", 4),
        make_pr("c3", "g1", 5),
    ];
    let branches = set_of(&["main", "t1", "t2", "g1", "g2", "c1", "c2", "c3"]);
    let local = local_prs(&prs, &branches);
    let gi = infer_gap_branch_parents(&local, &branches);
    let mut gaps: Vec<String> = gi.ambiguous.iter().map(|(g, _)| g.clone()).collect();
    gaps.sort();
    assert_eq!(gaps, vec!["g1".to_string(), "g2".to_string()]);
    assert!(gi.inferred.is_empty());
    assert!(gi.unresolved.is_empty());
}
