use stax::collections::{StrMap, StrSet};
use stax::github::PullRequest;
use stax::stack::{Stack, StackBranch};
use stax::sync::{
    apply_live_pr_bases, attach_pull_requests, branches_missing_prs, checkout_target,
    find_merged_branches, may_be_locally_merged, merged_reason,
};

fn branch(name: &str, state: Option<&str>, number: u64) -> StackBranch {
    StackBranch {
        name: name.to_string(),
        parent: Some("main".to_string()),
        children: vec![],
        commit_hash: "h".to_string(),
        pull_request: state.map(|s| PullRequest {
            number,
            title: "t".to_string(),
            body: None,
            state: s.to_string(),
            head_ref: name.to_string(),
            base_ref: "main".to_string(),
            html_url: "u".to_string(),
            draft: false,
        }),
        is_current: false,
    }
}

#[test]
fn test_find_merged_branches_reports_merged_and_closed() {
    let mut branches = StrMap::new();
    branches.insert("main".to_string(), branch("main", Some("merged"), 9));
    branches.insert("a".to_string(), branch("a", Some("merged"), 1));
    branches.insert("b".to_string(), branch("b", Some("closed"), 2));
    branches.insert("c".to_string(), branch("c", Some("open"), 3));
    branches.insert("d".to_string(), branch("d", None, 0));
    branches.insert("e".to_string(), branch("e", Some("merged"), 5));
    let stack = Stack {
        branches,
        roots: vec![],
        current_branch: "a".to_string(),
    };
    let mut current = StrSet::new();
    for n in ["main", "a", "b", "c", "d"] {
        current.insert(n.to_string());
    }
    let mut found = find_merged_branches(&stack, "main", &current);
    found.sort();
    assert_eq!(
        found,
        vec![
            ("a".to_string(), "PR #1 merged".to_string()),
            ("b".to_string(), "PR #2 closed".to_string()),
        ]
    );
}

fn pr(head: &str, base: &str, state: &str, number: u64) -> PullRequest {
    PullRequest {
        number,
        title: String::new(),
        body: None,
        state: state.to_string(),
        head_ref: head.to_string(),
        base_ref: base.to_string(),
        html_url: format!("https://github.com/o/r/pull/{number}"),
        draft: false,
    }
}

fn names(items: &[&str]) -> StrSet {
    let mut s = StrSet::new();
    for i in items {
        s.insert(i.to_string());
    }
    s
}

#[test]
fn test_merged_reason_texts() {
    assert_eq!(merged_reason(&pr("a", "main", "merged", 12)), Some("PR #12 merged".to_string()));
    assert_eq!(merged_reason(&pr("a", "main", "closed", 7)), Some("PR #7 closed".to_string()));
    assert_eq!(merged_reason(&pr("a", "main", "open", 7)), None);
}

#[test]
fn test_checkout_target_falls_back_to_trunk() {
    let branches = names(&["main", "feature"]);
    assert_eq!(checkout_target(&branches, "feature", "main"), "feature");
    assert_eq!(checkout_target(&branches, "deleted", "main"), "main");
}

#[test]
fn test_may_be_locally_merged() {
    let stack = Stack { branches: StrMap::new(), roots: vec![], current_branch: "x".to_string() };
    assert!(may_be_locally_merged(&stack, "main", "x", true));
    assert!(!may_be_locally_merged(&stack, "main", "x", false));
    assert!(!may_be_locally_merged(&stack, "main", "main", true));
    assert!(!may_be_locally_merged(&stack, "trunk", "trunk", true));
}

#[test]
fn test_apply_live_pr_bases() {
    let mut pm: StrMap<Option<String>> = StrMap::new();
    pm.insert("main".to_string(), None);
    pm.insert("a".to_string(), Some("main".to_string()));
    pm.insert("b".to_string(), Some("main".to_string()));
    let branches = names(&["main", "a", "b"]);
    let prs = vec![pr("b", "a", "open", 1), pr("a", "gone", "open", 2), pr("zz", "main", "open", 3)];
    apply_live_pr_bases(&mut pm, &branches, &prs);
    assert_eq!(pm.get("b"), Some(&Some("a".to_string())));
    assert_eq!(pm.get("a"), Some(&Some("main".to_string())));
    assert!(pm.get("zz").is_none());
    assert_eq!(pm.len(), 3);
}

#[test]
fn test_attach_pull_requests_and_missing() {
    let mut branches = StrMap::new();
    branches.insert("main".to_string(), branch("main", None, 0));
    branches.insert("a".to_string(), branch("a", None, 0));
    let mut stack = Stack { branches, roots: vec!["main".to_string()], current_branch: "a".to_string() };
    attach_pull_requests(&mut stack, &vec![pr("a", "main", "open", 5), pr("other", "main", "open", 6)]);
    assert_eq!(stack.branches.get("a").unwrap().pull_request.as_ref().unwrap().number, 5);
    assert!(stack.branches.get("main").unwrap().pull_request.is_none());
    assert!(stack.branches.get("other").is_none());

    let mut known = StrMap::new();
    known.insert("a".to_string(), pr("a", "main", "open", 5));
    let all = vec!["main".to_string(), "a".to_string(), "b".to_string()];
    assert_eq!(branches_missing_prs(&all, &known), vec!["b".to_string()]);
}
