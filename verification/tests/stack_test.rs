use stax::collections::StrMap;
use stax::github::PullRequest;
use stax::collections::StrSet;
use stax::stack::{
    branches_in, build_stack, discover_children, discovered_prs, stack_members, Stack, StackBranch,
};
use stax::sync::branch_depth;

fn create_test_branch(name: &str, parent: Option<String>, children: Vec<String>) -> StackBranch {
    StackBranch {
        name: name.to_string(),
        parent,
        children,
        commit_hash: "abc123".to_string(),
        pull_request: None,
        is_current: false,
    }
}

fn create_test_pr(head_ref: &str, state: &str) -> PullRequest {
    PullRequest {
        number: 1,
        title: "Test PR".to_string(),
        body: Some("Test body".to_string()),
        head_ref: head_ref.to_string(),
        base_ref: "main".to_string(),
        state: state.to_string(),
        html_url: "https://github.com/test/test/pull/1".to_string(),
        draft: false,
    }
}

fn three_level_stack() -> Stack {
    let mut branches = StrMap::new();
    branches.insert(
        "main".to_string(),
        create_test_branch("main", None, vec!["feature1".to_string()]),
    );
    branches.insert(
        "feature1".to_string(),
        create_test_branch(
            "feature1",
            Some("main".to_string()),
            vec!["feature2".to_string()],
        ),
    );
    branches.insert(
        "feature2".to_string(),
        create_test_branch("feature2", Some("feature1".to_string()), vec![]),
    );
    Stack {
        branches,
        roots: vec!["main".to_string()],
        current_branch: "feature2".to_string(),
    }
}

#[test]
fn test_stack_creation() {
    let mut branches = StrMap::new();
    branches.insert(
        "main".to_string(),
        create_test_branch("main", None, vec!["feature1".to_string()]),
    );
    branches.insert(
        "feature1".to_string(),
        create_test_branch("feature1", Some("main".to_string()), vec![]),
    );

    let stack = Stack {
        branches,
        roots: vec!["main".to_string()],
        current_branch: "feature1".to_string(),
    };

    assert_eq!(stack.roots.len(), 1);
    assert_eq!(stack.current_branch, "feature1");
    assert!(stack.branches.contains_key("main"));
    assert!(stack.branches.contains_key("feature1"));
}

#[test]
fn test_get_stack_for_branch() {
    let stack = three_level_stack();

    let stack_branches = stack.get_stack_for_branch("feature2");
    assert!(stack_branches.len() >= 2);

    let branch_names: Vec<&str> = stack_branches.iter().map(|b| b.name.as_str()).collect();
    assert!(branch_names.contains(&"feature2"));
}

#[test]
fn test_get_stack_for_branch_lists_root_first_then_descendants() {
    let stack = three_level_stack();
    let names: Vec<&str> = stack
        .get_stack_for_branch("feature1")
        .iter()
        .map(|b| b.name.as_str())
        .collect();
    assert_eq!(names, vec!["main", "feature1", "feature2"]);
}

#[test]
fn test_get_stack_for_unknown_branch_is_empty() {
    let stack = three_level_stack();
    assert!(stack.get_stack_for_branch("nope").is_empty());
}

#[test]
fn test_is_stack_clean_with_no_prs() {
    let mut branches = StrMap::new();
    branches.insert(
        "feature1".to_string(),
        create_test_branch("feature1", None, vec![]),
    );

    let stack = Stack {
        branches,
        roots: vec!["feature1".to_string()],
        current_branch: "feature1".to_string(),
    };

    assert!(stack.is_stack_clean("feature1"));
}

#[test]
fn test_is_stack_clean_with_open_pr() {
    let mut branch = create_test_branch("feature1", None, vec![]);
    branch.pull_request = Some(create_test_pr("feature1", "open"));

    let mut branches = StrMap::new();
    branches.insert("feature1".to_string(), branch);

    let stack = Stack {
        branches,
        roots: vec!["feature1".to_string()],
        current_branch: "feature1".to_string(),
    };

    assert!(stack.is_stack_clean("feature1"));
}

#[test]
fn test_is_stack_clean_with_closed_pr() {
    let mut branch = create_test_branch("feature1", None, vec![]);
    branch.pull_request = Some(create_test_pr("feature1", "closed"));

    let mut branches = StrMap::new();
    branches.insert("feature1".to_string(), branch);

    let stack = Stack {
        branches,
        roots: vec!["feature1".to_string()],
        current_branch: "feature1".to_string(),
    };

    assert!(!stack.is_stack_clean("feature1"));
}

#[test]
fn test_is_stack_clean_sees_closed_descendant() {
    let mut stack = three_level_stack();
    let mut leaf = create_test_branch("feature2", Some("feature1".to_string()), vec![]);
    leaf.pull_request = Some(create_test_pr("feature2", "closed"));
    stack.branches.insert("feature2".to_string(), leaf);
    assert!(!stack.is_stack_clean("main"));
    assert!(!stack.is_stack_clean("feature1"));
}

#[test]
fn test_branch_depth_counts_parent_links() {
    let stack = three_level_stack();
    assert_eq!(branch_depth(&stack, "main"), 0);
    assert_eq!(branch_depth(&stack, "feature1"), 1);
    assert_eq!(branch_depth(&stack, "feature2"), 2);
    assert_eq!(branch_depth(&stack, "unknown"), 0);
}

#[test]
fn test_build_stack_links_and_roots() {
    let branches = vec!["main".to_string(), "a".to_string(), "b".to_string()];
    let mut commits = StrMap::new();
    commits.insert("main".to_string(), "m1".to_string());
    commits.insert("a".to_string(), "a1".to_string());
    let mut prs = StrMap::new();
    prs.insert("a".to_string(), create_test_pr("a", "open"));
    let rels = vec![
        ("a".to_string(), "main".to_string()),
        ("b".to_string(), "a".to_string()),
    ];
    let stack = build_stack(&branches, "b", &commits, &prs, &rels);
    assert_eq!(stack.current_branch, "b");
    assert_eq!(stack.roots, vec!["main".to_string()]);
    let main = stack.branches.get("main").unwrap();
    assert_eq!(main.parent, None);
    assert_eq!(main.children, vec!["a".to_string()]);
    assert_eq!(main.commit_hash, "m1");
    let a = stack.branches.get("a").unwrap();
    assert_eq!(a.parent, Some("main".to_string()));
    assert!(a.pull_request.is_some());
    assert!(!a.is_current);
    let b = stack.branches.get("b").unwrap();
    assert_eq!(b.parent, Some("a".to_string()));
    assert!(b.is_current);
    assert!(b.pull_request.is_none());
    assert_eq!(b.commit_hash, "");
    assert!(stack.parent_chains_end());
    assert!(stack.children_well_linked());
}

#[test]
fn test_parent_cycle_and_bad_links_detected() {
    let mut branches = StrMap::new();
    branches.insert("x".to_string(), create_test_branch("x", Some("y".to_string()), vec![]));
    branches.insert("y".to_string(), create_test_branch("y", Some("x".to_string()), vec![]));
    let looped = Stack { branches, roots: vec![], current_branch: "x".to_string() };
    assert!(!looped.parent_chains_end());

    let mut branches = StrMap::new();
    branches.insert("main".to_string(), create_test_branch("main", None, vec!["ghost".to_string()]));
    let dangling = Stack { branches, roots: vec!["main".to_string()], current_branch: "main".to_string() };
    assert!(dangling.parent_chains_end());
    assert!(!dangling.children_well_linked());
    assert!(three_level_stack().children_well_linked());
}

#[test]
fn test_discover_children_queues_new_ones_once() {
    let mut discovered = StrSet::new();
    let mut queue: Vec<String> = Vec::new();
    discover_children(&mut discovered, &mut queue, &vec!["b".to_string(), "a".to_string(), "main".to_string()]);
    assert_eq!(queue, vec!["b".to_string(), "a".to_string(), "main".to_string()]);
    queue.clear();
    discover_children(&mut discovered, &mut queue, &vec!["c".to_string(), "a".to_string(), "c".to_string()]);
    assert_eq!(queue, vec!["c".to_string()]);
    assert_eq!(discovered.len(), 4);
}

#[test]
fn test_branches_in_and_discovered_prs() {
    let mut keep = StrSet::new();
    keep.insert("a".to_string());
    keep.insert("c".to_string());
    let all = vec!["main".to_string(), "a".to_string(), "b".to_string(), "c".to_string()];
    assert_eq!(branches_in(&all, &keep), vec!["a".to_string(), "c".to_string()]);
    let prs = vec![create_test_pr("a", "open"), create_test_pr("b", "open")];
    let by_head = discovered_prs(&prs, &keep);
    assert_eq!(by_head.len(), 1);
    assert!(by_head.get("a").is_some());
}

#[test]
fn test_records_named_by_keys() {
    assert!(three_level_stack().records_named_by_keys());
    let mut s = three_level_stack();
    s.branches.insert("alias".to_string(), create_test_branch("feature1", None, vec![]));
    assert!(!s.records_named_by_keys());
}

#[test]
fn test_get_stack_for_branch_walk_order() {
    // main -> a; a has children b then c; b has child d.  The walk takes
    // the last branch still to visit, so c's subtree comes before d.
    let mut branches = StrMap::new();
    branches.insert("main".to_string(), create_test_branch("main", None, vec!["a".to_string()]));
    branches.insert(
        "a".to_string(),
        create_test_branch("a", Some("main".to_string()), vec!["b".to_string(), "c".to_string()]),
    );
    branches.insert("b".to_string(), create_test_branch("b", Some("a".to_string()), vec!["d".to_string()]));
    branches.insert("c".to_string(), create_test_branch("c", Some("a".to_string()), vec!["e".to_string()]));
    branches.insert("d".to_string(), create_test_branch("d", Some("b".to_string()), vec![]));
    branches.insert("e".to_string(), create_test_branch("e", Some("c".to_string()), vec![]));
    let stack = Stack { branches, roots: vec!["main".to_string()], current_branch: "a".to_string() };
    let names: Vec<String> = stack.get_stack_for_branch("a").iter().map(|b| b.name.clone()).collect();
    assert_eq!(names, vec!["main", "a", "b", "c", "e", "d"]);
}

#[test]
fn test_stack_members_leave_out_merged() {
    let all = vec!["main".to_string(), "old".to_string(), "feature".to_string()];
    let mut merged = StrSet::new();
    merged.insert("old".to_string());
    merged.insert("main".to_string());
    assert_eq!(stack_members(&all, &merged), vec!["main".to_string(), "feature".to_string()]);
}
