use stax::collections::StrMap;
use stax::restack::{merge_old_tips, restack_plan, restack_scope, sync_restack_plan, RestackStop};
use stax::stack::{Stack, StackBranch};

fn branch(name: &str, parent: Option<&str>, children: &[&str]) -> StackBranch {
    StackBranch {
        name: name.to_string(),
        parent: parent.map(|p| p.to_string()),
        children: children.iter().map(|c| c.to_string()).collect(),
        commit_hash: format!("{name}-tip"),
        pull_request: None,
        is_current: false,
    }
}

/// main → a → b → c, and main → other.
fn sample_stack(current: &str) -> Stack {
    let mut branches = StrMap::new();
    branches.insert("main".to_string(), branch("main", None, &["a", "other"]));
    branches.insert("a".to_string(), branch("a", Some("main"), &["b"]));
    branches.insert("b".to_string(), branch("b", Some("a"), &["c"]));
    branches.insert("c".to_string(), branch("c", Some("b"), &[]));
    branches.insert("other".to_string(), branch("other", Some("main"), &[]));
    Stack { branches, roots: vec!["main".to_string()], current_branch: current.to_string() }
}

fn pair(a: &str, b: &str) -> (String, String) {
    (a.to_string(), b.to_string())
}

#[test]
fn test_restack_plan_current_only() {
    assert_eq!(restack_plan(&sample_stack("b"), false), Ok(vec![pair("b", "a")]));
    assert_eq!(restack_plan(&sample_stack("main"), false), Err(RestackStop::OnRootBranch));
    assert_eq!(restack_plan(&sample_stack("zzz"), false), Err(RestackStop::NotInStack));
}

#[test]
fn test_restack_plan_no_parent() {
    let mut s = sample_stack("lonely");
    s.branches.insert("lonely".to_string(), branch("lonely", None, &[]));
    assert_eq!(restack_plan(&s, false), Err(RestackStop::NoParent));
}

#[test]
fn test_restack_plan_all_in_stack_order() {
    let plan = restack_plan(&sample_stack("b"), true).unwrap();
    assert_eq!(plan, vec![pair("a", "main"), pair("b", "a"), pair("c", "b")]);
}

#[test]
fn test_merge_old_tips_keeps_saved() {
    let mut saved = StrMap::new();
    saved.insert("a".to_string(), "old-a".to_string());
    let mut live = StrMap::new();
    live.insert("a".to_string(), "live-a".to_string());
    live.insert("b".to_string(), "live-b".to_string());
    live.insert("main".to_string(), "live-main".to_string());
    live.insert("other".to_string(), "live-other".to_string());
    let plan = vec![pair("b", "a")];
    let tips = merge_old_tips(&saved, &plan, &live);
    assert_eq!(tips.len(), 2);
    assert_eq!(tips.get("a"), Some(&"old-a".to_string()));
    assert_eq!(tips.get("b"), Some(&"live-b".to_string()));
    assert!(tips.get("main").is_none());
}

#[test]
fn test_restack_scope_from_top_of_stack() {
    let scope = restack_scope(&sample_stack("c"), "c");
    assert_eq!(scope.len(), 3);
    assert!(scope.contains("a"));
    assert!(scope.contains("b"));
    assert!(scope.contains("c"));
    assert!(!scope.contains("other"));
    assert!(!scope.contains("main"));
}

#[test]
fn test_sync_restack_plan_sorted_by_depth() {
    let plan = sync_restack_plan(&sample_stack("b"), "b");
    assert_eq!(
        plan,
        vec![
            ("a".to_string(), "main".to_string(), 1),
            ("b".to_string(), "a".to_string(), 2),
            ("c".to_string(), "b".to_string(), 3),
        ]
    );
}
