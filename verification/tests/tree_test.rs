use stax::collections::StrMap;
use stax::github::PullRequest;
use stax::stack::{Stack, StackBranch};
use stax::submit::default_pr_title;
use stax::tree::{pr_mark, stack_tree_lines, PrMark, TreeLine};

fn branch(name: &str, parent: Option<&str>, children: &[&str], current: bool) -> StackBranch {
    StackBranch {
        name: name.to_string(),
        parent: parent.map(|p| p.to_string()),
        children: children.iter().map(|c| c.to_string()).collect(),
        commit_hash: "h".to_string(),
        pull_request: None,
        is_current: current,
    }
}

/// main → a → (shadow) → c, main → b; c merges a and b.
fn diamond_stack(current: &str) -> (Stack, StrMap<Vec<String>>) {
    let mut branches = StrMap::new();
    branches.insert("main".to_string(), branch("main", None, &["a", "b"], current == "main"));
    let mut a = branch("a", Some("main"), &["stax/shadow/c"], current == "a");
    a.pull_request = Some(PullRequest {
        number: 1,
        title: String::new(),
        body: None,
        state: "open".to_string(),
        head_ref: "a".to_string(),
        base_ref: "main".to_string(),
        html_url: "https://github.com/o/r/pull/1".to_string(),
        draft: false,
    });
    branches.insert("a".to_string(), a);
    branches.insert("b".to_string(), branch("b", Some("main"), &[], current == "b"));
    branches.insert(
        "stax/shadow/c".to_string(),
        branch("stax/shadow/c", Some("a"), &["c"], false),
    );
    branches.insert("c".to_string(), branch("c", Some("stax/shadow/c"), &[], current == "c"));
    let mut sources = StrMap::new();
    sources.insert("c".to_string(), vec!["a".to_string(), "b".to_string()]);
    (Stack { branches, roots: vec!["main".to_string()], current_branch: current.to_string() }, sources)
}

fn line(depth: usize, name: &str, other: &[&str], current: bool, pr: Option<(&str, u64)>) -> TreeLine {
    TreeLine::Branch {
        depth,
        name: name.to_string(),
        other_sources: other.iter().map(|s| s.to_string()).collect(),
        is_current: current,
        pr: pr.map(|(s, n)| (s.to_string(), n)),
    }
}

#[test]
fn test_tree_of_whole_stack_shows_consumer_under_other_source() {
    let (stack, sources) = diamond_stack("main");
    let lines = stack_tree_lines(&stack, &sources);
    assert_eq!(lines.len(), 5);
    assert!(lines[0] == line(0, "main", &[], true, None));
    assert!(lines[1] == line(1, "a", &[], false, Some(("open", 1))));
    assert!(lines[2] == line(2, "c", &["b"], false, None));
    assert!(lines[3] == line(1, "b", &[], false, None));
    assert!(
        lines[4]
            == TreeLine::Consumer { depth: 2, name: "c".to_string(), other_sources: vec!["a".to_string()] }
    );
}

#[test]
fn test_tree_scoped_to_current_stack_and_its_sources() {
    let (stack, sources) = diamond_stack("c");
    let lines = stack_tree_lines(&stack, &sources);
    assert_eq!(lines.len(), 5);
    assert!(lines[0] == line(0, "main", &[], false, None));
    assert!(lines[1] == line(1, "a", &[], false, Some(("open", 1))));
    assert!(lines[2] == line(2, "c", &["b"], true, None));
    assert!(lines[3] == line(1, "b", &[], false, None));
    assert!(
        lines[4]
            == TreeLine::Consumer { depth: 2, name: "c".to_string(), other_sources: vec!["a".to_string()] }
    );
}

#[test]
fn test_tree_leaves_out_other_stacks() {
    let (stack, sources) = diamond_stack("b");
    let lines = stack_tree_lines(&stack, &sources);
    assert_eq!(lines, vec![line(0, "main", &[], false, None), line(1, "b", &[], true, None)]);
    let (stack, _) = diamond_stack("b");
    let lines = stack_tree_lines(&stack, &StrMap::new());
    assert_eq!(lines.len(), 2);
}

fn pr(number: u64, head: &str) -> PullRequest {
    PullRequest {
        number,
        title: String::new(),
        body: None,
        state: "open".to_string(),
        head_ref: head.to_string(),
        base_ref: "main".to_string(),
        html_url: format!("https://github.com/you/repo/pull/{number}"),
        draft: false,
    }
}

#[test]
fn test_readme_linear_stack_visualization() {
    let mut branches = StrMap::new();
    branches.insert("main".to_string(), branch("main", None, &["add-auth"], false));
    let mut auth = branch("add-auth", Some("main"), &["add-login-page"], false);
    auth.pull_request = Some(pr(1, "add-auth"));
    branches.insert("add-auth".to_string(), auth);
    let mut login = branch("add-login-page", Some("add-auth"), &["add-logout"], false);
    login.pull_request = Some(pr(2, "add-login-page"));
    branches.insert("add-login-page".to_string(), login);
    let mut logout = branch("add-logout", Some("add-login-page"), &[], true);
    logout.pull_request = Some(pr(3, "add-logout"));
    branches.insert("add-logout".to_string(), logout);
    let stack = Stack { branches, roots: vec!["main".to_string()], current_branch: "add-logout".to_string() };
    let lines = stack_tree_lines(&stack, &StrMap::new());
    assert_eq!(
        lines,
        vec![
            line(0, "main", &[], false, None),
            line(1, "add-auth", &[], false, Some(("open", 1))),
            line(2, "add-login-page", &[], false, Some(("open", 2))),
            line(3, "add-logout", &[], true, Some(("open", 3))),
        ]
    );
    assert_eq!(default_pr_title("add-auth"), "Add Auth");
}

#[test]
fn test_readme_diamond_visualization() {
    let mut branches = StrMap::new();
    branches.insert("main".to_string(), branch("main", None, &["add-auth", "add-database"], false));
    let mut auth = branch("add-auth", Some("main"), &["stax/shadow/add-payments"], false);
    auth.pull_request = Some(pr(1, "add-auth"));
    branches.insert("add-auth".to_string(), auth);
    let mut db = branch("add-database", Some("main"), &[], false);
    db.pull_request = Some(pr(2, "add-database"));
    branches.insert("add-database".to_string(), db);
    branches.insert(
        "stax/shadow/add-payments".to_string(),
        branch("stax/shadow/add-payments", Some("add-auth"), &["add-payments"], false),
    );
    branches.insert(
        "add-payments".to_string(),
        branch("add-payments", Some("stax/shadow/add-payments"), &[], true),
    );
    let mut sources = StrMap::new();
    sources.insert("add-payments".to_string(), vec!["add-auth".to_string(), "add-database".to_string()]);
    let stack = Stack { branches, roots: vec!["main".to_string()], current_branch: "add-payments".to_string() };
    let lines = stack_tree_lines(&stack, &sources);
    assert_eq!(
        lines,
        vec![
            line(0, "main", &[], false, None),
            line(1, "add-auth", &[], false, Some(("open", 1))),
            line(2, "add-payments", &["add-database"], true, None),
            line(1, "add-database", &[], false, Some(("open", 2))),
            TreeLine::Consumer {
                depth: 2,
                name: "add-payments".to_string(),
                other_sources: vec!["add-auth".to_string()],
            },
        ]
    );
}

#[test]
fn test_pr_marks() {
    let pr = |state: &str| Some((state.to_string(), 7u64));
    assert_eq!(pr_mark(&pr("open")), PrMark::Open);
    assert_eq!(pr_mark(&pr("draft")), PrMark::Draft);
    assert_eq!(pr_mark(&pr("closed")), PrMark::Closed);
    assert_eq!(pr_mark(&pr("merged")), PrMark::Merged);
    assert_eq!(pr_mark(&pr("weird")), PrMark::Other);
    assert_eq!(pr_mark(&None), PrMark::NoPr);
    assert_eq!(PrMark::Open.symbol(), "\u{25cf}");
    assert_eq!(PrMark::Draft.symbol(), "\u{25d0}");
    assert_eq!(PrMark::Closed.symbol(), "\u{25cb}");
    assert_eq!(PrMark::Merged.symbol(), "\u{2713}");
    assert_eq!(PrMark::Other.symbol(), "?");
    assert_eq!(PrMark::NoPr.symbol(), "\u{25cb}");
}
