use stax::collections::StrMap;
use stax::github::PullRequest;
use stax::stack::{Stack, StackBranch};
use stax::submit::{
    ancestors_without_prs, branches_to_submit, default_pr_title, detected_base, pr_base_branch,
    push_action, render_stack_comment, stack_comment_id, status_icon, PushAction,
    STACK_COMMENT_MARKER,
};

fn make_pr(number: u64, branch: &str) -> PullRequest {
    PullRequest {
        number,
        title: format!("PR for {branch}"),
        body: None,
        state: "open".to_string(),
        head_ref: branch.to_string(),
        base_ref: "main".to_string(),
        html_url: format!("https://github.com/owner/repo/pull/{number}"),
        draft: false,
    }
}

fn make_branch(
    name: &str,
    parent: Option<&str>,
    children: Vec<&str>,
    pr: Option<PullRequest>,
) -> StackBranch {
    StackBranch {
        name: name.to_string(),
        parent: parent.map(|s| s.to_string()),
        children: children.into_iter().map(|s| s.to_string()).collect(),
        commit_hash: "abc123".to_string(),
        pull_request: pr,
        is_current: false,
    }
}

/// The list-item lines (lines starting with "- ").
fn list_lines(comment: &str) -> Vec<&str> {
    comment.lines().filter(|l| l.starts_with("- ")).collect()
}

/// main -> A (#1) -> B (#2) -> C (#3), current_branch = B
fn make_linear_stack() -> Stack {
    let mut branches = StrMap::new();
    branches.insert(
        "main".to_string(),
        make_branch("main", None, vec!["A"], None),
    );
    branches.insert(
        "A".to_string(),
        make_branch("A", Some("main"), vec!["B"], Some(make_pr(1, "A"))),
    );
    branches.insert(
        "B".to_string(),
        make_branch("B", Some("A"), vec!["C"], Some(make_pr(2, "B"))),
    );
    branches.insert(
        "C".to_string(),
        make_branch("C", Some("B"), vec![], Some(make_pr(3, "C"))),
    );

    Stack {
        branches,
        roots: vec!["main".to_string()],
        current_branch: "B".to_string(),
    }
}

#[test]
fn test_contains_marker_and_header() {
    let stack = make_linear_stack();
    let comment = render_stack_comment(&stack, 2);
    assert!(comment.starts_with(STACK_COMMENT_MARKER));
    assert!(comment.contains("### Stack"));
}

#[test]
fn test_merges_to_footer() {
    let stack = make_linear_stack();
    let comment = render_stack_comment(&stack, 2);
    assert!(comment.contains("\u{2193} merges to `main`"));
}

#[test]
fn test_base_branch_not_in_list() {
    let stack = make_linear_stack();
    let comment = render_stack_comment(&stack, 2);
    let items = list_lines(&comment);
    assert!(!items.iter().any(|l| l.contains("`main`")));
}

#[test]
fn test_status_icon_open() {
    let pr = make_pr(1, "A");
    assert_eq!(status_icon(&pr), "\u{1F7E2}");
}

#[test]
fn test_status_icon_draft() {
    let mut pr = make_pr(1, "A");
    pr.draft = true;
    assert_eq!(status_icon(&pr), "\u{26AB}");
}

#[test]
fn test_status_icon_merged() {
    let mut pr = make_pr(1, "A");
    pr.state = "merged".to_string();
    assert_eq!(status_icon(&pr), "\u{1F7E3}");
}

#[test]
fn test_status_icon_closed() {
    let mut pr = make_pr(1, "A");
    pr.state = "closed".to_string();
    assert_eq!(status_icon(&pr), "\u{1F534}");
}

#[test]
fn test_merged_pr_in_comment() {
    let mut branches = StrMap::new();
    branches.insert(
        "main".to_string(),
        make_branch("main", None, vec!["A"], None),
    );
    let mut pr = make_pr(1, "A");
    pr.state = "merged".to_string();
    branches.insert(
        "A".to_string(),
        make_branch("A", Some("main"), vec![], Some(pr)),
    );
    let stack = Stack {
        branches,
        roots: vec!["main".to_string()],
        current_branch: "A".to_string(),
    };
    let comment = render_stack_comment(&stack, 1);
    assert!(comment.contains("\u{1F7E3}"));
}

#[test]
fn test_draft_pr_in_comment() {
    let mut branches = StrMap::new();
    branches.insert(
        "main".to_string(),
        make_branch("main", None, vec!["A"], None),
    );
    let mut pr = make_pr(1, "A");
    pr.draft = true;
    branches.insert(
        "A".to_string(),
        make_branch("A", Some("main"), vec![], Some(pr)),
    );
    let stack = Stack {
        branches,
        roots: vec!["main".to_string()],
        current_branch: "A".to_string(),
    };
    let comment = render_stack_comment(&stack, 1);
    assert!(comment.contains("\u{26AB}"));
}

#[test]
fn test_linear_reversed_order() {
    let stack = make_linear_stack();
    let comment = render_stack_comment(&stack, 2);
    let items = list_lines(&comment);

    assert_eq!(items.len(), 3);
    assert!(items[0].contains("`C`"));
    assert!(items[1].contains("`B`"));
    assert!(items[2].contains("`A`"));
}

#[test]
fn test_current_pr_is_bolded() {
    let stack = make_linear_stack();
    let comment = render_stack_comment(&stack, 2);
    assert!(comment.contains("**`B` [#2]"));
    assert!(comment.contains("\u{2190} this PR**"));
}

#[test]
fn test_other_prs_not_bolded() {
    let stack = make_linear_stack();
    let comment = render_stack_comment(&stack, 2);
    assert!(comment.contains("\u{1F7E2} `C` [#3]"));
    assert!(comment.contains("\u{1F7E2} `A` [#1]"));
}

#[test]
fn test_different_current_per_pr() {
    let stack = make_linear_stack();

    let comment_a = render_stack_comment(&stack, 1);
    assert!(comment_a.contains("**`A` [#1]"));
    assert!(comment_a.contains("\u{1F7E2} `B` [#2]"));

    let comment_c = render_stack_comment(&stack, 3);
    assert!(comment_c.contains("**`C` [#3]"));
    assert!(comment_c.contains("\u{1F7E2} `A` [#1]"));
}

#[test]
fn test_single_pr() {
    let mut branches = StrMap::new();
    branches.insert(
        "main".to_string(),
        make_branch("main", None, vec!["feat"], None),
    );
    branches.insert(
        "feat".to_string(),
        make_branch("feat", Some("main"), vec![], Some(make_pr(10, "feat"))),
    );
    let stack = Stack {
        branches,
        roots: vec!["main".to_string()],
        current_branch: "feat".to_string(),
    };

    let comment = render_stack_comment(&stack, 10);
    let items = list_lines(&comment);
    assert_eq!(items.len(), 1);
    assert!(items[0].contains("**`feat` [#10]"));
    assert!(comment.contains("\u{2193} merges to `main`"));
}

#[test]
fn test_skips_branches_without_prs() {
    let mut branches = StrMap::new();
    branches.insert(
        "main".to_string(),
        make_branch("main", None, vec!["A"], None),
    );
    branches.insert(
        "A".to_string(),
        make_branch("A", Some("main"), vec!["B"], Some(make_pr(1, "A"))),
    );
    branches.insert(
        "B".to_string(),
        make_branch("B", Some("A"), vec!["C"], None),
    );
    branches.insert(
        "C".to_string(),
        make_branch("C", Some("B"), vec![], Some(make_pr(3, "C"))),
    );
    let stack = Stack {
        branches,
        roots: vec!["main".to_string()],
        current_branch: "C".to_string(),
    };

    let comment = render_stack_comment(&stack, 3);
    let items = list_lines(&comment);
    assert_eq!(items.len(), 2);
    assert!(items[0].contains("`C`"));
    assert!(items[1].contains("`A`"));
    assert!(!comment.contains("`B`"));
}

#[test]
fn test_branching_children_are_indented() {
    let mut branches = StrMap::new();
    branches.insert(
        "main".to_string(),
        make_branch("main", None, vec!["A"], None),
    );
    branches.insert(
        "A".to_string(),
        make_branch("A", Some("main"), vec!["B", "C"], Some(make_pr(1, "A"))),
    );
    branches.insert(
        "B".to_string(),
        make_branch("B", Some("A"), vec![], Some(make_pr(2, "B"))),
    );
    branches.insert(
        "C".to_string(),
        make_branch("C", Some("A"), vec![], Some(make_pr(3, "C"))),
    );
    let stack = Stack {
        branches,
        roots: vec!["main".to_string()],
        current_branch: "A".to_string(),
    };

    let comment = render_stack_comment(&stack, 1);
    let items = list_lines(&comment);

    assert_eq!(items.len(), 3);
    assert!(items[0].contains("&nbsp;&nbsp;") && items[0].contains("`B`"));
    assert!(items[1].contains("&nbsp;&nbsp;") && items[1].contains("`C`"));
    assert!(!items[2].contains("&nbsp;&nbsp;") && items[2].contains("`A`"));
}

#[test]
fn test_linear_children_not_indented() {
    let mut branches = StrMap::new();
    branches.insert(
        "main".to_string(),
        make_branch("main", None, vec!["A"], None),
    );
    branches.insert(
        "A".to_string(),
        make_branch("A", Some("main"), vec!["B"], Some(make_pr(1, "A"))),
    );
    branches.insert(
        "B".to_string(),
        make_branch("B", Some("A"), vec!["C"], Some(make_pr(2, "B"))),
    );
    branches.insert(
        "C".to_string(),
        make_branch("C", Some("B"), vec![], Some(make_pr(3, "C"))),
    );
    let stack = Stack {
        branches,
        roots: vec!["main".to_string()],
        current_branch: "A".to_string(),
    };

    let comment = render_stack_comment(&stack, 1);
    let items = list_lines(&comment);

    for item in &items {
        assert!(!item.contains("&nbsp;"), "unexpected indent: {item}");
    }
}

#[test]
fn test_deep_branching() {
    let mut branches = StrMap::new();
    branches.insert(
        "main".to_string(),
        make_branch("main", None, vec!["A"], None),
    );
    branches.insert(
        "A".to_string(),
        make_branch("A", Some("main"), vec!["B"], Some(make_pr(1, "A"))),
    );
    branches.insert(
        "B".to_string(),
        make_branch("B", Some("A"), vec!["C", "D"], Some(make_pr(2, "B"))),
    );
    branches.insert(
        "C".to_string(),
        make_branch("C", Some("B"), vec![], Some(make_pr(3, "C"))),
    );
    branches.insert(
        "D".to_string(),
        make_branch("D", Some("B"), vec![], Some(make_pr(4, "D"))),
    );
    let stack = Stack {
        branches,
        roots: vec!["main".to_string()],
        current_branch: "A".to_string(),
    };

    let comment = render_stack_comment(&stack, 2);
    let items = list_lines(&comment);

    assert_eq!(items.len(), 4);
    assert!(items[0].contains("&nbsp;&nbsp;") && items[0].contains("`C`"));
    assert!(items[1].contains("&nbsp;&nbsp;") && items[1].contains("`D`"));
    assert!(!items[2].contains("&nbsp;&nbsp;") && items[2].contains("**`B`"));
    assert!(!items[3].contains("&nbsp;&nbsp;") && items[3].contains("`A`"));
}

#[test]
fn test_branching_through_no_pr_branch() {
    let mut branches = StrMap::new();
    branches.insert(
        "main".to_string(),
        make_branch("main", None, vec!["A"], None),
    );
    branches.insert(
        "A".to_string(),
        make_branch("A", Some("main"), vec!["B"], Some(make_pr(1, "A"))),
    );
    branches.insert(
        "B".to_string(),
        make_branch("B", Some("A"), vec!["C", "D"], None),
    );
    branches.insert(
        "C".to_string(),
        make_branch("C", Some("B"), vec![], Some(make_pr(3, "C"))),
    );
    branches.insert(
        "D".to_string(),
        make_branch("D", Some("B"), vec![], Some(make_pr(4, "D"))),
    );
    let stack = Stack {
        branches,
        roots: vec!["main".to_string()],
        current_branch: "A".to_string(),
    };

    let comment = render_stack_comment(&stack, 1);
    let items = list_lines(&comment);

    assert_eq!(items.len(), 3);
    assert!(items[0].contains("&nbsp;&nbsp;") && items[0].contains("`C`"));
    assert!(items[1].contains("&nbsp;&nbsp;") && items[1].contains("`D`"));
    assert!(!items[2].contains("&nbsp;&nbsp;") && items[2].contains("**`A`"));
    assert!(!comment.contains("`B`"));
}

#[test]
fn test_whole_comment_for_linear_stack() {
    let stack = make_linear_stack();
    let comment = render_stack_comment(&stack, 2);
    let expected = "<!-- stax-stack-comment -->\n### Stack\n\
- \u{1F7E2} `C` [#3](https://github.com/owner/repo/pull/3)\n\
- \u{1F7E2} **`B` [#2](https://github.com/owner/repo/pull/2) \u{2190} this PR**\n\
- \u{1F7E2} `A` [#1](https://github.com/owner/repo/pull/1)\n\
\n\u{2193} merges to `main`";
    assert_eq!(comment, expected);
}

#[test]
fn test_format_stack_line_indents_and_numbers() {
    let pr = make_pr(1234, "x");
    let line = stax::submit::format_stack_line("x", &pr, 2, false);
    assert_eq!(
        line,
        "- &nbsp;&nbsp;&nbsp;&nbsp;\u{1F7E2} `x` [#1234](https://github.com/owner/repo/pull/1234)"
    );
}

#[test]
fn test_decimal_zero_and_large() {
    assert_eq!(stax::submit::decimal(0), "0");
    assert_eq!(stax::submit::decimal(907), "907");
    assert_eq!(stax::submit::decimal(u64::MAX), "18446744073709551615");
}

#[test]
fn test_footer_names_unrecorded_base() {
    // The current branch's parent has no record: it is the base.
    let mut branches = StrMap::new();
    branches.insert(
        "feat".to_string(),
        make_branch("feat", Some("trunk"), vec![], Some(make_pr(5, "feat"))),
    );
    let stack = Stack {
        branches,
        roots: vec![],
        current_branch: "feat".to_string(),
    };
    let comment = render_stack_comment(&stack, 5);
    assert!(comment.ends_with("\u{2193} merges to `trunk`"));
}

/// main -> a (no PR) -> b (#2) -> c (no PR), current c
fn partly_submitted_stack() -> Stack {
    let mut branches = StrMap::new();
    branches.insert("main".to_string(), make_branch("main", None, vec!["a"], None));
    branches.insert("a".to_string(), make_branch("a", Some("main"), vec!["b"], None));
    branches.insert("b".to_string(), make_branch("b", Some("a"), vec!["c"], Some(make_pr(2, "b"))));
    branches.insert("c".to_string(), make_branch("c", Some("b"), vec![], None));
    Stack { branches, roots: vec!["main".to_string()], current_branch: "c".to_string() }
}

#[test]
fn test_default_pr_title_from_branch_name() {
    assert_eq!(default_pr_title("my-feature_x"), "My Feature X");
    assert_eq!(default_pr_title("fix--double__sep"), "Fix Double Sep");
    assert_eq!(default_pr_title("-lead"), "Lead");
    assert_eq!(default_pr_title(""), "");
    assert_eq!(default_pr_title("éclair-b"), "Éclair B");
}

#[test]
fn test_ancestors_without_prs_parent_first() {
    assert_eq!(ancestors_without_prs(&partly_submitted_stack()), vec!["a".to_string()]);
    let mut s = partly_submitted_stack();
    s.branches.insert("b".to_string(), make_branch("b", Some("a"), vec!["c"], None));
    assert_eq!(ancestors_without_prs(&s), vec!["a".to_string(), "b".to_string()]);
}

#[test]
fn test_branches_to_submit_skip_main_and_submitted() {
    assert_eq!(
        branches_to_submit(&partly_submitted_stack()),
        vec!["a".to_string(), "c".to_string()]
    );
    assert!(branches_to_submit(&make_linear_stack()).is_empty());
}

#[test]
fn test_push_action_choices() {
    assert_eq!(push_action(true, true, false), PushAction::ForcePush);
    assert_eq!(push_action(true, false, true), PushAction::ForcePush);
    assert_eq!(push_action(false, false, true), PushAction::Push);
    assert_eq!(push_action(false, false, false), PushAction::AskThenPush);
    assert_eq!(push_action(false, true, false), PushAction::Nothing);
}

#[test]
fn test_pr_base_falls_back_to_default() {
    let s = partly_submitted_stack();
    let b = s.branches.get("b").unwrap();
    assert_eq!(detected_base(b, "main"), "a");
    let main = s.branches.get("main").unwrap();
    assert_eq!(detected_base(main, "develop"), "develop");
    assert_eq!(pr_base_branch("a", "main", true), "a");
    assert_eq!(pr_base_branch("a", "main", false), "main");
}

#[test]
fn test_stack_comment_found_by_marker() {
    let comments = vec![
        (1, "Nice work".to_string()),
        (2, format!("intro\n{STACK_COMMENT_MARKER}\n### Stack")),
        (3, STACK_COMMENT_MARKER.to_string()),
    ];
    assert_eq!(stack_comment_id(&comments), Some(2));
    assert_eq!(stack_comment_id(&vec![(1, "<!-- stax".to_string())]), None);
    assert_eq!(stack_comment_id(&Vec::new()), None);
}

#[test]
fn test_rendered_comment_found_by_marker() {
    let stack = make_linear_stack();
    let body = render_stack_comment(&stack, 2);
    let comments = vec![(5, "unrelated".to_string()), (9, body)];
    assert_eq!(stack_comment_id(&comments), Some(9));
}
