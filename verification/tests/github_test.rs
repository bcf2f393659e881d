use stax::github::{parse_github_url, repo_from_parts, GithubUrlError, PullRequest, UrlParts};

#[test]
fn test_parse_github_url_https() {
    let result = parse_github_url("https://github.com/user/repo.git");
    assert!(result.is_ok());
    let (owner, repo) = result.unwrap();
    assert_eq!(owner, "user");
    assert_eq!(repo, "repo");
}

#[test]
fn test_parse_github_url_https_no_git() {
    let result = parse_github_url("https://github.com/user/repo");
    assert!(result.is_ok());
    let (owner, repo) = result.unwrap();
    assert_eq!(owner, "user");
    assert_eq!(repo, "repo");
}

#[test]
fn test_parse_github_url_ssh() {
    let result = parse_github_url("git@github.com:user/repo.git");
    assert!(result.is_ok());
    let (owner, repo) = result.unwrap();
    assert_eq!(owner, "user");
    assert_eq!(repo, "repo");
}

#[test]
fn test_parse_github_url_ssh_no_git() {
    let result = parse_github_url("git@github.com:user/repo");
    assert!(result.is_ok());
    let (owner, repo) = result.unwrap();
    assert_eq!(owner, "user");
    assert_eq!(repo, "repo");
}

#[test]
fn test_parse_github_url_invalid_host() {
    let result = parse_github_url("https://gitlab.com/user/repo.git");
    assert!(result.is_err());
}

#[test]
fn test_parse_github_url_invalid_format() {
    let result = parse_github_url("https://github.com/user");
    assert!(result.is_err());
}

#[test]
fn test_parse_github_url_invalid_ssh() {
    let result = parse_github_url("git@gitlab.com:user/repo.git");
    assert!(result.is_err());
}

#[test]
fn test_parse_github_url_error_kinds() {
    assert_eq!(
        parse_github_url("https://gitlab.com/user/repo.git"),
        Err(GithubUrlError::NotGitHub)
    );
    assert_eq!(
        parse_github_url("https://github.com/user"),
        Err(GithubUrlError::InvalidFormat)
    );
    assert_eq!(
        parse_github_url("https://github.com/a/b/c"),
        Err(GithubUrlError::InvalidFormat)
    );
    assert_eq!(
        parse_github_url("git@gitlab.com:user/repo.git"),
        Err(GithubUrlError::RelativeUrlWithoutBase)
    );
    assert_eq!(
        GithubUrlError::RelativeUrlWithoutBase.message(),
        "relative URL without a base"
    );
}

#[test]
fn test_parse_github_url_strips_repeated_git_suffix() {
    assert_eq!(
        parse_github_url("https://github.com/owner/name.git.git"),
        Ok(("owner".to_string(), "name".to_string()))
    );
}

#[test]
fn test_pull_request_struct() {
    let pr = PullRequest {
        number: 42,
        title: "Test PR".to_string(),
        body: Some("Test body".to_string()),
        state: "open".to_string(),
        head_ref: "feature-branch".to_string(),
        base_ref: "main".to_string(),
        html_url: "https://github.com/user/repo/pull/42".to_string(),
        draft: false,
    };

    assert_eq!(pr.number, 42);
    assert_eq!(pr.title, "Test PR");
    assert_eq!(pr.body, Some("Test body".to_string()));
    assert_eq!(pr.state, "open");
    assert_eq!(pr.head_ref, "feature-branch");
    assert_eq!(pr.base_ref, "main");
    assert!(!pr.draft);
}

fn parts(host: Option<&str>, path: &str) -> UrlParts {
    UrlParts { host: host.map(|h| h.to_string()), path: path.to_string() }
}

#[test]
fn test_repo_from_parts() {
    assert_eq!(
        repo_from_parts(&parts(Some("github.com"), "/user/repo.git")),
        Ok(("user".to_string(), "repo".to_string()))
    );
    assert_eq!(
        repo_from_parts(&parts(Some("github.com"), "//user/repo.git.git")),
        Ok(("user".to_string(), "repo".to_string()))
    );
    assert_eq!(
        repo_from_parts(&parts(Some("github.com"), "/user/repo")),
        Ok(("user".to_string(), "repo".to_string()))
    );
    assert_eq!(
        repo_from_parts(&parts(Some("gitlab.com"), "/user/repo")),
        Err(GithubUrlError::NotGitHub)
    );
    assert_eq!(repo_from_parts(&parts(None, "/user/repo")), Err(GithubUrlError::NotGitHub));
    assert_eq!(
        repo_from_parts(&parts(Some("github.com"), "/user")),
        Err(GithubUrlError::InvalidFormat)
    );
    assert_eq!(
        repo_from_parts(&parts(Some("github.com"), "/a/b/c")),
        Err(GithubUrlError::InvalidFormat)
    );
}

#[test]
fn test_url_error_messages() {
    assert_eq!(GithubUrlError::NotGitHub.message(), "Not a GitHub URL");
    assert_eq!(
        GithubUrlError::InvalidFormat.message(),
        "Invalid GitHub repository URL format"
    );
    assert_eq!(GithubUrlError::Parse("bad".to_string()).message(), "bad");
}
