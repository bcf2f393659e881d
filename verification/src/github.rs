//! Pull requests as the tool sees them, and where a repository lives on
//! GitHub.
use vstd::prelude::*;
use crate::collections::Dup;
use crate::cache::opt_view;
use crate::text::{seq_starts_with, str_starts_with};

verus! {

#[derive(Debug)]
pub struct PullRequest {
    pub number: u64,
    pub title: String,
    pub body: Option<String>,
    pub state: String,
    pub head_ref: String,
    pub base_ref: String,
    pub html_url: String,
    pub draft: bool,
}

pub struct PullRequestView {
    pub number: u64,
    pub title: Seq<char>,
    pub body: Option<Seq<char>>,
    pub state: Seq<char>,
    pub head_ref: Seq<char>,
    pub base_ref: Seq<char>,
    pub html_url: Seq<char>,
    pub draft: bool,
}

impl View for PullRequest {
    type V = PullRequestView;

    open spec fn view(&self) -> PullRequestView {
        PullRequestView {
            number: self.number,
            title: self.title@,
            body: opt_view(self.body),
            state: self.state@,
            head_ref: self.head_ref@,
            base_ref: self.base_ref@,
            html_url: self.html_url@,
            draft: self.draft,
        }
    }
}

impl Dup for PullRequest {
    fn dup(&self) -> (r: Self) {
        PullRequest {
            number: self.number,
            title: self.title.clone(),
            body: match &self.body {
                Some(b) => Some(b.clone()),
                None => None,
            },
            state: self.state.clone(),
            head_ref: self.head_ref.clone(),
            base_ref: self.base_ref.clone(),
            html_url: self.html_url.clone(),
            draft: self.draft,
        }
    }
}

/// What the library reads of a parsed URL.
pub struct UrlParts {
    pub host: Option<String>,
    pub path: String,
}

pub struct UrlPartsView {
    pub host: Option<Seq<char>>,
    pub path: Seq<char>,
}

impl View for UrlParts {
    type V = UrlPartsView;

    open spec fn view(&self) -> UrlPartsView {
        UrlPartsView { host: opt_view(self.host), path: self.path@ }
    }
}

/// What `url::Url::parse` gives for a text: the host and path of the URL,
/// or the text of the parse error.
pub uninterp spec fn url_parse_result(s: Seq<char>) -> Result<UrlPartsView, Seq<char>>;

/// `url::Url::parse`, read through `host_str` and `path`; a parse error is
/// given as its text.  The result is claimed to depend on the input text
/// alone; nothing is claimed of what it is.
#[verifier::external_body]
fn parse_url(s: &str) -> (r: Result<UrlParts, String>)
    ensures
        match r {
            Ok(p) => url_parse_result(s@) == Ok::<UrlPartsView, Seq<char>>(p@),
            Err(e) => url_parse_result(s@) == Err::<UrlPartsView, Seq<char>>(e@),
        },
{
    match url::Url::parse(s) {
        Ok(u) => {
            let host = match u.host_str() {
                Some(h) => Some(h.to_string()),
                None => None,
            };
            Ok(UrlParts { host, path: u.path().to_string() })
        },
        Err(e) => Err(e.to_string()),
    }
}

/// Why a remote URL does not name a GitHub repository.
#[derive(Debug, PartialEq, Eq)]
pub enum GithubUrlError {
    /// The URL parser refused the text, with its message.
    Parse(String),
    /// Neither a URL nor a GitHub SSH address.
    RelativeUrlWithoutBase,
    /// The host is not `github.com`.
    NotGitHub,
    /// The path is not `owner/repo`.
    InvalidFormat,
}

pub enum GithubUrlErrorView {
    Parse(Seq<char>),
    RelativeUrlWithoutBase,
    NotGitHub,
    InvalidFormat,
}

impl View for GithubUrlError {
    type V = GithubUrlErrorView;

    open spec fn view(&self) -> GithubUrlErrorView {
        match self {
            GithubUrlError::Parse(m) => GithubUrlErrorView::Parse(m@),
            GithubUrlError::RelativeUrlWithoutBase => GithubUrlErrorView::RelativeUrlWithoutBase,
            GithubUrlError::NotGitHub => GithubUrlErrorView::NotGitHub,
            GithubUrlError::InvalidFormat => GithubUrlErrorView::InvalidFormat,
        }
    }
}

/// The message shown for an error of reading a GitHub URL.
pub open spec fn url_error_message(e: GithubUrlErrorView) -> Seq<char> {
    match e {
        GithubUrlErrorView::Parse(m) => m,
        GithubUrlErrorView::RelativeUrlWithoutBase => "relative URL without a base"@,
        GithubUrlErrorView::NotGitHub => "Not a GitHub URL"@,
        GithubUrlErrorView::InvalidFormat => "Invalid GitHub repository URL format"@,
    }
}

impl GithubUrlError {
    /// The message for this error.
    pub fn message(&self) -> (r: String)
        ensures
            r@ == url_error_message(self@),
    {
        match self {
            GithubUrlError::Parse(m) => m.clone(),
            GithubUrlError::RelativeUrlWithoutBase => "relative URL without a base".to_owned(),
            GithubUrlError::NotGitHub => "Not a GitHub URL".to_owned(),
            GithubUrlError::InvalidFormat => "Invalid GitHub repository URL format".to_owned(),
        }
    }
}

/// The suffix of a repository path that names a bare repository.
pub open spec fn git_suffix() -> Seq<char> {
    seq!['.', 'g', 'i', 't']
}

/// Does `s` end with `suffix`?
pub open spec fn seq_ends_with(s: Seq<char>, suffix: Seq<char>) -> bool {
    suffix.len() <= s.len() && s.subrange(s.len() - suffix.len(), s.len() as int) == suffix
}

/// The HTTPS URL an SSH address `git@github.com:owner/repo[.git]` stands
/// for, if `url` is one.
pub open spec fn ssh_as_https(url: Seq<char>) -> Option<Seq<char>> {
    let prefix = "git@github.com:"@;
    if seq_starts_with(url, prefix) {
        let rest = url.skip(prefix.len() as int);
        let repo = if seq_ends_with(rest, git_suffix()) {
            rest.take(rest.len() - 4)
        } else {
            rest
        };
        Some("https://github.com/"@ + repo)
    } else {
        None
    }
}

/// `s` without its leading slashes.
pub open spec fn trim_leading_slashes(s: Seq<char>) -> Seq<char>
    decreases s.len(),
{
    if s.len() > 0 && s[0] == '/' {
        trim_leading_slashes(s.skip(1))
    } else {
        s
    }
}

/// `s` without any `.git` repeated at its end.
pub open spec fn trim_git_suffixes(s: Seq<char>) -> Seq<char>
    decreases s.len(),
{
    if seq_ends_with(s, git_suffix()) {
        trim_git_suffixes(s.take(s.len() - 4))
    } else {
        s
    }
}

/// The two halves of `s` around its only slash, if it has exactly one.
pub open spec fn split_once_slash(s: Seq<char>) -> Option<(Seq<char>, Seq<char>)> {
    if exists|i: int| 0 <= i < s.len() && s[i] == '/' && forall|j: int| 0 <= j < s.len() && s[j] == '/' ==> j == i {
        let i = choose|i: int| 0 <= i < s.len() && s[i] == '/' && forall|j: int| 0 <= j < s.len() && s[j] == '/' ==> j == i;
        Some((s.take(i), s.skip(i + 1)))
    } else {
        None
    }
}

/// The owner and repository a remote URL names, or why it names none.
pub open spec fn github_repo_of(url: Seq<char>) -> Result<(Seq<char>, Seq<char>), GithubUrlErrorView> {
    let parsed = match url_parse_result(url) {
        Ok(p) => Ok(p),
        Err(e) => match ssh_as_https(url) {
            Some(full) => url_parse_result(full),
            None => Err("relative URL without a base"@),
        },
    };
    match parsed {
        Err(e) => if url_parse_result(url) is Err && ssh_as_https(url) is None {
            Err(GithubUrlErrorView::RelativeUrlWithoutBase)
        } else {
            Err(GithubUrlErrorView::Parse(e))
        },
        Ok(p) => repo_of_parts(p),
    }
}

/// The owner and repository a parsed URL names: its host must be
/// `github.com` and its path, without leading slashes and trailing `.git`,
/// must be `owner/repo`.
pub open spec fn repo_of_parts(p: UrlPartsView) -> Result<(Seq<char>, Seq<char>), GithubUrlErrorView> {
    if p.host != Some("github.com"@) {
        Err(GithubUrlErrorView::NotGitHub)
    } else {
        match split_once_slash(trim_git_suffixes(trim_leading_slashes(p.path))) {
            Some(halves) => Ok(halves),
            None => Err(GithubUrlErrorView::InvalidFormat),
        }
    }
}

/// The halves of `s` around its only slash, if it has exactly one.
fn split_at_only_slash(s: &str) -> (r: Option<(String, String)>)
    ensures
        match r {
            Some((a, b)) => split_once_slash(s@) == Some((a@, b@)),
            None => split_once_slash(s@) is None,
        },
{
    let n = s.unicode_len();
    let mut count: usize = 0;
    let mut pos: usize = 0;
    let mut i: usize = 0;
    while i < n
        invariant
            n == s@.len(),
            i <= n,
            count <= i,
            count == 0 ==> forall|j: int| 0 <= j < i ==> s@[j] != '/',
            count >= 1 ==> pos < i && s@[pos as int] == '/',
            count == 1 ==> forall|j: int| 0 <= j < i && s@[j] == '/' ==> j == pos,
            count >= 2 ==> exists|j: int| 0 <= j < i && s@[j] == '/' && j != pos,
        decreases n - i,
    {
        if s.get_char(i) == '/' {
            if count == 0 {
                pos = i;
            }
            count = count + 1;
        }
        i = i + 1;
    }
    if count == 1 {
        proof {
            assert(0 <= pos < s@.len() && s@[pos as int] == '/' && forall|j: int| 0 <= j < s@.len() && s@[j] == '/' ==> j == pos);
        }
        let a = s.substring_char(0, pos);
        let b = s.substring_char(pos + 1, n);
        proof {
            assert(a@ =~= s@.take(pos as int));
            assert(b@ =~= s@.skip(pos + 1));
        }
        Some((a.to_owned(), b.to_owned()))
    } else {
        proof {
            if exists|k: int| 0 <= k < s@.len() && s@[k] == '/' && forall|j: int| 0 <= j < s@.len() && s@[j] == '/' ==> j == k {
                let k = choose|k: int| 0 <= k < s@.len() && s@[k] == '/' && forall|j: int| 0 <= j < s@.len() && s@[j] == '/' ==> j == k;
                if count >= 2 {
                    let j = choose|j: int| 0 <= j < i && s@[j] == '/' && j != pos;
                    assert(j == k);
                    assert(pos == k);
                }
            }
        }
        None
    }
}

/// `s` without its leading slashes and then without any trailing `.git`.
fn trimmed_repo_path(s: &str) -> (r: &str)
    ensures
        r@ == trim_git_suffixes(trim_leading_slashes(s@)),
{
    let n = s.unicode_len();
    let mut start: usize = 0;
    assert(s@.subrange(0, n as int) =~= s@);
    while start < n && s.get_char(start) == '/'
        invariant
            n == s@.len(),
            start <= n,
            trim_leading_slashes(s@) == trim_leading_slashes(s@.subrange(start as int, n as int)),
        decreases n - start,
    {
        proof {
            let sub = s@.subrange(start as int, n as int);
            assert(sub[0] == '/');
            assert(sub.skip(1) =~= s@.subrange(start + 1, n as int));
        }
        start = start + 1;
    }
    proof {
        let sub = s@.subrange(start as int, n as int);
        assert(trim_leading_slashes(sub) == sub);
    }
    let mut end: usize = n;
    loop
        invariant
            n == s@.len(),
            start <= end <= n,
            trim_git_suffixes(trim_leading_slashes(s@)) == trim_git_suffixes(s@.subrange(start as int, end as int)),
        ensures
            start <= end <= n,
            trim_git_suffixes(trim_leading_slashes(s@)) == s@.subrange(start as int, end as int),
        decreases end - start,
    {
        let sub = s.substring_char(start, end);
        let ends_git = end - start >= 4 && s.get_char(end - 4) == '.' && s.get_char(end - 3) == 'g'
            && s.get_char(end - 2) == 'i' && s.get_char(end - 1) == 't';
        proof {
            let t = s@.subrange(start as int, end as int);
            assert(sub@ == t);
            if t.len() >= 4 {
                let tail = t.subrange(t.len() - 4, t.len() as int);
                assert(tail[0] == s@[end - 4]);
                assert(tail[1] == s@[end - 3]);
                assert(tail[2] == s@[end - 2]);
                assert(tail[3] == s@[end - 1]);
                if ends_git {
                    assert(tail =~= git_suffix());
                } else {
                    assert(tail != git_suffix()) by {
                        if tail == git_suffix() {
                            assert(tail[0] == '.' && tail[1] == 'g' && tail[2] == 'i' && tail[3] == 't');
                        }
                    }
                }
            }
        }
        if ends_git {
            proof {
                let t = s@.subrange(start as int, end as int);
                assert(t.take(t.len() - 4) =~= s@.subrange(start as int, end - 4));
            }
            end = end - 4;
        } else {
            break;
        }
    }
    s.substring_char(start, end)
}

/// The owner and repository named by a GitHub remote URL, HTTPS or SSH.
pub fn parse_github_url(url: &str) -> (r: Result<(String, String), GithubUrlError>)
    ensures
        match r {
            Ok((owner, repo)) => github_repo_of(url@) == Ok::<(Seq<char>, Seq<char>), GithubUrlErrorView>((owner@, repo@)),
            Err(e) => github_repo_of(url@) == Err::<(Seq<char>, Seq<char>), GithubUrlErrorView>(e@),
        },
{
    let parsed = match parse_url(url) {
        Ok(p) => p,
        Err(_) => {
            if str_starts_with(url, "git@github.com:") {
                proof {
                    reveal_strlit("git@github.com:");
                }
                let n = url.unicode_len();
                let ssh_part = url.substring_char(15, n);
                let m = ssh_part.unicode_len();
                let has_git = m >= 4 && ssh_part.get_char(m - 4) == '.' && ssh_part.get_char(m - 3) == 'g'
                    && ssh_part.get_char(m - 2) == 'i' && ssh_part.get_char(m - 1) == 't';
                let repo_part = if has_git {
                    ssh_part.substring_char(0, m - 4)
                } else {
                    ssh_part
                };
                let full = "https://github.com/".to_owned().concat(repo_part);
                proof {
                    let rest = url@.skip(15);
                    assert(ssh_part@ =~= rest);
                    if m >= 4 {
                        let tail = rest.subrange(rest.len() - 4, rest.len() as int);
                        assert(tail[0] == ssh_part@[m - 4]);
                        assert(tail[1] == ssh_part@[m - 3]);
                        assert(tail[2] == ssh_part@[m - 2]);
                        assert(tail[3] == ssh_part@[m - 1]);
                        if has_git {
                            assert(tail =~= git_suffix());
                            assert(repo_part@ =~= rest.take(rest.len() - 4));
                        } else {
                            assert(tail != git_suffix()) by {
                                if tail == git_suffix() {
                                    assert(tail[0] == '.' && tail[1] == 'g' && tail[2] == 'i' && tail[3] == 't');
                                }
                            }
                        }
                    }
                    assert(ssh_as_https(url@) == Some(full@));
                }
                match parse_url(full.as_str()) {
                    Ok(p) => p,
                    Err(e) => {
                        return Err(GithubUrlError::Parse(e));
                    },
                }
            } else {
                return Err(GithubUrlError::RelativeUrlWithoutBase);
            }
        },
    };
    repo_from_parts(&parsed)
}

/// The owner and repository named by the host and path of a parsed URL.
pub fn repo_from_parts(parts: &UrlParts) -> (r: Result<(String, String), GithubUrlError>)
    ensures
        match r {
            Ok((owner, repo)) => repo_of_parts(parts@) == Ok::<(Seq<char>, Seq<char>), GithubUrlErrorView>((owner@, repo@)),
            Err(e) => repo_of_parts(parts@) == Err::<(Seq<char>, Seq<char>), GithubUrlErrorView>(e@),
        },
{
    let on_github = match &parts.host {
        Some(h) => crate::text::str_eq(h.as_str(), "github.com"),
        None => false,
    };
    if !on_github {
        return Err(GithubUrlError::NotGitHub);
    }
    let path = trimmed_repo_path(parts.path.as_str());
    match split_at_only_slash(path) {
        Some(halves) => Ok(halves),
        None => Err(GithubUrlError::InvalidFormat),
    }
}

} // verus!
