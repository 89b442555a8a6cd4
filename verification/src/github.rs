use vstd::prelude::*;

use crate::error::CreditError;
use crate::git::Author;
use crate::numeric::{decimal, push_decimal};
use crate::pattern::{regex_first_capture, regex_first_capture_group};
use crate::text::push_char;

verus! {

// ---------------------------------------------------------------------------
// Data types
// ---------------------------------------------------------------------------

/// Parsed owner/repo from a GitHub remote URL.
#[derive(Debug)]
pub struct RepoSlug {
    pub owner: String,
    pub repo: String,
}

// ---------------------------------------------------------------------------
// Token resolution
// ---------------------------------------------------------------------------

/// The first source that holds a non-empty token.
pub open spec fn first_token(sources: Seq<Option<Seq<char>>>) -> Option<Seq<char>>
    decreases sources.len(),
{
    if sources.len() == 0 {
        None
    } else {
        match sources[0] {
            Some(t) => if t.len() > 0 {
                Some(t)
            } else {
                first_token(sources.drop_first())
            },
            None => first_token(sources.drop_first()),
        }
    }
}

pub open spec fn opt_view(o: Option<&str>) -> Option<Seq<char>> {
    match o {
        Some(s) => Some(s@),
        None => None,
    }
}

fn nonempty(t: Option<&str>) -> (r: bool)
    ensures
        r == (t matches Some(s) && s@.len() > 0),
{
    match t {
        Some(s) => !s.is_empty(),
        None => false,
    }
}

/// Resolve a GitHub token from its four sources, in order of precedence:
/// the flag, `GITHUB_TOKEN`, `GH_TOKEN`, then `gh auth token`; empty values
/// are skipped.
pub fn resolve_token_from_sources(
    flag: Option<&str>,
    github_token_env: Option<&str>,
    gh_token_env: Option<&str>,
    gh_cli_token: Option<&str>,
) -> (r: Option<String>)
    ensures
        match r {
            Some(t) => first_token(seq![opt_view(flag), opt_view(github_token_env), opt_view(gh_token_env), opt_view(gh_cli_token)]) == Some(t@),
            None => first_token(seq![opt_view(flag), opt_view(github_token_env), opt_view(gh_token_env), opt_view(gh_cli_token)]) is None,
        },
{
    let ghost srcs = seq![opt_view(flag), opt_view(github_token_env), opt_view(gh_token_env), opt_view(gh_cli_token)];
    proof {
        reveal_with_fuel(first_token, 5);
        assert(srcs.drop_first() =~= seq![opt_view(github_token_env), opt_view(gh_token_env), opt_view(gh_cli_token)]);
        assert(srcs.drop_first().drop_first() =~= seq![opt_view(gh_token_env), opt_view(gh_cli_token)]);
        assert(srcs.drop_first().drop_first().drop_first() =~= seq![opt_view(gh_cli_token)]);
        assert(srcs.drop_first().drop_first().drop_first().drop_first() =~= Seq::<Option<Seq<char>>>::empty());
    }
    let f = nonempty(flag);
    if f {
        return Some(flag.unwrap().to_string());
    }
    if nonempty(github_token_env) {
        return Some(github_token_env.unwrap().to_string());
    }
    if nonempty(gh_token_env) {
        return Some(gh_token_env.unwrap().to_string());
    }
    if nonempty(gh_cli_token) {
        return Some(gh_cli_token.unwrap().to_string());
    }
    None
}

// ---------------------------------------------------------------------------
// Slug extraction
// ---------------------------------------------------------------------------

/// The regex that recognises a GitHub remote URL and captures owner and repo.
pub const GITHUB_URL_PATTERN: &'static str = "(?:https?://github\\.com/|git@github\\.com:)([^/]+)/([^/.]+?)(?:\\.git)?$";

/// Owner and repo that the GitHub URL regex captures from `url`.
pub open spec fn github_slug_of(url: Seq<char>) -> Option<(Seq<char>, Seq<char>)> {
    match (regex_first_capture(GITHUB_URL_PATTERN@, url, 1), regex_first_capture(GITHUB_URL_PATTERN@, url, 2)) {
        (Some(owner), Some(repo)) => Some((owner, repo)),
        _ => None,
    }
}

/// Parse a GitHub remote URL into owner/repo.
///
/// Supports:
/// - `https://github.com/owner/repo.git`
/// - `https://github.com/owner/repo`
/// - `git@github.com:owner/repo.git`
/// - `git@github.com:owner/repo`
pub fn parse_github_url(url: &str) -> (r: Option<RepoSlug>)
    ensures
        match r {
            Some(slug) => github_slug_of(url@) == Some((slug.owner@, slug.repo@)),
            None => github_slug_of(url@) is None,
        },
{
    let owner = regex_first_capture_group(GITHUB_URL_PATTERN, url, 1);
    let repo = regex_first_capture_group(GITHUB_URL_PATTERN, url, 2);
    match (owner, repo) {
        (Some(owner), Some(repo)) => Some(RepoSlug { owner, repo }),
        _ => None,
    }
}

/// The slug of the `origin` remote whose URL is `url` (`None` when the
/// remote is missing or has no UTF-8 URL).
pub fn slug_from_remote_url(url: Option<&str>) -> (r: Result<RepoSlug, CreditError>)
    ensures
        match r {
            Ok(slug) => url matches Some(u) && github_slug_of(u@) == Some((slug.owner@, slug.repo@)),
            Err(e) => e is NoGitHubRemote && (url matches Some(u) ==> github_slug_of(u@) is None),
        },
{
    match url {
        Some(u) => match parse_github_url(u) {
            Some(slug) => Ok(slug),
            None => Err(CreditError::NoGitHubRemote),
        },
        None => Err(CreditError::NoGitHubRemote),
    }
}

// ---------------------------------------------------------------------------
// GitHub API requests
// ---------------------------------------------------------------------------

/// Commits asked for per page of the PR commit listing.
pub const PR_COMMITS_PER_PAGE: usize = 100;

/// Whether the listing goes on after a page that held `count` commits: a
/// page with fewer than `PR_COMMITS_PER_PAGE` commits is the last.
pub fn has_next_page(count: usize) -> (r: bool)
    ensures
        r == (count >= PR_COMMITS_PER_PAGE),
{
    count >= PR_COMMITS_PER_PAGE
}

/// The author of a listed PR commit: the name and e-mail of its git author,
/// `Unknown` and `unknown` where GitHub gave none.
pub fn pr_commit_author(name: Option<String>, email: Option<String>) -> (r: Author)
    ensures
        r.name@ == match name {
            Some(n) => n@,
            None => "Unknown"@,
        },
        r.email@ == match email {
            Some(e) => e@,
            None => "unknown"@,
        },
{
    Author {
        name: match name {
            Some(n) => n,
            None => "Unknown".to_string(),
        },
        email: match email {
            Some(e) => e,
            None => "unknown".to_string(),
        },
    }
}

fn push_str(out: &mut String, s: &str)
    ensures
        final(out)@ == old(out)@ + s@,
{
    out.append(s);
}

/// `https://api.github.com/repos/{owner}/{repo}{path}`.
pub fn api_url(slug: &RepoSlug, path: &str) -> (r: String)
    ensures
        r@ == "https://api.github.com/repos/"@ + slug.owner@ + seq!['/'] + slug.repo@ + path@,
{
    let mut url = "https://api.github.com/repos/".to_string();
    push_str(&mut url, slug.owner.as_str());
    push_char(&mut url, '/');
    push_str(&mut url, slug.repo.as_str());
    push_str(&mut url, path);
    url
}

/// `/pulls/{pr_number}/commits?per_page=100&page={page}`.
pub fn pr_commits_path(pr_number: u64, page: u32) -> (r: String)
    ensures
        r@ == "/pulls/"@ + decimal(pr_number as nat) + "/commits?per_page=100&page="@ + decimal(page as nat),
{
    let mut path = "/pulls/".to_string();
    push_decimal(&mut path, pr_number);
    push_str(&mut path, "/commits?per_page=100&page=");
    push_decimal(&mut path, page as u64);
    path
}

/// `/commits/{sha}`.
pub fn commit_path(sha: &str) -> (r: String)
    ensures
        r@ == "/commits/"@ + sha@,
{
    let mut path = "/commits/".to_string();
    push_str(&mut path, sha);
    path
}

} // verus!
