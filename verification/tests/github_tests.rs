use git_credit::error::CreditError;
use git_credit::github::{
    api_url, commit_path, has_next_page, parse_github_url, pr_commit_author, pr_commits_path,
    resolve_token_from_sources, slug_from_remote_url, RepoSlug,
};

#[test]
fn resolve_token_flag_wins() {
    let token = resolve_token_from_sources(
        Some("flag_token"),
        Some("env_token"),
        Some("gh_token"),
        Some("cli_token"),
    );
    assert_eq!(token.as_deref(), Some("flag_token"));
}

#[test]
fn resolve_token_env_fallback() {
    let token = resolve_token_from_sources(None, Some("env_token"), Some("gh_token"), None);
    assert_eq!(token.as_deref(), Some("env_token"));
}

#[test]
fn resolve_token_gh_env_fallback() {
    let token = resolve_token_from_sources(None, None, Some("gh_token"), None);
    assert_eq!(token.as_deref(), Some("gh_token"));
}

#[test]
fn resolve_token_cli_fallback() {
    let token = resolve_token_from_sources(None, None, None, Some("cli_token"));
    assert_eq!(token.as_deref(), Some("cli_token"));
}

#[test]
fn resolve_token_none() {
    let token = resolve_token_from_sources(None, None, None, None);
    assert!(token.is_none());
}

#[test]
fn resolve_token_skips_empty() {
    let token = resolve_token_from_sources(Some(""), None, Some("gh"), None);
    assert_eq!(token.as_deref(), Some("gh"));
}

#[test]
fn parse_github_https_url() {
    let slug = parse_github_url("https://github.com/owner/repo.git").unwrap();
    assert_eq!(slug.owner, "owner");
    assert_eq!(slug.repo, "repo");
}

#[test]
fn parse_github_https_no_git_suffix() {
    let slug = parse_github_url("https://github.com/owner/repo").unwrap();
    assert_eq!(slug.owner, "owner");
    assert_eq!(slug.repo, "repo");
}

#[test]
fn parse_github_ssh_url() {
    let slug = parse_github_url("git@github.com:owner/repo.git").unwrap();
    assert_eq!(slug.owner, "owner");
    assert_eq!(slug.repo, "repo");
}

#[test]
fn parse_github_ssh_no_git_suffix() {
    let slug = parse_github_url("git@github.com:owner/repo").unwrap();
    assert_eq!(slug.owner, "owner");
    assert_eq!(slug.repo, "repo");
}

#[test]
fn parse_non_github_url() {
    assert!(parse_github_url("https://gitlab.com/owner/repo").is_none());
}

#[test]
fn slug_from_remote() {
    assert!(matches!(slug_from_remote_url(None), Err(CreditError::NoGitHubRemote)));
    assert!(matches!(
        slug_from_remote_url(Some("https://gitlab.com/owner/repo")),
        Err(CreditError::NoGitHubRemote)
    ));
    let slug = slug_from_remote_url(Some("git@github.com:me/tool.git")).unwrap();
    assert_eq!(slug.owner, "me");
    assert_eq!(slug.repo, "tool");
}

#[test]
fn api_paths() {
    let slug = RepoSlug { owner: "o".into(), repo: "r".into() };
    assert_eq!(
        api_url(&slug, &pr_commits_path(42, 3)),
        "https://api.github.com/repos/o/r/pulls/42/commits?per_page=100&page=3"
    );
    assert_eq!(api_url(&slug, &commit_path("abc")), "https://api.github.com/repos/o/r/commits/abc");
    assert!(has_next_page(100));
    assert!(!has_next_page(99));
    let a = pr_commit_author(None, None);
    assert_eq!(a.name, "Unknown");
    assert_eq!(a.email, "unknown");
    let b = pr_commit_author(Some("N".into()), Some("e@x".into()));
    assert_eq!(b.name, "N");
    assert_eq!(b.email, "e@x");
}

#[test]
fn resolve_token_all_empty() {
    assert!(resolve_token_from_sources(Some(""), Some(""), Some(""), Some("")).is_none());
}
