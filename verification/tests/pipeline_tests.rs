use git_credit::error::CreditError;
use git_credit::filter::ExclusionFilter;
use git_credit::git::{Author, CommitInfo, FileDelta};
use git_credit::pipeline::{
    commit_totals_fit, direct_reports, squash_report_fits_check, squash_reports, unexpanded_reports,
    direct_commit_report, exclude_bots, fallback_commit_report, finish_report, is_rate_limit_error,
    line_totals_fit, partition_commits, plan_pr_attribution, resolve_pr_attribution,
    sort_commits, squash_attribution_fits, squash_commit_report, squash_warning,
    tally_squash_outcomes, unexpanded_squash_report, PrAttribution, PrCommitsPlan, SquashOutcome,
};
use git_credit::stats::{Attribution, CommitReport};

fn author(name: &str, email: &str) -> Author {
    Author { name: name.into(), email: email.into() }
}

fn delta(path: &str, adds: u64, dels: u64) -> FileDelta {
    FileDelta { path: path.into(), additions: adds, deletions: dels }
}

fn commit(oid: &str, message: &str, parents: usize, time: i64, deltas: Vec<FileDelta>) -> CommitInfo {
    CommitInfo {
        oid: oid.into(),
        author: author("Merger", "merger@example.com"),
        author_time: time,
        message: message.into(),
        parent_count: parents,
        deltas,
    }
}

fn attribution(name: &str, email: &str, adds: u64, dels: u64) -> Attribution {
    Attribution { name: name.into(), email: email.into(), additions: adds, deletions: dels, is_pr_author: false }
}

fn report(sha: &str, date: &str, attributions: Vec<Attribution>) -> CommitReport {
    CommitReport {
        sha: sha.into(),
        author_date: date.into(),
        is_squash_pr: false,
        attributions,
        accurate: true,
    }
}

#[test]
fn direct_report_counts_kept_lines_only() {
    let filter = ExclusionFilter::new(&["*.lock".into()]).unwrap();
    let c = commit("abc", "fix", 1, 86_400, vec![delta("src/a.rs", 3, 1), delta("Cargo.lock", 50, 40), delta("b.rs", 2, 0)]);
    let r = direct_commit_report(&filter, c);
    assert_eq!(r.sha, "abc");
    assert_eq!(r.author_date, "1970-01-02T00:00:00Z");
    assert!(!r.is_squash_pr);
    assert!(r.accurate);
    assert_eq!(r.attributions.len(), 1);
    assert_eq!(r.attributions[0].email, "merger@example.com");
    assert_eq!(r.attributions[0].additions, 5);
    assert_eq!(r.attributions[0].deletions, 1);
    assert!(!r.attributions[0].is_pr_author);
}

#[test]
fn unexpanded_squash_is_marked_inaccurate() {
    let filter = ExclusionFilter::new(&[]).unwrap();
    let c = commit("def", "feat (#7)", 1, 0, vec![delta("a.rs", 10, 2)]);
    let r = unexpanded_squash_report(&filter, c);
    assert!(!r.accurate);
    assert!(!r.is_squash_pr);
    assert_eq!(r.attributions[0].name, "Merger");
    assert_eq!(r.attributions[0].additions, 10);
    assert_eq!(r.attributions[0].deletions, 2);
}

#[test]
fn fallback_report_uses_given_fields() {
    let r = fallback_commit_report("s".into(), "d".into(), &author("A", "a@x"), &vec![delta("x", 4, 5)]);
    assert_eq!(r.sha, "s");
    assert_eq!(r.author_date, "d");
    assert!(!r.accurate);
    assert_eq!(r.attributions[0].additions, 4);
    assert_eq!(r.attributions[0].deletions, 5);
}

#[test]
fn squash_report_single_author_takes_everything() {
    let filter = ExclusionFilter::new(&[]).unwrap();
    let c = commit("s1", "feat (#9)", 1, 0, vec![delta("a.rs", 10, 4)]);
    let (r, outcome) = squash_commit_report(&filter, c, Ok(PrAttribution::SingleAuthor(author("Alice", "alice@x"))));
    assert_eq!(outcome, SquashOutcome::Expanded);
    assert!(r.is_squash_pr);
    assert!(r.accurate);
    assert_eq!(r.attributions.len(), 1);
    assert_eq!(r.attributions[0].name, "Alice");
    assert_eq!(r.attributions[0].additions, 10);
    assert_eq!(r.attributions[0].deletions, 4);
    assert!(r.attributions[0].is_pr_author);
}

#[test]
fn squash_report_multi_author_splits() {
    let filter = ExclusionFilter::new(&[]).unwrap();
    let c = commit("s2", "feat (#9)", 1, 0, vec![delta("a.rs", 100, 0)]);
    let pr = vec![
        (author("Bob", "bob@x"), vec![delta("b", 1, 0)]),
        (author("Alice", "alice@x"), vec![delta("a", 3, 0)]),
    ];
    let (r, outcome) = squash_commit_report(&filter, c, Ok(PrAttribution::MultiAuthor(pr)));
    assert_eq!(outcome, SquashOutcome::Expanded);
    assert_eq!(r.attributions.len(), 2);
    assert_eq!(r.attributions[0].email, "alice@x");
    assert_eq!(r.attributions[0].additions, 75);
    assert_eq!(r.attributions[1].email, "bob@x");
    assert_eq!(r.attributions[1].additions, 25);
}

#[test]
fn squash_report_falls_back_on_errors() {
    let filter = ExclusionFilter::new(&[]).unwrap();
    let c = commit("s3", "feat (#9)", 1, 0, vec![delta("a.rs", 6, 1)]);
    let (r, outcome) = squash_commit_report(
        &filter,
        c,
        Err(CreditError::GitHubApi { status: 403, body: "limit".into() }),
    );
    assert_eq!(outcome, SquashOutcome::RateLimited);
    assert!(!r.accurate);
    assert!(!r.is_squash_pr);
    assert_eq!(r.attributions[0].email, "merger@example.com");
    let c = commit("s4", "feat (#9)", 1, 0, vec![delta("a.rs", 6, 1)]);
    let (r, outcome) = squash_commit_report(
        &filter,
        c,
        Err(CreditError::GitHubApi { status: 500, body: "boom".into() }),
    );
    assert_eq!(outcome, SquashOutcome::Failed);
    assert!(!r.accurate);
}

#[test]
fn rate_limit_is_a_403() {
    assert!(is_rate_limit_error(&CreditError::GitHubApi { status: 403, body: String::new() }));
    assert!(!is_rate_limit_error(&CreditError::GitHubApi { status: 404, body: String::new() }));
    assert!(!is_rate_limit_error(&CreditError::NoGitHubRemote));
}

#[test]
fn tally_counts_and_warnings() {
    let outcomes = vec![
        SquashOutcome::Expanded,
        SquashOutcome::Failed,
        SquashOutcome::Expanded,
        SquashOutcome::Failed,
    ];
    let tally = tally_squash_outcomes(&outcomes);
    assert_eq!(tally.expanded, 2);
    assert_eq!(tally.api_errors, 2);
    assert!(!tally.rate_limited);
    assert_eq!(tally.first_failure, Some(1));
    assert_eq!(
        squash_warning(&tally).unwrap(),
        "warning: 2 GitHub API errors, PRs fell back to commit-author attribution"
    );

    let outcomes = vec![SquashOutcome::RateLimited, SquashOutcome::Failed, SquashOutcome::RateLimited];
    let tally = tally_squash_outcomes(&outcomes);
    assert_eq!(tally.api_errors, 3);
    assert!(tally.rate_limited);
    assert_eq!(tally.first_failure, None);
    assert_eq!(
        squash_warning(&tally).unwrap(),
        "warning: GitHub API rate limit exceeded, 3 PRs fell back to commit-author attribution"
    );

    let tally = tally_squash_outcomes(&vec![SquashOutcome::Expanded]);
    assert!(squash_warning(&tally).is_none());
}

#[test]
fn partition_separates_squash_candidates() {
    let commits = vec![
        commit("a", "feat: x (#1)", 1, 0, vec![]),
        commit("b", "Merge pull request #2", 2, 0, vec![]),
        commit("c", "plain", 1, 0, vec![]),
        commit("d", "fix (#3)\n\nbody (#4)", 1, 0, vec![]),
    ];
    let (regular, squash) = partition_commits(commits);
    assert_eq!(regular.iter().map(|c| c.oid.as_str()).collect::<Vec<_>>(), vec!["b", "c"]);
    assert_eq!(squash.iter().map(|(c, n)| (c.oid.as_str(), *n)).collect::<Vec<_>>(), vec![("a", 1), ("d", 3)]);
}

#[test]
fn plan_pr_attribution_cases() {
    match plan_pr_attribution(vec![]) {
        PrCommitsPlan::Single(a) => {
            assert_eq!(a.name, "Unknown");
            assert_eq!(a.email, "unknown");
        }
        PrCommitsPlan::FetchFiles(_) => panic!("expected a single author"),
    }
    match plan_pr_attribution(vec![(author("A1", "a@x"), "1".into()), (author("A2", "a@x"), "2".into())]) {
        PrCommitsPlan::Single(a) => assert_eq!(a.name, "A1"),
        PrCommitsPlan::FetchFiles(_) => panic!("expected a single author"),
    }
    match plan_pr_attribution(vec![(author("A", "a@x"), "1".into()), (author("B", "b@x"), "2".into())]) {
        PrCommitsPlan::Single(_) => panic!("expected file fetches"),
        PrCommitsPlan::FetchFiles(v) => {
            assert_eq!(v.len(), 2);
            assert_eq!(v[1].1, "2");
        }
    }
}

#[test]
fn resolve_pr_attribution_without_mailmap_keeps_authors() {
    match resolve_pr_attribution(None, PrAttribution::MultiAuthor(vec![(author("A", "a@x"), vec![delta("f", 1, 2)])])) {
        PrAttribution::MultiAuthor(v) => {
            assert_eq!(v[0].0.email, "a@x");
            assert_eq!(v[0].1[0].deletions, 2);
        }
        PrAttribution::SingleAuthor(_) => panic!("kind changed"),
    }
}

#[test]
fn overflow_checks() {
    assert!(line_totals_fit(&vec![delta("a", u64::MAX, 0)]));
    assert!(!line_totals_fit(&vec![delta("a", u64::MAX, 0), delta("b", 1, 0)]));
    let pr = vec![(author("A", "a@x"), vec![delta("a", 1 << 40, 0)])];
    assert!(squash_attribution_fits(&pr, &vec![delta("m", 1 << 20, 0)]));
    assert!(!squash_attribution_fits(&pr, &vec![delta("m", 1 << 30, 0)]));
}

#[test]
fn sort_commits_by_date_then_sha() {
    let sorted = sort_commits(vec![
        report("b", "2025-01-02T00:00:00Z", vec![]),
        report("c", "2025-01-01T00:00:00Z", vec![]),
        report("a", "2025-01-02T00:00:00Z", vec![]),
    ]);
    let shas: Vec<&str> = sorted.iter().map(|c| c.sha.as_str()).collect();
    assert_eq!(shas, vec!["c", "a", "b"]);
}

#[test]
fn exclude_bots_counts_distinct_bot_emails() {
    let (kept, bots) = exclude_bots(vec![
        report("1", "d", vec![attribution("bot", "ci[bot]@x", 1, 0)]),
        report("2", "d", vec![attribution("A", "a@x", 1, 0), attribution("bot", "ci[bot]@x", 1, 0)]),
        report("3", "d", vec![attribution("dep", "dep[bot]@x", 1, 0)]),
    ]);
    assert_eq!(bots, 2);
    assert_eq!(kept.len(), 1);
    assert_eq!(kept[0].sha, "2");
    assert_eq!(kept[0].attributions.len(), 1);
}

#[test]
fn finish_report_summarizes_and_orders() {
    let emitted = vec![
        report("z", "2025-01-03T00:00:00Z", vec![attribution("A", "a@x", 1, 0)]),
        report("y", "2025-01-01T00:00:00Z", vec![attribution("bot", "ci[bot]@x", 1, 0)]),
        report("x", "2025-01-02T00:00:00Z", vec![attribution("B", "b@x", 1, 0)]),
    ];
    let r = finish_report(emitted, 4, false);
    assert_eq!(r.summary.total_commits_walked, 3);
    assert_eq!(r.summary.squash_merges_expanded, 4);
    assert_eq!(r.summary.bots_excluded, 1);
    let shas: Vec<&str> = r.commits.iter().map(|c| c.sha.as_str()).collect();
    assert_eq!(shas, vec!["x", "z"]);

    let emitted = vec![
        report("z", "2025-01-03T00:00:00Z", vec![attribution("A", "a@x", 1, 0)]),
        report("y", "2025-01-01T00:00:00Z", vec![attribution("bot", "ci[bot]@x", 1, 0)]),
    ];
    let r = finish_report(emitted, 0, true);
    assert_eq!(r.summary.bots_excluded, 0);
    let shas: Vec<&str> = r.commits.iter().map(|c| c.sha.as_str()).collect();
    assert_eq!(shas, vec!["y", "z"]);
}

#[test]
fn batch_reports_keep_order() {
    let filter = ExclusionFilter::new(&["*.md".into()]).unwrap();
    let regular = vec![
        commit("r1", "a", 1, 0, vec![delta("x.rs", 1, 0), delta("README.md", 9, 9)]),
        commit("r2", "b", 0, 86_400, vec![delta("y.rs", 2, 3)]),
    ];
    assert!(regular.iter().all(|c| commit_totals_fit(&filter, c)));
    let reports = direct_reports(&filter, regular);
    assert_eq!(reports.iter().map(|r| r.sha.as_str()).collect::<Vec<_>>(), vec!["r1", "r2"]);
    assert_eq!(reports[0].attributions[0].additions, 1);
    assert_eq!(reports[1].attributions[0].deletions, 3);
    assert!(reports.iter().all(|r| r.accurate && !r.is_squash_pr));

    let merges = vec![(commit("m1", "x (#1)", 1, 0, vec![delta("z.rs", 4, 4)]), 1)];
    let reports = unexpanded_reports(&filter, merges);
    assert_eq!(reports.len(), 1);
    assert!(!reports[0].accurate);
}

#[test]
fn batch_squash_reports() {
    let filter = ExclusionFilter::new(&[]).unwrap();
    let merges = vec![
        (commit("m1", "x (#1)", 1, 0, vec![delta("a", 10, 0)]), 1),
        (commit("m2", "y (#2)", 1, 0, vec![delta("b", 5, 5)]), 2),
        (commit("m3", "z (#3)", 1, 0, vec![delta("c", 1, 1)]), 3),
    ];
    let results = vec![
        Ok(PrAttribution::SingleAuthor(author("Alice", "alice@x"))),
        Err(CreditError::GitHubApi { status: 403, body: "limit".into() }),
        Ok(PrAttribution::MultiAuthor(vec![
            (author("A", "a@x"), vec![delta("p", 1, 1)]),
            (author("B", "b@x"), vec![delta("q", 1, 1)]),
        ])),
    ];
    for ((c, _), r) in merges.iter().zip(&results) {
        assert!(squash_report_fits_check(&filter, c, r));
    }
    let (reports, outcomes) = squash_reports(&filter, merges, results);
    assert_eq!(outcomes, vec![SquashOutcome::Expanded, SquashOutcome::RateLimited, SquashOutcome::Expanded]);
    assert_eq!(reports[0].attributions[0].email, "alice@x");
    assert!(!reports[1].accurate);
    assert_eq!(reports[2].attributions.len(), 2);
    assert_eq!(reports[2].attributions[0].additions, 0);
    assert_eq!(reports[2].sha, "m3");
}

#[test]
fn squash_fit_check_rejects_overflow() {
    let filter = ExclusionFilter::new(&[]).unwrap();
    let c = commit("m", "x (#1)", 1, 0, vec![delta("a", 1 << 40, 0)]);
    let ok: Result<PrAttribution, CreditError> = Ok(PrAttribution::SingleAuthor(author("A", "a@x")));
    assert!(squash_report_fits_check(&filter, &c, &ok));
    let multi: Result<PrAttribution, CreditError> = Ok(PrAttribution::MultiAuthor(vec![
        (author("A", "a@x"), vec![delta("p", 1 << 30, 0)]),
        (author("B", "b@x"), vec![delta("q", 1, 0)]),
    ]));
    assert!(!squash_report_fits_check(&filter, &c, &multi));
    let big = commit("m", "x (#1)", 1, 0, vec![delta("a", u64::MAX, 0), delta("b", 1, 0)]);
    assert!(!commit_totals_fit(&filter, &big));
    assert!(!squash_report_fits_check(&filter, &big, &ok));
}

#[test]
fn sort_commits_is_stable() {
    let mut first = report("a", "2025-01-01T00:00:00Z", vec![]);
    first.accurate = false;
    let second = report("a", "2025-01-01T00:00:00Z", vec![]);
    let earlier = report("b", "2024-12-31T00:00:00Z", vec![]);
    let sorted = sort_commits(vec![first, earlier, second]);
    assert_eq!(sorted[0].sha, "b");
    assert!(!sorted[1].accurate);
    assert!(sorted[2].accurate);
}

#[test]
fn skipped_lookups_count_as_rate_limited() {
    let e = git_credit::pipeline::skipped_lookup_error();
    assert!(is_rate_limit_error(&e));
    match e {
        CreditError::GitHubApi { status, body } => {
            assert_eq!(status, 403);
            assert_eq!(body, "rate limit exceeded (skipped)");
        }
        other => panic!("unexpected {other:?}"),
    }
}

#[test]
fn one_more_exclusion_never_raises_lines() {
    let deltas = vec![delta("a.rs", 5, 1), delta("data.lock", 40, 2), delta("docs/x.md", 3, 3)];
    let c1 = commit("c", "m", 1, 0, deltas.clone());
    let c2 = commit("c", "m", 1, 0, deltas);
    let one = ExclusionFilter::new(&["docs/*".into()]).unwrap();
    let two = ExclusionFilter::new(&["docs/*".into(), "data.lock".into()]).unwrap();
    let r1 = direct_commit_report(&one, c1);
    let r2 = direct_commit_report(&two, c2);
    assert_eq!(r1.attributions[0].additions, 45);
    assert_eq!(r2.attributions[0].additions, 5);
    assert!(r2.attributions[0].deletions <= r1.attributions[0].deletions);
}

#[test]
fn one_more_exclusion_never_raises_run_lines() {
    fn run_totals(globs: &[String], include_bots: bool) -> (u64, u64) {
        let filter = ExclusionFilter::new(globs).unwrap();
        let regular = vec![
            commit("r1", "a", 1, 0, vec![delta("src/a.rs", 5, 1), delta("data.lock", 40, 2)]),
            commit("r2", "b", 1, 86_400, vec![delta("docs/x.md", 3, 3)]),
        ];
        let merges = vec![(commit("m1", "x (#1)", 1, 10, vec![delta("data.lock", 9, 9), delta("m.rs", 6, 0)]), 1)];
        let results = vec![Ok(PrAttribution::MultiAuthor(vec![
            (author("A", "a@x"), vec![delta("p", 1, 1)]),
            (author("B", "b@x"), vec![delta("q", 2, 1)]),
        ]))];
        let mut emitted = direct_reports(&filter, regular);
        let (reports, _) = squash_reports(&filter, merges, results);
        emitted.extend(reports);
        let report = finish_report(emitted, 1, include_bots);
        let adds = report.commits.iter().flat_map(|c| c.attributions.iter()).map(|a| a.additions).sum();
        let dels = report.commits.iter().flat_map(|c| c.attributions.iter()).map(|a| a.deletions).sum();
        (adds, dels)
    }
    for bots in [false, true] {
        let (a1, d1) = run_totals(&["docs/*".into()], bots);
        let (a2, d2) = run_totals(&["docs/*".into(), "data.lock".into()], bots);
        assert!(a2 < a1);
        assert!(d2 <= d1);
    }
}
