use git_credit::git::{Author, FileDelta};
use git_credit::stats::{
    compute_squash_attributions, filter_bots, rollup_by_author, rollup_totals_fit, total_additions,
    total_deletions, Attribution, CommitReport, Report, Summary,
};

fn alice() -> Author {
    Author {
        name: "Alice".into(),
        email: "alice@example.com".into(),
    }
}

fn bob() -> Author {
    Author {
        name: "Bob".into(),
        email: "bob@example.com".into(),
    }
}

fn delta(path: &str, adds: u64, dels: u64) -> FileDelta {
    FileDelta {
        path: path.into(),
        additions: adds,
        deletions: dels,
    }
}

fn commit_with(sha: &str, attributions: Vec<Attribution>) -> CommitReport {
    CommitReport {
        sha: sha.into(),
        author_date: "2025-01-01T00:00:00Z".into(),
        is_squash_pr: false,
        attributions,
        accurate: true,
    }
}

fn direct(name: &str, email: &str, adds: u64, dels: u64) -> Attribution {
    Attribution {
        name: name.into(),
        email: email.into(),
        additions: adds,
        deletions: dels,
        is_pr_author: false,
    }
}

#[test]
fn squash_proportional_two_authors() {
    let pr_deltas = vec![
        (alice(), vec![delta("a.rs", 75, 0)]),
        (bob(), vec![delta("b.rs", 25, 0)]),
    ];
    let squash = vec![delta("merged.rs", 100, 0)];

    let result = compute_squash_attributions(&pr_deltas, &squash);

    let a = result.iter().find(|a| a.name == "Alice").unwrap();
    let b = result.iter().find(|a| a.name == "Bob").unwrap();
    assert_eq!(a.additions, 75);
    assert_eq!(b.additions, 25);
    assert!(a.is_pr_author);
    assert!(b.is_pr_author);
}

#[test]
fn squash_zero_totals_falls_back_to_equal_split() {
    let pr_deltas = vec![
        (alice(), vec![delta("a.rs", 0, 0)]),
        (bob(), vec![delta("b.rs", 0, 0)]),
    ];
    let squash = vec![delta("merged.rs", 10, 4)];

    let result = compute_squash_attributions(&pr_deltas, &squash);
    let a = result.iter().find(|a| a.name == "Alice").unwrap();
    let b = result.iter().find(|a| a.name == "Bob").unwrap();
    assert_eq!(a.additions, 5);
    assert_eq!(b.additions, 5);
    assert_eq!(a.deletions, 2);
    assert_eq!(b.deletions, 2);
}

#[test]
fn squash_same_author_multiple_commits() {
    let pr_deltas = vec![
        (alice(), vec![delta("a.rs", 30, 0)]),
        (alice(), vec![delta("b.rs", 40, 0)]),
        (alice(), vec![delta("c.rs", 30, 0)]),
    ];
    let squash = vec![delta("merged.rs", 100, 0)];

    let result = compute_squash_attributions(&pr_deltas, &squash);
    assert_eq!(result.len(), 1);
    assert_eq!(result[0].additions, 100);
}

#[test]
fn squash_attributions_sorted_by_email() {
    let pr_deltas = vec![
        (bob(), vec![delta("b.rs", 50, 0)]),
        (alice(), vec![delta("a.rs", 50, 0)]),
    ];
    let squash = vec![delta("merged.rs", 100, 0)];
    let result = compute_squash_attributions(&pr_deltas, &squash);
    assert_eq!(result[0].email, "alice@example.com");
    assert_eq!(result[1].email, "bob@example.com");
}

#[test]
fn filter_bots_drops_full_bot_commit() {
    let commit = commit_with(
        "abc",
        vec![direct(
            "dependabot",
            "dependabot[bot]@users.noreply.github.com",
            10,
            0,
        )],
    );
    assert!(filter_bots(commit).is_none());
}

#[test]
fn filter_bots_strips_individual_bot_attributions() {
    let commit = commit_with(
        "abc",
        vec![
            direct("Alice", "alice@example.com", 10, 5),
            direct("bot", "ci[bot]@users.noreply.github.com", 100, 50),
        ],
    );
    let filtered = filter_bots(commit).unwrap();
    assert_eq!(filtered.attributions.len(), 1);
    assert_eq!(filtered.attributions[0].email, "alice@example.com");
}

#[test]
fn filter_bots_passthrough_when_no_bots() {
    let commit = commit_with("abc", vec![direct("Alice", "alice@example.com", 10, 5)]);
    assert!(filter_bots(commit).is_some());
}

#[test]
fn rollup_two_authors_sorted_by_total_desc() {
    let report = Report {
        commits: vec![
            commit_with("c1", vec![direct("Alice", "alice@example.com", 5, 5)]),
            commit_with("c2", vec![direct("Bob", "bob@example.com", 20, 10)]),
        ],
        summary: Summary::default(),
    };
    let rolled = rollup_by_author(&report);
    assert_eq!(rolled[0].name, "Bob");
    assert_eq!(rolled[1].name, "Alice");
}

#[test]
fn rollup_counts_prs_only_when_is_pr_author() {
    let mut commit = commit_with("c1", vec![direct("Alice", "alice@example.com", 10, 0)]);
    commit.attributions[0].is_pr_author = true;
    commit.is_squash_pr = true;
    let report = Report {
        commits: vec![
            commit,
            commit_with("c2", vec![direct("Alice", "alice@example.com", 5, 0)]),
        ],
        summary: Summary::default(),
    };
    let rolled = rollup_by_author(&report);
    assert_eq!(rolled[0].contributions, 2);
    assert_eq!(rolled[0].prs, 1);
    assert_eq!(rolled[0].additions, 15);
}

#[test]
fn squash_rounding_never_exceeds_total() {
    let pr_deltas = vec![
        (alice(), vec![delta("a.rs", 1, 1)]),
        (bob(), vec![delta("b.rs", 1, 1)]),
        (Author { name: "Carol".into(), email: "carol@example.com".into() }, vec![delta("c.rs", 1, 1)]),
    ];
    let squash = vec![delta("merged.rs", 100, 10)];
    let result = compute_squash_attributions(&pr_deltas, &squash);
    let adds: u64 = result.iter().map(|a| a.additions).sum();
    let dels: u64 = result.iter().map(|a| a.deletions).sum();
    assert_eq!(result.iter().map(|a| a.additions).collect::<Vec<_>>(), vec![33, 33, 33]);
    assert_eq!(adds, 99);
    assert!(adds <= 100 && adds > 100 - 3);
    assert_eq!(dels, 9);
    assert!(dels <= 10 && dels > 10 - 3);
}

#[test]
fn squash_single_author_takes_all_lines() {
    let pr_deltas = vec![
        (alice(), vec![delta("a.rs", 3, 1)]),
        (Author { name: "Alice Again".into(), email: "alice@example.com".into() }, vec![delta("b.rs", 4, 9)]),
    ];
    let squash = vec![delta("merged.rs", 77, 13)];
    let result = compute_squash_attributions(&pr_deltas, &squash);
    assert_eq!(result.len(), 1);
    assert_eq!(result[0].name, "Alice");
    assert_eq!(result[0].additions, 77);
    assert_eq!(result[0].deletions, 13);
}

#[test]
fn squash_with_no_pr_commits_attributes_nothing() {
    let result = compute_squash_attributions(&vec![], &vec![delta("m", 5, 5)]);
    assert!(result.is_empty());
}

#[test]
fn rollup_keeps_totals() {
    let mut pr = direct("Alice", "alice@example.com", 7, 1);
    pr.is_pr_author = true;
    let report = Report {
        commits: vec![
            commit_with("c1", vec![direct("Alice", "alice@example.com", 5, 5), direct("Bob", "bob@example.com", 1, 2)]),
            commit_with("c2", vec![pr, direct("Carol", "carol@example.com", 0, 0)]),
        ],
        summary: Summary::default(),
    };
    let rolled = rollup_by_author(&report);
    assert_eq!(rolled.len(), 3);
    assert_eq!(rolled.iter().map(|r| r.additions).sum::<u64>(), 13);
    assert_eq!(rolled.iter().map(|r| r.deletions).sum::<u64>(), 8);
    assert_eq!(rolled.iter().map(|r| r.contributions).sum::<u64>(), 4);
    assert_eq!(rolled.iter().map(|r| r.prs).sum::<u64>(), 1);
    assert_eq!(rolled[0].email, "alice@example.com");
    assert_eq!(rolled[2].email, "carol@example.com");
}

#[test]
fn rollup_keeps_first_name() {
    let report = Report {
        commits: vec![
            commit_with("c1", vec![direct("Alice", "alice@example.com", 1, 0)]),
            commit_with("c2", vec![direct("A. Smith", "alice@example.com", 1, 0)]),
        ],
        summary: Summary::default(),
    };
    let rolled = rollup_by_author(&report);
    assert_eq!(rolled.len(), 1);
    assert_eq!(rolled[0].name, "Alice");
}

#[test]
fn rollup_fit_check() {
    let fits = Report {
        commits: vec![
            commit_with("c1", vec![direct("A", "a@x", u64::MAX, 0)]),
            commit_with("c2", vec![direct("B", "b@x", 1, 0)]),
        ],
        summary: Summary::default(),
    };
    assert!(rollup_totals_fit(&fits));
    let overflows = Report {
        commits: vec![
            commit_with("c1", vec![direct("A", "a@x", u64::MAX, 0)]),
            commit_with("c2", vec![direct("A", "a@x", 0, 1)]),
        ],
        summary: Summary::default(),
    };
    assert!(!rollup_totals_fit(&overflows));
    assert!(rollup_totals_fit(&Report::default()));
}

#[test]
fn filter_bots_twice_is_once() {
    let commit = commit_with(
        "abc",
        vec![direct("Alice", "alice@example.com", 1, 0), direct("bot", "x[bot]@y", 1, 0)],
    );
    let once = filter_bots(commit).unwrap();
    let twice = filter_bots(once).unwrap();
    assert_eq!(twice.attributions.len(), 1);
    assert_eq!(twice.attributions[0].email, "alice@example.com");
}

#[test]
fn line_totals() {
    let d = vec![delta("a", 1, 2), delta("b", 30, 40)];
    assert_eq!(total_additions(&d), 31);
    assert_eq!(total_deletions(&d), 42);
}
