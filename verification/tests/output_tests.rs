use git_credit::cli::OutputFormat;
use git_credit::output::{format_number, render, summary_line, Rendering};
use git_credit::stats::{Attribution, CommitReport, Report, Summary};

#[test]
fn format_number_no_separator() {
    assert_eq!(format_number(0), "0");
    assert_eq!(format_number(42), "42");
    assert_eq!(format_number(999), "999");
}

#[test]
fn format_number_with_separators() {
    assert_eq!(format_number(1_000), "1,000");
    assert_eq!(format_number(1_542), "1,542");
    assert_eq!(format_number(1_000_000), "1,000,000");
}

#[test]
fn format_number_extremes() {
    assert_eq!(format_number(u64::MAX), "18,446,744,073,709,551,615");
    assert_eq!(format_number(100_000), "100,000");
    assert_eq!(format_number(1_001), "1,001");
}

#[test]
fn summary_line_text() {
    let s = Summary { total_commits_walked: 20, squash_merges_expanded: 13, bots_excluded: 3 };
    assert_eq!(
        summary_line(2, &s),
        "2 authors (3 bots excluded), 20 commits walked, 13 squash merges expanded"
    );
    let s = Summary { total_commits_walked: 1_500, squash_merges_expanded: 0, bots_excluded: 0 };
    assert_eq!(summary_line(1, &s), "1 authors, 1,500 commits walked, 0 squash merges expanded");
}

fn sample_report() -> Report {
    Report {
        commits: vec![
            CommitReport {
                sha: "c1".into(),
                author_date: "2025-01-01T00:00:00Z".into(),
                is_squash_pr: true,
                attributions: vec![
                    Attribution { name: "Alice".into(), email: "alice@example.com".into(), additions: 1_542, deletions: 389, is_pr_author: true },
                    Attribution { name: "Bob".into(), email: "bob@example.com".into(), additions: 876, deletions: 201, is_pr_author: true },
                ],
                accurate: true,
            },
        ],
        summary: Summary { total_commits_walked: 20, squash_merges_expanded: 13, bots_excluded: 3 },
    }
}

#[test]
fn render_table_rows() {
    let report = sample_report();
    match render(&report, &OutputFormat::Table) {
        Rendering::Table { header, rows, summary } => {
            assert_eq!(header, vec!["Author", "Contributions", "PRs", "+", "-", "Total"]);
            assert_eq!(rows.len(), 2);
            assert_eq!(rows[0], vec!["Alice <alice@example.com>", "1", "1", "1,542", "389", "1,931"]);
            assert_eq!(rows[1], vec!["Bob <bob@example.com>", "1", "1", "876", "201", "1,077"]);
            assert_eq!(summary, "2 authors (3 bots excluded), 20 commits walked, 13 squash merges expanded");
        }
        _ => panic!("expected a table"),
    }
}

#[test]
fn render_empty_and_json() {
    let empty = Report::default();
    match render(&empty, &OutputFormat::Table) {
        Rendering::Message(m) => assert_eq!(m, "No contributions found."),
        _ => panic!("expected the notice"),
    }
    assert!(matches!(render(&sample_report(), &OutputFormat::Json), Rendering::Json));
}
