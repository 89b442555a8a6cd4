use git_credit::git::{
    days_from_civil, extract_pr_number, format_utc_iso8601, is_squash_merge,
    parse_date_to_epoch, resolve_author, Author, CommitInfo,
};

#[test]
fn extract_pr_number_standard() {
    assert_eq!(extract_pr_number("feat: add login (#42)"), Some(42));
}

#[test]
fn extract_pr_number_no_match() {
    assert_eq!(extract_pr_number("no pr here"), None);
}

#[test]
fn extract_pr_number_multiple_takes_last() {
    assert_eq!(extract_pr_number("fix: issue (#1) resolved (#2)"), Some(2));
}

#[test]
fn extract_pr_number_non_numeric() {
    assert_eq!(extract_pr_number("(#abc)"), None);
}

#[test]
fn extract_pr_number_multiline_uses_first_line() {
    assert_eq!(
        extract_pr_number("feat: add feature (#10)\n\nCo-authored-by: X"),
        Some(10)
    );
}

fn make_commit(message: &str, parent_count: usize) -> CommitInfo {
    CommitInfo {
        oid: "0000000000000000000000000000000000000000".to_string(),
        author: Author {
            name: "Test".into(),
            email: "test@test.com".into(),
        },
        author_time: 0,
        message: message.into(),
        parent_count,
        deltas: vec![],
    }
}

#[test]
fn is_squash_merge_with_pr() {
    assert_eq!(
        is_squash_merge(&make_commit("feat: add thing (#42)", 1)),
        Some(42)
    );
}

#[test]
fn is_squash_merge_merge_commit() {
    assert_eq!(
        is_squash_merge(&make_commit("Merge pull request #42", 2)),
        None
    );
}

#[test]
fn is_squash_merge_no_pr() {
    assert_eq!(
        is_squash_merge(&make_commit("just a regular commit", 1)),
        None
    );
}

#[test]
fn parse_date_valid() {
    // 2025-01-01 00:00:00 UTC = 1735689600
    let epoch = parse_date_to_epoch("2025-01-01").unwrap();
    assert_eq!(epoch, 1_735_689_600_i64);
}

#[test]
fn parse_date_epoch() {
    let epoch = parse_date_to_epoch("1970-01-01").unwrap();
    assert_eq!(epoch, 0);
}

#[test]
fn parse_date_invalid_format() {
    assert!(parse_date_to_epoch("2025/01/01").is_err());
    assert!(parse_date_to_epoch("not-a-date").is_err());
    assert!(parse_date_to_epoch("2025-13-01").is_err());
    assert!(parse_date_to_epoch("2025-01-32").is_err());
}

#[test]
fn resolve_author_without_mailmap() {
    let author = resolve_author(None, "Alice", "alice@example.com");
    assert_eq!(author.name, "Alice");
    assert_eq!(author.email, "alice@example.com");
}

#[test]
fn format_utc_iso8601_epoch() {
    assert_eq!(format_utc_iso8601(0), "1970-01-01T00:00:00Z");
}

#[test]
fn format_utc_iso8601_round_numbers() {
    // 2025-01-01 00:00:00 UTC = 1735689600 (matches parse_date_valid above).
    assert_eq!(format_utc_iso8601(1_735_689_600), "2025-01-01T00:00:00Z");
}

#[test]
fn format_utc_iso8601_end_of_day() {
    assert_eq!(format_utc_iso8601(1_735_775_999), "2025-01-01T23:59:59Z");
}

#[test]
fn format_utc_iso8601_leap_day() {
    // 2020-02-29 00:00:00 UTC = 1582934400.
    assert_eq!(format_utc_iso8601(1_582_934_400), "2020-02-29T00:00:00Z");
}

#[test]
fn format_utc_iso8601_pre_epoch() {
    // 1969-12-31 00:00:00 UTC = -86400.
    assert_eq!(format_utc_iso8601(-86_400), "1969-12-31T00:00:00Z");
}

#[test]
fn format_utc_iso8601_mid_day() {
    // 2026-04-17 14:23:51 UTC.
    let epoch = days_from_civil(2026, 4, 17) * 86_400 + 14 * 3600 + 23 * 60 + 51;
    assert_eq!(format_utc_iso8601(epoch), "2026-04-17T14:23:51Z");
}

#[test]
fn bot_emails_are_recognised() {
    assert!(git_credit::git::is_bot_email("dependabot[bot]@users.noreply.github.com"));
    assert!(!git_credit::git::is_bot_email("bot@example.com"));
    assert!(!git_credit::git::is_bot_email("[bot]example.com"));
    let a = Author { name: "ci".into(), email: "ci[bot]@x".into() };
    assert!(a.is_bot());
}

#[test]
fn resolve_author_with_mailmap() {
    let mm = git2::Mailmap::from_buffer("Alice New <alice-new@example.com> <alice-old@example.com>\n").unwrap();
    let author = resolve_author(Some(&mm), "Alice Old", "alice-old@example.com");
    assert_eq!(author.name, "Alice New");
    assert_eq!(author.email, "alice-new@example.com");
    let other = resolve_author(Some(&mm), "Bob", "bob@example.com");
    assert_eq!(other.name, "Bob");
    assert_eq!(other.email, "bob@example.com");
}

#[test]
fn parsed_date_formats_back_at_midnight() {
    for date in ["2024-02-29", "1900-03-01", "0001-01-01", "9999-12-31", "1969-12-31"] {
        let epoch = parse_date_to_epoch(date).unwrap();
        assert_eq!(format_utc_iso8601(epoch), format!("{date}T00:00:00Z"));
    }
}

#[test]
fn invalid_date_error_names_input() {
    match parse_date_to_epoch("2025-00-10") {
        Err(git_credit::error::CreditError::InvalidDate { input }) => assert_eq!(input, "2025-00-10"),
        other => panic!("unexpected {other:?}"),
    }
    // Fields are read as integers: signs and missing zero padding are accepted.
    assert_eq!(parse_date_to_epoch("1970-1-2").unwrap(), 86_400);
    assert_eq!(parse_date_to_epoch("+1970-01-01").unwrap(), 0);
    // A day past the end of the month rolls into the next month.
    assert_eq!(parse_date_to_epoch("2025-02-31").unwrap(), parse_date_to_epoch("2025-03-03").unwrap());
    assert!(parse_date_to_epoch("2025-01").is_err());
    assert!(parse_date_to_epoch("2025-01-01-01").is_err());
}

#[test]
fn date_range_check() {
    assert!(git_credit::git::date_epoch_in_range("2025-01-01"));
    assert!(git_credit::git::date_epoch_in_range("not-a-date"));
    assert!(!git_credit::git::date_epoch_in_range("99999999999999-01-01"));
    // A leading minus makes a fourth field: not a date, so nothing to overflow.
    assert!(git_credit::git::date_epoch_in_range("-99999999999999-01-01"));
    assert!(parse_date_to_epoch("-1-01-01").is_err());
}

#[test]
fn civil_conversions() {
    assert_eq!(git_credit::git::civil_from_days(0), (1970, 1, 1));
    assert_eq!(git_credit::git::civil_from_days(-1), (1969, 12, 31));
    assert_eq!(git_credit::git::civil_from_days(11_016), (2000, 2, 29));
    assert_eq!(days_from_civil(2000, 3, 1), 11_017);
    assert_eq!(days_from_civil(1970, 1, 1), 0);
}

#[test]
fn pre_epoch_and_far_years_format() {
    assert_eq!(format_utc_iso8601(-1), "1969-12-31T23:59:59Z");
    assert_eq!(format_utc_iso8601(-62_135_596_800), "0001-01-01T00:00:00Z");
    assert_eq!(format_utc_iso8601(253_402_300_800), "10000-01-01T00:00:00Z");
}

#[test]
fn zero_line_files_are_dropped() {
    let kept = git_credit::git::collect_deltas(vec![
        git_credit::git::FileDelta { path: "a".into(), additions: 0, deletions: 0 },
        git_credit::git::FileDelta { path: "b".into(), additions: 1, deletions: 0 },
        git_credit::git::FileDelta { path: "c".into(), additions: 0, deletions: 2 },
    ]);
    let paths: Vec<&str> = kept.iter().map(|d| d.path.as_str()).collect();
    assert_eq!(paths, vec!["b", "c"]);
}

#[test]
fn walk_window() {
    let opts = git_credit::git::WalkOptions { rev_range: None, since: Some(100) };
    assert!(git_credit::git::commit_in_window(&opts, 100));
    assert!(!git_credit::git::commit_in_window(&opts, 99));
    let all = git_credit::git::WalkOptions { rev_range: None, since: None };
    assert!(git_credit::git::commit_in_window(&all, i64::MIN));
}

#[test]
fn extract_pr_number_edge_cases() {
    assert_eq!(extract_pr_number("huge (#99999999999999999999)"), None);
    assert_eq!(extract_pr_number("(#12) trailing text"), None);
    assert_eq!(extract_pr_number("Revert (#12) partially"), None);
    assert_eq!(extract_pr_number("feat (#12)  "), Some(12));
    assert_eq!(extract_pr_number("feat (#12)\r\nbody"), Some(12));
    assert_eq!(extract_pr_number(""), None);
    assert_eq!(extract_pr_number("\n(#5)"), None);
}

#[test]
fn iso_text_order_is_time_order() {
    let epochs = [
        -62_135_596_800_i64,
        -86_400,
        -1,
        0,
        59,
        60,
        3_599,
        3_600,
        86_399,
        86_400,
        1_582_934_400,
        1_735_689_600,
        1_735_775_999,
        253_402_300_799,
    ];
    for a in epochs {
        for b in epochs {
            assert_eq!(format_utc_iso8601(a) < format_utc_iso8601(b), a < b, "{a} vs {b}");
        }
    }
}

#[test]
fn mailmap_text_is_parsed() {
    let mm = git_credit::git::parse_mailmap("m", "Alice Smith <alice@example.com> <alice-old@example.com>\n").unwrap();
    let a = resolve_author(Some(&mm), "Old", "alice-old@example.com");
    assert_eq!(a.name, "Alice Smith");
    assert_eq!(a.email, "alice@example.com");
    match git_credit::git::parse_mailmap("bad.mailmap", "Alice <a@x.com>\0invalid\n") {
        Err(git_credit::error::CreditError::MailmapParse { path }) => assert_eq!(path, "bad.mailmap"),
        Ok(_) => panic!("expected the text to be refused"),
        Err(e) => panic!("unexpected {e:?}"),
    }
}
