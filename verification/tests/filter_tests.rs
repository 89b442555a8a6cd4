use git_credit::error::CreditError;
use git_credit::filter::{glob_to_regex, is_regex_meta, ExclusionFilter};
use git_credit::git::FileDelta;

#[test]
fn glob_star_matches_filename() {
    let filter = ExclusionFilter::new(&["*.lock".into()]).unwrap();
    assert!(filter.is_excluded("Cargo.lock"));
    assert!(filter.is_excluded("uv.lock"));
    assert!(!filter.is_excluded("src/main.rs"));
    assert!(!filter.is_excluded("locks/file.txt"));
}

#[test]
fn glob_double_star_matches_nested() {
    let filter = ExclusionFilter::new(&["**/*.generated.rs".into()]).unwrap();
    assert!(filter.is_excluded("src/deep/file.generated.rs"));
    assert!(filter.is_excluded("file.generated.rs"));
    assert!(!filter.is_excluded("src/main.rs"));
}

#[test]
fn glob_directory_prefix() {
    let filter = ExclusionFilter::new(&["docs/*".into()]).unwrap();
    assert!(filter.is_excluded("docs/README.md"));
    assert!(!filter.is_excluded("src/docs/foo"));
}

#[test]
fn glob_question_mark() {
    let filter = ExclusionFilter::new(&["file?.txt".into()]).unwrap();
    assert!(filter.is_excluded("file1.txt"));
    assert!(filter.is_excluded("fileA.txt"));
    assert!(!filter.is_excluded("file10.txt"));
}

#[test]
fn multiple_patterns() {
    let filter = ExclusionFilter::new(&["*.lock".into(), "docs/*".into()]).unwrap();
    assert!(filter.is_excluded("Cargo.lock"));
    assert!(filter.is_excluded("docs/index.html"));
    assert!(!filter.is_excluded("src/main.rs"));
}

#[test]
fn empty_filter_excludes_nothing() {
    let filter = ExclusionFilter::new(&[]).unwrap();
    assert!(filter.is_empty());
    assert!(!filter.is_excluded("anything"));
}

#[test]
fn filter_deltas_removes_excluded() {
    let filter = ExclusionFilter::new(&["*.lock".into()]).unwrap();
    let deltas = vec![
        FileDelta {
            path: "src/main.rs".into(),
            additions: 10,
            deletions: 5,
        },
        FileDelta {
            path: "Cargo.lock".into(),
            additions: 100,
            deletions: 50,
        },
    ];
    let filtered = filter.filter_deltas(deltas);
    assert_eq!(filtered.len(), 1);
    assert_eq!(filtered[0].path, "src/main.rs");
}

#[test]
fn glob_to_regex_forms() {
    assert_eq!(glob_to_regex("*.lock"), "^[^/]*\\.lock$");
    assert_eq!(glob_to_regex("**/*.rs"), "^(.*/)?[^/]*\\.rs$");
    assert_eq!(glob_to_regex("a**b"), "^a.*b$");
    assert_eq!(glob_to_regex("file?.txt"), "^file[^/]\\.txt$");
    assert_eq!(glob_to_regex("(x)+[y]{z}|^$\\"), "^\\(x\\)\\+\\[y\\]\\{z\\}\\|\\^\\$\\\\$");
    assert_eq!(glob_to_regex(""), "^$");
}

#[test]
fn regex_meta_characters() {
    for c in ['\\', '.', '+', '^', '$', '|', '(', ')', '[', ']', '{', '}'] {
        assert!(is_regex_meta(c));
    }
    for c in ['a', '*', '?', '/', '-', '#'] {
        assert!(!is_regex_meta(c));
    }
}

#[test]
fn special_characters_match_literally() {
    let filter = ExclusionFilter::new(&["a+b(c).txt".into()]).unwrap();
    assert!(filter.is_excluded("a+b(c).txt"));
    assert!(!filter.is_excluded("aab(c).txt"));
    assert!(!filter.is_excluded("a+b(c)xtxt"));
}

#[test]
fn filtering_twice_is_filtering_once() {
    let filter = ExclusionFilter::new(&["docs/*".into()]).unwrap();
    let deltas = vec![
        FileDelta { path: "docs/a.md".into(), additions: 1, deletions: 0 },
        FileDelta { path: "src/a.rs".into(), additions: 2, deletions: 0 },
        FileDelta { path: "docs/deep/b.md".into(), additions: 3, deletions: 0 },
    ];
    let once = filter.filter_deltas(deltas);
    let paths: Vec<String> = once.iter().map(|d| d.path.clone()).collect();
    assert_eq!(paths, vec!["src/a.rs".to_string(), "docs/deep/b.md".to_string()]);
    let twice = filter.filter_deltas(once);
    assert_eq!(twice.len(), 2);
}

#[test]
fn empty_filter_keeps_all_deltas() {
    let filter = ExclusionFilter::new(&[]).unwrap();
    let kept = filter.filter_deltas(vec![FileDelta { path: "x".into(), additions: 1, deletions: 1 }]);
    assert_eq!(kept.len(), 1);
}

#[test]
fn oversized_glob_is_rejected() {
    let glob = "?".repeat(200_000);
    match ExclusionFilter::new(&["*.lock".into(), glob.clone()]) {
        Err(CreditError::InvalidGlob { pattern, reason }) => {
            assert_eq!(pattern, glob);
            assert!(reason.starts_with("failed to compile as regex: ^[^/]"));
        }
        Ok(_) => panic!("expected the size limit to refuse the pattern"),
        Err(e) => panic!("unexpected {e:?}"),
    }
}
