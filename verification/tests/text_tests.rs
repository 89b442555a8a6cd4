use git_credit::git::days_from_civil;
use git_credit::numeric::{decimal_len, parse_i64, parse_u64, push_decimal, push_padded};
use git_credit::text::{chars_less, chars_of, contains_chars, first_line_of, split_chars};

fn chars(s: &str) -> Vec<char> {
    s.chars().collect()
}

#[test]
fn parse_numbers_like_std() {
    assert_eq!(parse_u64("0042"), Some(42));
    assert_eq!(parse_u64("+7"), Some(7));
    assert_eq!(parse_u64("18446744073709551615"), Some(u64::MAX));
    assert_eq!(parse_u64("18446744073709551616"), None);
    assert_eq!(parse_u64("-1"), None);
    assert_eq!(parse_u64(""), None);
    assert_eq!(parse_u64("+"), None);
    assert_eq!(parse_u64("1a"), None);
    assert_eq!(parse_i64("-9223372036854775808"), Some(i64::MIN));
    assert_eq!(parse_i64("9223372036854775807"), Some(i64::MAX));
    assert_eq!(parse_i64("9223372036854775808"), None);
    assert_eq!(parse_i64("-0"), Some(0));
    assert_eq!(parse_i64("-"), None);
    assert_eq!(parse_i64("+-1"), None);
    for s in ["12", "-12", "+12", "007", "-", "", " 1", "99999999999999999999"] {
        assert_eq!(parse_i64(s), s.parse::<i64>().ok());
        assert_eq!(parse_u64(s), s.parse::<u64>().ok());
    }
}

#[test]
fn decimal_writing() {
    let mut s = String::from("n=");
    push_decimal(&mut s, 0);
    push_decimal(&mut s, 1234);
    assert_eq!(s, "n=01234");
    let mut p = String::new();
    push_padded(&mut p, 7, 4);
    push_padded(&mut p, -7, 4);
    push_padded(&mut p, 12345, 2);
    assert_eq!(p, "0007-00712345");
    assert_eq!(p, format!("{:04}{:04}{:02}", 7, -7, 12345));
    assert_eq!(decimal_len(0), 1);
    assert_eq!(decimal_len(9), 1);
    assert_eq!(decimal_len(10), 2);
    assert_eq!(decimal_len(u64::MAX), 20);
}

#[test]
fn splitting_like_std() {
    for s in ["2025-01-02", "-a--b-", "", "abc", "-"] {
        let got: Vec<String> = split_chars(&chars(s), '-')
            .into_iter()
            .map(|v| v.into_iter().collect())
            .collect();
        let want: Vec<String> = s.split('-').map(String::from).collect();
        assert_eq!(got, want);
    }
}

#[test]
fn substring_search() {
    assert!(contains_chars(&chars("abc[bot]@x"), &chars("[bot]@")));
    assert!(contains_chars(&chars("abc"), &chars("")));
    assert!(!contains_chars(&chars("ab"), &chars("abc")));
    assert!(!contains_chars(&chars("[bot]"), &chars("[bot]@")));
}

#[test]
fn first_lines_like_std() {
    for s in ["a\nb", "a\r\nb", "a\r", "", "\nb", "line", "x\r\r\ny"] {
        assert_eq!(first_line_of(s), s.lines().next().unwrap_or(""));
    }
}

#[test]
fn string_order_like_std() {
    let pairs = [("a", "b"), ("ab", "a"), ("", "a"), ("a", "a"), ("2025-01-02", "2025-01-10"), ("é", "z")];
    for (a, b) in pairs {
        assert_eq!(chars_less(&chars_of(a), &chars_of(b)), a < b);
        assert_eq!(chars_less(&chars_of(b), &chars_of(a)), b < a);
    }
}

#[test]
fn calendar_day_counts() {
    // Consecutive years differ by the length of the year.
    assert_eq!(days_from_civil(2001, 1, 1) - days_from_civil(2000, 1, 1), 366);
    assert_eq!(days_from_civil(1901, 1, 1) - days_from_civil(1900, 1, 1), 365);
    assert_eq!(days_from_civil(2025, 1, 1) - days_from_civil(2024, 1, 1), 366);
    // Distinct dates get distinct day numbers.
    assert_ne!(days_from_civil(2024, 2, 29), days_from_civil(2024, 3, 1) - 2);
    assert_eq!(days_from_civil(2024, 3, 1) - days_from_civil(2024, 2, 29), 1);
}
