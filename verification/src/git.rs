use vstd::prelude::*;

use crate::calendar::{
    civil_of_day, epoch_day, lemma_epoch_day_injective, lemma_epoch_day_ordered, era_year_start, is_valid_date, lemma_civil_of_day, lemma_era_civil,
    lemma_epoch_day_march, lemma_march_count_era, lemma_month_index, lemma_yoe, march_offset,
};
use crate::error::CreditError;
use crate::numeric::{decimal, fixed_digits, is_ascii_digit, lemma_fixed_order, lemma_parse_padded, lemma_zero_pad_fixed, padded_decimal, pow10, parse_i64_chars, push_padded, spec_parse_i64};
use crate::numeric::{parse_u64, spec_parse_u64};
use crate::pattern::{regex_last_capture, regex_last_capture_group};
use crate::text::{chars_of, contains_chars, contains_seq, first_line, first_line_of, lemma_lex_concat, lemma_lex_irreflexive, lemma_split_three, lex_lt, push_char, split_char, split_chars};

verus! {

// ---------------------------------------------------------------------------
// Data types
// ---------------------------------------------------------------------------

/// Identifies a commit author.
#[derive(Debug, Clone, PartialEq, Eq, Hash)]
pub struct Author {
    pub name: String,
    pub email: String,
}

/// The marker that GitHub puts in the e-mail address of bot accounts.
pub open spec fn bot_marker() -> Seq<char> {
    seq!['[', 'b', 'o', 't', ']', '@']
}

/// Whether `email` belongs to a bot account: it contains `[bot]@`.
pub open spec fn is_bot_address(email: Seq<char>) -> bool {
    contains_seq(email, bot_marker())
}

impl Author {
    pub fn is_bot(&self) -> (r: bool)
        ensures
            r == is_bot_address(self.email@),
    {
        is_bot_email(&self.email)
    }
}

pub fn is_bot_email(email: &str) -> (r: bool)
    ensures
        r == is_bot_address(email@),
{
    let hay = chars_of(email);
    let mut needle: Vec<char> = Vec::new();
    needle.push('[');
    needle.push('b');
    needle.push('o');
    needle.push('t');
    needle.push(']');
    needle.push('@');
    assert(needle@ =~= bot_marker());
    contains_chars(&hay, &needle)
}

/// A single file change in a diff.
#[derive(Debug, Clone)]
pub struct FileDelta {
    pub path: String,
    pub additions: u64,
    pub deletions: u64,
}

/// A processed commit with its diff stats.
#[derive(Debug)]
pub struct CommitInfo {
    /// Full hexadecimal object id.
    pub oid: String,
    pub author: Author,
    /// Author time in epoch seconds (UTC), from `commit.author().when()`.
    /// Distinct from committer time — matches what `git log --format='%aI'` shows.
    pub author_time: i64,
    pub message: String,
    pub parent_count: usize,
    pub deltas: Vec<FileDelta>,
}

/// Options controlling the commit walk.
pub struct WalkOptions {
    pub rev_range: Option<String>,
    pub since: Option<i64>,
}

// ---------------------------------------------------------------------------
// Mailmap resolution
// ---------------------------------------------------------------------------

#[verifier::external_type_specification]
#[verifier::external_body]
pub struct ExMailmap(git2::Mailmap);

/// What the mailmap `m` holds, seen as what it does to every (name, e-mail)
/// signature: for each pair, `None` where `git2::Signature::new` or
/// `git2::Mailmap::resolve_signature` refuses it, else the resolved
/// signature's name and e-mail, each `None` when it is not UTF-8.
pub uninterp spec fn mailmap_entries(m: git2::Mailmap) -> Map<(Seq<char>, Seq<char>), Option<(Option<Seq<char>>, Option<Seq<char>>)>>;

/// The view of a lookup's outcome.
pub open spec fn resolution_view(r: Option<(Option<String>, Option<String>)>) -> Option<(Option<Seq<char>>, Option<Seq<char>>)> {
    match r {
        Some((n, e)) => Some((
            match n {
                Some(x) => Some(x@),
                None => None,
            },
            match e {
                Some(x) => Some(x@),
                None => None,
            },
        )),
        None => None,
    }
}

/// Builds `git2::Signature::new(name, email, &git2::Time::new(0, 0))`,
/// resolves it with `git2::Mailmap::resolve_signature` and reads back
/// `git2::Signature::name` and `email` (owned), errors dropped. Claims only
/// that the outcome is what `mailmap_entries` holds for the pair; nothing is
/// said of what the mailmap holds.
#[verifier::external_body]
fn mailmap_lookup(mailmap: &git2::Mailmap, name: &str, email: &str) -> (r: Option<(Option<String>, Option<String>)>)
    ensures
        resolution_view(r) == mailmap_entries(*mailmap)[(name@, email@)],
{
    let sig = git2::Signature::new(name, email, &git2::Time::new(0, 0)).ok()?;
    let out = mailmap.resolve_signature(&sig).ok()?;
    Some((out.name().map(|s| s.to_string()), out.email().map(|s| s.to_string())))
}

/// What `git2::Mailmap::from_buffer` makes of the text `text`: `None` when it
/// refuses the text, else what the mailmap it builds holds (in the sense of
/// `mailmap_entries`).
pub uninterp spec fn mailmap_of_text(text: Seq<char>) -> Option<Map<(Seq<char>, Seq<char>), Option<(Option<Seq<char>>, Option<Seq<char>>)>>>;

/// `git2::Mailmap::from_buffer(text)`, its error dropped. Claims that it
/// succeeds exactly when `mailmap_of_text(text)` is some table, and that the
/// mailmap then holds that table.
#[verifier::external_body]
fn mailmap_from_buffer(text: &str) -> (r: Option<git2::Mailmap>)
    ensures
        match (r, mailmap_of_text(text@)) {
            (Some(m), Some(t)) => mailmap_entries(m) == t,
            (None, None) => true,
            _ => false,
        },
{
    git2::Mailmap::from_buffer(text).ok()
}

/// The mailmap in the text `content` of the file at `path`; a text that
/// libgit2 refuses is a `MailmapParse` error naming the file.
pub fn parse_mailmap(path: &str, content: &str) -> (r: Result<git2::Mailmap, CreditError>)
    ensures
        match r {
            Ok(m) => mailmap_of_text(content@) == Some(mailmap_entries(m)),
            Err(e) => mailmap_of_text(content@) is None && (e matches CreditError::MailmapParse { path: p } && p@ == path@),
        },
{
    match mailmap_from_buffer(content) {
        Some(m) => Ok(m),
        None => Err(CreditError::MailmapParse { path: path.to_string() }),
    }
}

/// The (name, e-mail) that resolving `name` and `email` through `mailmap`
/// gives: the mailmap's answer field by field, the given value where there
/// is no mailmap, the lookup failed or a field did not come back.
pub open spec fn resolved_author(mailmap: Option<&git2::Mailmap>, name: Seq<char>, email: Seq<char>) -> (Seq<char>, Seq<char>) {
    match mailmap {
        Some(m) => match mailmap_entries(*m)[(name, email)] {
            Some((n, e)) => (
                match n {
                    Some(x) => x,
                    None => name,
                },
                match e {
                    Some(x) => x,
                    None => email,
                },
            ),
            None => (name, email),
        },
        None => (name, email),
    }
}

/// The author that a mailmap lookup yields: `resolved` is the looked-up
/// (name, e-mail) pair, `None` when there was no mailmap or the lookup
/// failed; a field that did not come back keeps the value given.
pub fn author_from_resolution(name: &str, email: &str, resolved: Option<(Option<String>, Option<String>)>) -> (r: Author)
    ensures
        r.name@ == match resolved {
            Some((Some(n), _)) => n@,
            _ => name@,
        },
        r.email@ == match resolved {
            Some((_, Some(e))) => e@,
            _ => email@,
        },
{
    match resolved {
        Some((resolved_name, resolved_email)) => Author {
            name: match resolved_name {
                Some(n) => n,
                None => name.to_string(),
            },
            email: match resolved_email {
                Some(e) => e,
                None => email.to_string(),
            },
        },
        None => Author { name: name.to_string(), email: email.to_string() },
    }
}

/// Resolve an author through a mailmap, falling back to the given
/// name/email when no mailmap is provided or resolution fails.
pub fn resolve_author(mailmap: Option<&git2::Mailmap>, name: &str, email: &str) -> (r: Author)
    ensures
        (r.name@, r.email@) == resolved_author(mailmap, name@, email@),
        mailmap is None ==> r.name@ == name@ && r.email@ == email@,
{
    let resolved = match mailmap {
        Some(mm) => mailmap_lookup(mm, name, email),
        None => None,
    };
    author_from_resolution(name, email, resolved)
}

// ---------------------------------------------------------------------------
// Commit selection and squash-merge detection
// ---------------------------------------------------------------------------

/// Whether a commit authored at `author_time` is kept by the walk: commits
/// older than `since` are skipped.
pub fn commit_in_window(opts: &WalkOptions, author_time: i64) -> (r: bool)
    ensures
        r == match opts.since {
            Some(since) => author_time >= since,
            None => true,
        },
{
    match opts.since {
        Some(since) => author_time >= since,
        None => true,
    }
}

/// Whether a file's patch adds or removes at least one line.
pub open spec fn changes_lines(d: FileDelta) -> bool {
    d.additions > 0 || d.deletions > 0
}

/// The deltas of `s` that change lines, in their order.
pub open spec fn changed_deltas(s: Seq<FileDelta>) -> Seq<FileDelta>
    decreases s.len(),
{
    if s.len() == 0 {
        Seq::empty()
    } else if changes_lines(s.last()) {
        changed_deltas(s.drop_last()).push(s.last())
    } else {
        changed_deltas(s.drop_last())
    }
}

/// The per-file stats that a diff contributes: files whose patch neither adds
/// nor removes a line are left out; the others keep their order.
pub fn collect_deltas(raw: Vec<FileDelta>) -> (r: Vec<FileDelta>)
    ensures
        r@ == changed_deltas(raw@),
{
    let mut out: Vec<FileDelta> = Vec::new();
    let n = raw.len();
    let mut i: usize = 0;
    while i < n
        invariant
            n == raw@.len(),
            i <= n,
            out@ == changed_deltas(raw@.take(i as int)),
        decreases n - i,
    {
        let d = &raw[i];
        assert(raw@.take(i + 1).drop_last() =~= raw@.take(i as int));
        assert(raw@.take(i + 1).last() == raw@[i as int]);
        if d.additions > 0 || d.deletions > 0 {
            out.push(FileDelta { path: d.path.clone(), additions: d.additions, deletions: d.deletions });
        }
        i = i + 1;
    }
    assert(raw@.take(n as int) =~= raw@);
    out
}

/// The regex that finds a `(#NNN)` pull-request reference ending the text
/// (only whitespace may follow it).
pub const PR_NUMBER_PATTERN: &'static str = "\\(#(\\d+)\\)\\s*$";

/// The PR number that the first line of `message` names, as
/// `extract_pr_number` computes it: the digits of the `(#NNN)` reference
/// that ends that line (trailing whitespace aside), read as `u64`.
pub open spec fn pr_number_of(message: Seq<char>) -> Option<u64> {
    match regex_last_capture(PR_NUMBER_PATTERN@, first_line(message), 1) {
        Some(digits) => spec_parse_u64(digits),
        None => None,
    }
}

/// Extract a PR number from a commit message if its first line ends with
/// `(#NNN)` (trailing whitespace aside): the digits, read as `u64`.
pub fn extract_pr_number(message: &str) -> (r: Option<u64>)
    ensures
        r == pr_number_of(message@),
{
    let line = first_line_of(message);
    match regex_last_capture_group(PR_NUMBER_PATTERN, line.as_str(), 1) {
        Some(digits) => parse_u64(digits.as_str()),
        None => None,
    }
}

/// The PR number is the value of the digits that the pattern captures on the
/// first line, with no bound but `u64`'s: when the capture is the decimal
/// notation of any `n`, the number is `n`.
pub proof fn lemma_pr_number_is_captured_value(message: Seq<char>, n: u64)
    requires
        regex_last_capture(PR_NUMBER_PATTERN@, first_line(message), 1) == Some(decimal(n as nat)),
    ensures
        pr_number_of(message) == Some(n),
{
    crate::numeric::lemma_decimal_digits(n as nat);
    let d = decimal(n as nat);
    assert(is_ascii_digit(d[0]));
    assert(crate::numeric::unsigned_body(d) == d);
}

/// Whatever digits the pattern captures, the PR number is their value when
/// it fits `u64`, and there is none otherwise.
pub proof fn lemma_pr_number_reads_capture(message: Seq<char>, digits: Seq<char>)
    requires
        regex_last_capture(PR_NUMBER_PATTERN@, first_line(message), 1) == Some(digits),
        digits.len() > 0,
        crate::numeric::all_ascii_digits(digits),
    ensures
        crate::numeric::digits_value(digits) <= u64::MAX ==> pr_number_of(message) == Some(crate::numeric::digits_value(digits) as u64),
        crate::numeric::digits_value(digits) > u64::MAX ==> pr_number_of(message) is None,
{
    assert(is_ascii_digit(digits[0]));
    assert(crate::numeric::unsigned_body(digits) == digits);
}

/// Determine if a commit is a squash-merge candidate.
/// Returns the PR number if the commit has exactly one parent and the first
/// line of its message ends with a `(#NNN)` reference.
pub fn is_squash_merge(commit: &CommitInfo) -> (r: Option<u64>)
    ensures
        r == if commit.parent_count == 1 { pr_number_of(commit.message@) } else { None },
{
    if commit.parent_count == 1 {
        extract_pr_number(&commit.message)
    } else {
        None
    }
}

// ---------------------------------------------------------------------------
// Dates
// ---------------------------------------------------------------------------

/// The intermediate values of `days_from_civil` all fit in `i64`.
pub open spec fn civil_days_fit(y: int, m: int, d: int) -> bool {
    let yr = if m <= 2 { y - 1 } else { y };
    let mp = if m > 2 { m - 3 } else { m + 9 };
    let doy = march_offset(mp) + d - 1;
    let doe = era_year_start(yr % 400) + doy;
    let base = (yr / 400) * 146097;
    &&& i64::MIN <= yr
    &&& i64::MIN <= march_offset(mp) + d <= i64::MAX
    &&& i64::MIN <= doy <= i64::MAX
    &&& i64::MIN <= doe <= i64::MAX
    &&& i64::MIN <= base <= i64::MAX
    &&& i64::MIN <= base + doe <= i64::MAX
    &&& i64::MIN <= base + doe - 719468 <= i64::MAX
}

/// Days since 1970-01-01 of the date `year-month-day` (day may run past the
/// end of the month, counting on into the next).
pub fn days_from_civil(year: i64, month: i64, day: i64) -> (r: i64)
    requires
        1 <= month <= 12,
        civil_days_fit(year as int, month as int, day as int),
    ensures
        r == epoch_day(year as int, month as int, day as int),
{
    let yr = if month <= 2 { year - 1 } else { year };
    let era = yr.checked_div_euclid(400).unwrap();
    let year_of_era = yr.checked_rem_euclid(400).unwrap();
    let mp = if month > 2 { month - 3 } else { month + 9 };
    let day_of_year = (153 * mp + 2) / 5 + day - 1;
    let day_of_era = year_of_era * 365 + year_of_era / 4 - year_of_era / 100 + day_of_year;
    proof {
        lemma_epoch_day_march(year as int, month as int, day as int);
        lemma_march_count_era(yr as int);
    }
    era * 146_097 + day_of_era - 719_468
}

/// The calendar date of the day `days` after 1970-01-01.
pub fn civil_from_days(days: i64) -> (r: (i64, i64, i64))
    requires
        days <= i64::MAX - 719_468,
    ensures
        is_valid_date(r.0 as int, r.1 as int, r.2 as int),
        epoch_day(r.0 as int, r.1 as int, r.2 as int) == days,
        (r.0 as int, r.1 as int, r.2 as int) == civil_of_day(days as int),
{
    let z = days + 719_468;
    let era = z.checked_div_euclid(146_097).unwrap();
    let day_of_era = z.checked_rem_euclid(146_097).unwrap();
    proof {
        lemma_yoe(day_of_era as int);
        lemma_civil_of_day(days as int);
    }
    let year_of_era = (day_of_era - day_of_era / 1460 + day_of_era / 36_524 - day_of_era / 146_096) / 365;
    let yr = year_of_era + era * 400;
    let day_of_year = day_of_era - (365 * year_of_era + year_of_era / 4 - year_of_era / 100);
    proof {
        lemma_month_index(day_of_year as int);
    }
    let mp = (5 * day_of_year + 2) / 153;
    let day = day_of_year - (153 * mp + 2) / 5 + 1;
    let month = if mp < 10 { mp + 3 } else { mp - 9 };
    let year = if month <= 2 { yr + 1 } else { yr };
    proof {
        lemma_era_civil(days as int);
    }
    (year, month, day)
}

/// Date and time-of-day fields of the UTC time `epoch`:
/// (year, month, day, hour, minute, second).
pub open spec fn clock_fields(epoch: int) -> (int, int, int, int, int, int) {
    let days = epoch / 86400;
    let sod = epoch % 86400;
    let c = civil_of_day(days);
    (c.0, c.1, c.2, sod / 3600, (sod % 3600) / 60, sod % 60)
}

/// `:SSZ`-style tails of the ISO text, field by field from the right.
pub open spec fn iso_tail_seconds(s: int) -> Seq<char> {
    padded_decimal(s, 2) + seq!['Z']
}

pub open spec fn iso_tail_minutes(mi: int, s: int) -> Seq<char> {
    padded_decimal(mi, 2) + seq![':'] + iso_tail_seconds(s)
}

pub open spec fn iso_tail_hours(h: int, mi: int, s: int) -> Seq<char> {
    padded_decimal(h, 2) + seq![':'] + iso_tail_minutes(mi, s)
}

pub open spec fn iso_tail_days(f: (int, int, int, int, int, int)) -> Seq<char> {
    padded_decimal(f.2, 2) + seq!['T'] + iso_tail_hours(f.3, f.4, f.5)
}

pub open spec fn iso_tail_months(f: (int, int, int, int, int, int)) -> Seq<char> {
    padded_decimal(f.1, 2) + seq!['-'] + iso_tail_days(f)
}

/// The ISO text of the fields `f`.
pub open spec fn iso_of_fields(f: (int, int, int, int, int, int)) -> Seq<char> {
    padded_decimal(f.0, 4) + seq!['-'] + iso_tail_months(f)
}

/// `YYYY-MM-DDTHH:MM:SSZ` text of the UTC time `epoch` seconds after the Unix
/// epoch; the year is zero-padded to four characters, sign included.
pub open spec fn iso8601_text(epoch: int) -> Seq<char> {
    iso_of_fields(clock_fields(epoch))
}

/// Format an epoch-seconds (UTC) value as an ISO 8601 string with `Z` suffix
/// and second precision: `YYYY-MM-DDTHH:MM:SSZ`.
pub fn format_utc_iso8601(epoch: i64) -> (s: String)
    ensures
        s@ == iso8601_text(epoch as int),
{
    let days = epoch.checked_div_euclid(86_400).unwrap();
    let seconds_of_day = epoch.checked_rem_euclid(86_400).unwrap();
    let (year, month, day) = civil_from_days(days);
    let hour = seconds_of_day / 3600;
    let minute = (seconds_of_day % 3600) / 60;
    let second = seconds_of_day % 60;
    proof {
        lemma_civil_year_bound(days as int);
    }
    let ghost f = clock_fields(epoch as int);
    assert(f == (year as int, month as int, day as int, hour as int, minute as int, second as int));
    // Written from the right, one field at a time.
    let mut t: String = String::new();
    push_padded(&mut t, second, 2);
    push_char(&mut t, 'Z');
    assert(t@ =~= iso_tail_seconds(f.5));
    let mut u: String = String::new();
    push_padded(&mut u, minute, 2);
    push_char(&mut u, ':');
    u.append(t.as_str());
    assert(u@ =~= iso_tail_minutes(f.4, f.5));
    let mut t: String = String::new();
    push_padded(&mut t, hour, 2);
    push_char(&mut t, ':');
    t.append(u.as_str());
    assert(t@ =~= iso_tail_hours(f.3, f.4, f.5));
    let mut u: String = String::new();
    push_padded(&mut u, day, 2);
    push_char(&mut u, 'T');
    u.append(t.as_str());
    assert(u@ =~= iso_tail_days(f));
    let mut t: String = String::new();
    push_padded(&mut t, month, 2);
    push_char(&mut t, '-');
    t.append(u.as_str());
    assert(t@ =~= iso_tail_months(f));
    let mut s = String::new();
    push_padded(&mut s, year, 4);
    push_char(&mut s, '-');
    s.append(t.as_str());
    assert(s@ =~= iso_of_fields(f));
    s
}

/// `YYYY-MM-DD` text of a date: fields zero-padded as `format_utc_iso8601`
/// writes them.
pub open spec fn date_text(y: int, m: int, d: int) -> Seq<char> {
    padded_decimal(y, 4) + seq!['-'] + padded_decimal(m, 2) + seq!['-'] + padded_decimal(d, 2)
}

/// The epoch of a calendar date, as `parse_date_to_epoch` computes it, is
/// written back by `format_utc_iso8601` as that same date at midnight UTC.
pub proof fn lemma_date_epoch_formats_back(y: int, m: int, d: int)
    requires
        is_valid_date(y, m, d),
    ensures
        iso8601_text(epoch_day(y, m, d) * 86400) == date_text(y, m, d) + "T00:00:00Z"@,
{
    let days = epoch_day(y, m, d);
    let epoch = days * 86400;
    assert(epoch / 86400 == days && epoch % 86400 == 0) by (nonlinear_arith)
        requires
            epoch == days * 86400,
    ;
    lemma_civil_of_day(days);
    let c = civil_of_day(days);
    lemma_epoch_day_injective(c.0, c.1, c.2, y, m, d);
    assert(decimal(0) =~= seq!['0']);
    assert(padded_decimal(0, 2) =~= seq!['0', '0']);
    reveal_strlit("T00:00:00Z");
    assert(iso8601_text(epoch) =~= date_text(y, m, d) + "T00:00:00Z"@);
}

/// The year of the UTC date of `epoch` has four digits (0 to 9999).
pub open spec fn four_digit_year(epoch: int) -> bool {
    0 <= civil_of_day(epoch / 86400).0 <= 9999
}

/// Two texts made of equally long heads, then the same separator, compare
/// by their heads first, then by what follows the separator.
proof fn lemma_lex_fields(x1: Seq<char>, x2: Seq<char>, sep: Seq<char>, r1: Seq<char>, r2: Seq<char>)
    requires
        x1.len() == x2.len(),
    ensures
        lex_lt(x1 + sep + r1, x2 + sep + r2) == (lex_lt(x1, x2) || (x1 == x2 && lex_lt(r1, r2))),
{
    assert(x1 + sep + r1 =~= x1 + (sep + r1));
    assert(x2 + sep + r2 =~= x2 + (sep + r2));
    lemma_lex_concat(x1, sep + r1, x2, sep + r2);
    lemma_lex_concat(sep, r1, sep, r2);
    lemma_lex_irreflexive(sep);
    if x1 == x2 {
        lemma_lex_irreflexive(x1);
    }
}

/// A field below `10^w` written `w` wide sorts as the number.
proof fn lemma_field(a: int, b: int, w: nat)
    requires
        w >= 1,
        0 <= a < pow10(w),
        0 <= b < pow10(w),
    ensures
        padded_decimal(a, w as int) == fixed_digits(a as nat, w),
        padded_decimal(b, w as int) == fixed_digits(b as nat, w),
        fixed_digits(a as nat, w).len() == w,
        fixed_digits(b as nat, w).len() == w,
        lex_lt(padded_decimal(a, w as int), padded_decimal(b, w as int)) == (a < b),
        (padded_decimal(a, w as int) == padded_decimal(b, w as int)) == (a == b),
{
    lemma_zero_pad_fixed(a as nat, w);
    lemma_zero_pad_fixed(b as nat, w);
    lemma_fixed_order(a as nat, b as nat, w);
}

/// Lexicographic order of field tuples.
pub open spec fn fields_before(a: (int, int, int, int, int, int), b: (int, int, int, int, int, int)) -> bool {
    a.0 < b.0 || (a.0 == b.0 && (a.1 < b.1 || (a.1 == b.1 && (a.2 < b.2 || (a.2 == b.2 && (a.3 < b.3
        || (a.3 == b.3 && (a.4 < b.4 || (a.4 == b.4 && a.5 < b.5)))))))))
}

proof fn lemma_fields_ranges(e: int)
    requires
        four_digit_year(e),
    ensures
        0 <= clock_fields(e).0 < pow10(4),
        0 <= clock_fields(e).1 < pow10(2),
        0 <= clock_fields(e).2 < pow10(2),
        0 <= clock_fields(e).3 < pow10(2),
        0 <= clock_fields(e).4 < pow10(2),
        0 <= clock_fields(e).5 < pow10(2),
{
    lemma_civil_of_day(e / 86400);
    assert(pow10(2) == 100 && pow10(4) == 10000) by {
        reveal_with_fuel(pow10, 5);
    }
}

/// The ISO texts of two four-digit-year instants compare as their fields.
proof fn lemma_iso8601_text_order(e1: int, e2: int)
    requires
        four_digit_year(e1),
        four_digit_year(e2),
    ensures
        lex_lt(iso8601_text(e1), iso8601_text(e2)) == fields_before(clock_fields(e1), clock_fields(e2)),
{
    lemma_fields_ranges(e1);
    lemma_fields_ranges(e2);
    let f = clock_fields(e1);
    let g = clock_fields(e2);
    lemma_field(f.0, g.0, 4);
    lemma_field(f.1, g.1, 2);
    lemma_field(f.2, g.2, 2);
    lemma_field(f.3, g.3, 2);
    lemma_field(f.4, g.4, 2);
    lemma_field(f.5, g.5, 2);
    let z = seq!['Z'];
    lemma_lex_concat(padded_decimal(f.5, 2), z, padded_decimal(g.5, 2), z);
    lemma_lex_irreflexive(z);
    lemma_lex_fields(padded_decimal(f.4, 2), padded_decimal(g.4, 2), seq![':'], iso_tail_seconds(f.5), iso_tail_seconds(g.5));
    lemma_lex_fields(padded_decimal(f.3, 2), padded_decimal(g.3, 2), seq![':'], iso_tail_minutes(f.4, f.5), iso_tail_minutes(g.4, g.5));
    lemma_lex_fields(padded_decimal(f.2, 2), padded_decimal(g.2, 2), seq!['T'], iso_tail_hours(f.3, f.4, f.5), iso_tail_hours(g.3, g.4, g.5));
    lemma_lex_fields(padded_decimal(f.1, 2), padded_decimal(g.1, 2), seq!['-'], iso_tail_days(f), iso_tail_days(g));
    lemma_lex_fields(padded_decimal(f.0, 4), padded_decimal(g.0, 4), seq!['-'], iso_tail_months(f), iso_tail_months(g));
}

/// The seconds of a day split into hours, minutes and seconds.
proof fn lemma_sod_fields(sod: int)
    requires
        0 <= sod < 86400,
    ensures
        sod == (sod / 3600) * 3600 + ((sod % 3600) / 60) * 60 + sod % 60,
        0 <= sod / 3600 < 24,
        0 <= (sod % 3600) / 60 < 60,
        0 <= sod % 60 < 60,
{
    assert(sod == (sod / 3600) * 3600 + sod % 3600);
    assert(sod % 3600 == ((sod % 3600) / 60) * 60 + (sod % 3600) % 60);
    assert((sod % 3600) % 60 == sod % 60) by {
        vstd::arithmetic::div_mod::lemma_mod_mod(sod, 60, 60);
        assert(60 * 60 == 3600);
    }
}

/// Clock times of one day order as hours, then minutes, then seconds.
proof fn lemma_hms_order(h1: int, m1: int, s1: int, h2: int, m2: int, s2: int)
    requires
        0 <= m1 < 60,
        0 <= s1 < 60,
        0 <= m2 < 60,
        0 <= s2 < 60,
    ensures
        (h1 * 3600 + m1 * 60 + s1 < h2 * 3600 + m2 * 60 + s2) == (h1 < h2 || (h1 == h2 && (m1 < m2 || (m1 == m2 && s1 < s2)))),
{
    if h1 < h2 {
        assert(h1 * 3600 + 3600 <= h2 * 3600) by (nonlinear_arith)
            requires
                h1 < h2,
        ;
    } else if h2 < h1 {
        assert(h2 * 3600 + 3600 <= h1 * 3600) by (nonlinear_arith)
            requires
                h2 < h1,
        ;
    } else if m1 < m2 {
        assert(m1 * 60 + 60 <= m2 * 60) by (nonlinear_arith)
            requires
                m1 < m2,
        ;
    } else if m2 < m1 {
        assert(m2 * 60 + 60 <= m1 * 60) by (nonlinear_arith)
            requires
                m2 < m1,
        ;
    }
}

/// Instants order as their days, then their seconds within the day.
proof fn lemma_day_split_order(e1: int, e2: int)
    ensures
        (e1 < e2) == (e1 / 86400 < e2 / 86400 || (e1 / 86400 == e2 / 86400 && e1 % 86400 < e2 % 86400)),
        0 <= e1 % 86400 < 86400,
        0 <= e2 % 86400 < 86400,
{
    let d1 = e1 / 86400;
    let d2 = e2 / 86400;
    assert(e1 == d1 * 86400 + e1 % 86400 && e2 == d2 * 86400 + e2 % 86400);
    if d1 < d2 {
        assert(d1 * 86400 + 86400 <= d2 * 86400) by (nonlinear_arith)
            requires
                d1 < d2,
        ;
    } else if d2 < d1 {
        assert(d2 * 86400 + 86400 <= d1 * 86400) by (nonlinear_arith)
            requires
                d2 < d1,
        ;
    }
}

/// Fields order as the instants do.
proof fn lemma_fields_order(e1: int, e2: int)
    ensures
        fields_before(clock_fields(e1), clock_fields(e2)) == (e1 < e2),
{
    let days1 = e1 / 86400;
    let days2 = e2 / 86400;
    let sod1 = e1 % 86400;
    let sod2 = e2 % 86400;
    let c1 = civil_of_day(days1);
    let c2 = civil_of_day(days2);
    lemma_civil_of_day(days1);
    lemma_civil_of_day(days2);
    lemma_epoch_day_ordered(c1.0, c1.1, c1.2, c2.0, c2.1, c2.2);
    lemma_epoch_day_ordered(c2.0, c2.1, c2.2, c1.0, c1.1, c1.2);
    lemma_day_split_order(e1, e2);
    lemma_sod_fields(sod1);
    lemma_sod_fields(sod2);
    let f = clock_fields(e1);
    let g = clock_fields(e2);
    lemma_hms_order(f.3, f.4, f.5, g.3, g.4, g.5);
    assert((days1 == days2) == (f.0 == g.0 && f.1 == g.1 && f.2 == g.2)) by {
        if f.0 == g.0 && f.1 == g.1 && f.2 == g.2 {
            assert(epoch_day(c1.0, c1.1, c1.2) == epoch_day(c2.0, c2.1, c2.2));
        }
    }
}

/// For instants whose year has four digits, the order of the texts that
/// `format_utc_iso8601` writes is the order of time: sorting `author_date`
/// strings sorts commits chronologically.
pub proof fn lemma_iso8601_order(e1: int, e2: int)
    requires
        four_digit_year(e1),
        four_digit_year(e2),
    ensures
        lex_lt(iso8601_text(e1), iso8601_text(e2)) == (e1 < e2),
{
    lemma_iso8601_text_order(e1, e2);
    lemma_fields_order(e1, e2);
}

/// The year of any day reachable from an `i64` epoch is far from `i64::MIN`.
proof fn lemma_civil_year_bound(days: int)
    requires
        -200_000_000_000_000 <= days <= 200_000_000_000_000,
    ensures
        civil_of_day(days).0 > -1_000_000_000_000,
{
    lemma_civil_of_day(days);
}

/// The three `-`-separated integer fields of a date string, each read as
/// `str::parse::<i64>` reads it.
pub open spec fn date_fields(s: Seq<char>) -> Option<(int, int, int)> {
    let parts = split_char(s, '-');
    if parts.len() != 3 {
        None
    } else {
        match (spec_parse_i64(parts[0]), spec_parse_i64(parts[1]), spec_parse_i64(parts[2])) {
            (Some(y), Some(m), Some(d)) => Some((y as int, m as int, d as int)),
            _ => None,
        }
    }
}

/// Epoch seconds (midnight UTC) of a `YYYY-MM-DD` string: the fields must read
/// as integers, the month lie in 1..=12 and the day in 1..=31.
pub open spec fn parsed_date_epoch(s: Seq<char>) -> Option<int> {
    match date_fields(s) {
        Some((y, m, d)) => if 1 <= m <= 12 && 1 <= d <= 31 {
            Some(epoch_day(y, m, d) * 86400)
        } else {
            None
        },
        None => None,
    }
}

/// The epoch seconds of the date, if any, fit in `i64`.
pub open spec fn date_epoch_fits(s: Seq<char>) -> bool {
    match parsed_date_epoch(s) {
        Some(e) => i64::MIN <= e <= i64::MAX,
        None => true,
    }
}

proof fn lemma_fits_implies_civil_days_fit(y: int, m: int, d: int)
    requires
        1 <= m <= 12,
        1 <= d <= 31,
        i64::MIN <= epoch_day(y, m, d) * 86400 <= i64::MAX,
        i64::MIN <= y <= i64::MAX,
    ensures
        civil_days_fit(y, m, d),
{
    let yr = if m <= 2 { y - 1 } else { y };
    lemma_epoch_day_march(y, m, d);
    lemma_march_count_era(yr);
    assert(-106751991167301 <= epoch_day(y, m, d) <= 106751991167301);
    assert(0 <= yr % 400 < 400);
    assert(0 <= era_year_start(yr % 400) <= 146000);
    assert(-200000000000000 <= (yr / 400) * 146097 <= 200000000000000);
    assert(-1000000000000 <= yr / 400 <= 1000000000000);
}

/// Reads the date fields of `chars`, as `date_fields` states.
fn date_fields_of(chars: &Vec<char>) -> (r: Option<(i64, i64, i64)>)
    ensures
        match r {
            Some((y, m, d)) => date_fields(chars@) == Some((y as int, m as int, d as int)),
            None => date_fields(chars@) is None,
        },
{
    let parts = split_chars(chars, '-');
    if parts.len() != 3 {
        return None;
    }
    let year = match parse_i64_chars(&parts[0]) {
        Some(v) => v,
        None => return None,
    };
    let month = match parse_i64_chars(&parts[1]) {
        Some(v) => v,
        None => return None,
    };
    let day = match parse_i64_chars(&parts[2]) {
        Some(v) => v,
        None => return None,
    };
    Some((year, month, day))
}

fn parse_date_inner(date_str: &str) -> (r: Option<i64>)
    requires
        date_epoch_fits(date_str@),
    ensures
        match r {
            Some(e) => parsed_date_epoch(date_str@) == Some(e as int),
            None => parsed_date_epoch(date_str@) is None,
        },
{
    let chars = chars_of(date_str);
    let (year, month, day) = match date_fields_of(&chars) {
        Some(f) => f,
        None => return None,
    };
    if !(1 <= month && month <= 12) || !(1 <= day && day <= 31) {
        return None;
    }
    proof {
        lemma_fits_implies_civil_days_fit(year as int, month as int, day as int);
    }
    Some(days_from_civil(year, month, day) * 86400)
}

/// Parse a `YYYY-MM-DD` date string into seconds since the Unix epoch
/// (midnight UTC).
pub fn parse_date_to_epoch(date_str: &str) -> (r: Result<i64, CreditError>)
    requires
        date_epoch_fits(date_str@),
    ensures
        match r {
            Ok(e) => parsed_date_epoch(date_str@) == Some(e as int),
            Err(err) => parsed_date_epoch(date_str@) is None && (err matches CreditError::InvalidDate {
                input,
            } && input@ == date_str@),
        },
{
    match parse_date_inner(date_str) {
        Some(e) => Ok(e),
        None => Err(CreditError::InvalidDate { input: date_str.to_string() }),
    }
}

/// A date as `format_utc_iso8601` writes it (year in `0..=9999`) is read by
/// `parse_date_to_epoch` as the epoch of its midnight UTC, which formats back
/// as that same date at midnight.
pub proof fn lemma_date_text_round_trip(y: int, m: int, d: int)
    requires
        is_valid_date(y, m, d),
        0 <= y <= 9999,
    ensures
        date_epoch_fits(date_text(y, m, d)),
        parsed_date_epoch(date_text(y, m, d)) == Some(epoch_day(y, m, d) * 86400),
        iso8601_text(epoch_day(y, m, d) * 86400) == date_text(y, m, d) + "T00:00:00Z"@,
{
    let a = padded_decimal(y, 4);
    let b = padded_decimal(m, 2);
    let c = padded_decimal(d, 2);
    lemma_parse_padded(y, 4);
    lemma_parse_padded(m, 2);
    lemma_parse_padded(d, 2);
    assert forall|i: int| 0 <= i < a.len() implies a[i] != '-' by {
        assert(is_ascii_digit(a[i]));
    }
    assert forall|i: int| 0 <= i < b.len() implies b[i] != '-' by {
        assert(is_ascii_digit(b[i]));
    }
    assert forall|i: int| 0 <= i < c.len() implies c[i] != '-' by {
        assert(is_ascii_digit(c[i]));
    }
    lemma_split_three(a, b, c, '-');
    assert(date_fields(date_text(y, m, d)) == Some((y, m, d)));
    assert(-1_000_000 <= epoch_day(y, m, d) <= 4_000_000);
    lemma_date_epoch_formats_back(y, m, d);
}

/// Whether the epoch seconds of `date_str`, if it is a date, fit in `i64`
/// (the condition under which `parse_date_to_epoch` may be called).
pub fn date_epoch_in_range(date_str: &str) -> (r: bool)
    ensures
        r == date_epoch_fits(date_str@),
{
    let chars = chars_of(date_str);
    let (year, month, day) = match date_fields_of(&chars) {
        Some(f) => f,
        None => return true,
    };
    if !(1 <= month && month <= 12) || !(1 <= day && day <= 31) {
        return true;
    }
    let days = epoch_day_wide(year, month, day);
    let lo: i128 = -106751991167300;
    let hi: i128 = 106751991167300;
    lo <= days && days <= hi
}

/// `epoch_day` computed in `i128`, where no year of an `i64` overflows.
fn epoch_day_wide(year: i64, month: i64, day: i64) -> (r: i128)
    requires
        1 <= month <= 12,
        1 <= day <= 31,
    ensures
        r == epoch_day(year as int, month as int, day as int),
{
    let y = year as i128;
    let m = month as i128;
    let d = day as i128;
    let yr = if m <= 2 { y - 1 } else { y };
    let era = yr.checked_div_euclid(400).unwrap();
    let year_of_era = yr.checked_rem_euclid(400).unwrap();
    let mp = if m > 2 { m - 3 } else { m + 9 };
    let day_of_year = (153 * mp + 2) / 5 + d - 1;
    let day_of_era = year_of_era * 365 + year_of_era / 4 - year_of_era / 100 + day_of_year;
    proof {
        lemma_epoch_day_march(year as int, month as int, day as int);
        lemma_march_count_era(yr as int);
    }
    era * 146_097 + day_of_era - 719_468
}

} // verus!
