use vstd::prelude::*;

use crate::error::CreditError;
use crate::apportion::{attributed_additions, attributed_deletions, lemma_squash_shares_within_total};
use crate::filter::{excludes, kept_deltas, lemma_kept_deltas, ExclusionFilter};
use crate::git::{four_digit_year, lemma_iso8601_order, resolved_author, format_utc_iso8601, is_bot_address, is_bot_email, is_squash_merge, iso8601_text, pr_number_of, resolve_author, Author, CommitInfo, FileDelta};
use crate::stats::{
    compute_squash_attributions, email_additions, email_deletions,
    has_email, lemma_email_absent, lemma_pr_step, lemma_pr_totals_nonneg, lemma_sum_nonneg,
    pr_additions, pr_deletions, share, squash_attribution_of, sum_additions, sum_deletions,
    total_additions, total_deletions, all_attributions, attributed_to, filter_bots, human_attributions,
    Attribution, CommitReport, Report, Summary,
};
use crate::numeric::{decimal, push_decimal};
use crate::order::{arranged_by, arranged_suffix, is_arrangement, lemma_arranged_empty, lemma_arranged_full, lemma_arranged_insert};
use crate::text::{chars_less, chars_of, lemma_lex_asymmetric, lemma_lex_irreflexive, lemma_lex_total, lemma_lex_transitive, lex_lt};

verus! {

// ---------------------------------------------------------------------------
// Squash-merge attribution
// ---------------------------------------------------------------------------

/// Result of attributing a squash-merge PR to its individual authors.
pub enum PrAttribution {
    /// All PR commits have the same author — skip per-commit file fetches.
    SingleAuthor(Author),
    /// Multiple distinct authors — full per-commit file deltas needed.
    MultiAuthor(Vec<(Author, Vec<FileDelta>)>),
}

/// What the listed commits of a PR call for next.
pub enum PrCommitsPlan {
    /// Attribute the whole squash commit to this author.
    Single(Author),
    /// Fetch the files of each of these (author, commit sha) pairs.
    FetchFiles(Vec<(Author, String)>),
}

/// All commits of `pr_commits` carry the e-mail of the first.
pub open spec fn same_email_throughout(pr_commits: Seq<(Author, String)>) -> bool {
    forall|k: int| 0 <= k < pr_commits.len() ==> (#[trigger] pr_commits[k]).0.email@ == pr_commits[0].0.email@
}

/// Decides how to attribute a PR from its listed commits: an empty listing
/// is attributed to `Unknown <unknown>`; a listing whose commits all share
/// the first one's e-mail goes to that first author (no per-commit file
/// fetches); otherwise every commit's files are to be fetched.
pub fn plan_pr_attribution(pr_commits: Vec<(Author, String)>) -> (r: PrCommitsPlan)
    ensures
        pr_commits@.len() == 0 ==> (r matches PrCommitsPlan::Single(a) && a.name@ == "Unknown"@ && a.email@ == "unknown"@),
        pr_commits@.len() > 0 && same_email_throughout(pr_commits@) ==> (r matches PrCommitsPlan::Single(a) && a == pr_commits@[0].0),
        pr_commits@.len() > 0 && !same_email_throughout(pr_commits@) ==> (r matches PrCommitsPlan::FetchFiles(v) && v@ == pr_commits@),
{
    if pr_commits.len() == 0 {
        return PrCommitsPlan::Single(Author { name: "Unknown".to_string(), email: "unknown".to_string() });
    }
    let mut all_same = true;
    let mut k: usize = 0;
    while k < pr_commits.len()
        invariant
            pr_commits@.len() > 0,
            k <= pr_commits@.len(),
            all_same == forall|j: int| 0 <= j < k ==> (#[trigger] pr_commits@[j]).0.email@ == pr_commits@[0].0.email@,
        decreases pr_commits.len() - k,
    {
        if pr_commits[k].0.email != pr_commits[0].0.email {
            all_same = false;
        }
        k = k + 1;
    }
    if all_same {
        let mut commits = pr_commits;
        let (first, _) = commits.remove(0);
        PrCommitsPlan::Single(first)
    } else {
        PrCommitsPlan::FetchFiles(pr_commits)
    }
}

/// Resolves each author of a PR attribution through the mailmap.
pub fn resolve_pr_attribution(mailmap: Option<&git2::Mailmap>, attribution: PrAttribution) -> (r: PrAttribution)
    ensures
        match (attribution, r) {
            (PrAttribution::SingleAuthor(a), PrAttribution::SingleAuthor(b)) => (b.name@, b.email@) == resolved_author(mailmap, a.name@, a.email@),
            (PrAttribution::MultiAuthor(v), PrAttribution::MultiAuthor(w)) => w@.len() == v@.len() && forall|k: int| 0 <= k < v@.len() ==> {
                &&& (#[trigger] w@[k]).1 == v@[k].1
                &&& (w@[k].0.name@, w@[k].0.email@) == resolved_author(mailmap, v@[k].0.name@, v@[k].0.email@)
            },
            _ => false,
        },
{
    match attribution {
        PrAttribution::SingleAuthor(a) => PrAttribution::SingleAuthor(resolve_author(mailmap, a.name.as_str(), a.email.as_str())),
        PrAttribution::MultiAuthor(v) => {
            let ghost orig = v@;
            let mut rest = v;
            let mut out: Vec<(Author, Vec<FileDelta>)> = Vec::new();
            // Take the commits from the back, keeping their order in `out`.
            while rest.len() > 0
                invariant
                    rest@.len() + out@.len() == orig.len(),
                    rest@ == orig.take(rest@.len() as int),
                    forall|k: int| 0 <= k < out@.len() ==> {
                        &&& (#[trigger] out@[k]).1 == orig[rest@.len() + k].1
                        &&& (out@[k].0.name@, out@[k].0.email@) == resolved_author(mailmap, orig[rest@.len() + k].0.name@, orig[rest@.len() + k].0.email@)
                    },
                decreases rest.len(),
            {
                let (a, d) = rest.pop().unwrap();
                let ghost n = rest@.len();
                let ghost before = out@;
                let resolved = resolve_author(mailmap, a.name.as_str(), a.email.as_str());
                out.insert(0, (resolved, d));
                assert(rest@ =~= orig.take(n as int));
                assert forall|k: int| 0 <= k < out@.len() implies {
                    &&& (#[trigger] out@[k]).1 == orig[rest@.len() + k].1
                    &&& (out@[k].0.name@, out@[k].0.email@) == resolved_author(mailmap, orig[rest@.len() + k].0.name@, orig[rest@.len() + k].0.email@)
                } by {
                    if k > 0 {
                        assert(out@[k] == before[k - 1]);
                    }
                }
            }
            PrAttribution::MultiAuthor(out)
        },
    }
}

/// The line totals of `deltas` fit in `u64`.
pub open spec fn totals_fit(deltas: Seq<FileDelta>) -> bool {
    sum_additions(deltas) <= u64::MAX && sum_deletions(deltas) <= u64::MAX
}

/// Whether the line totals of `deltas` fit in `u64`.
pub fn line_totals_fit(deltas: &Vec<FileDelta>) -> (r: bool)
    ensures
        r == totals_fit(deltas@),
{
    let mut adds: u128 = 0;
    let mut dels: u128 = 0;
    let mut i: usize = 0;
    while i < deltas.len()
        invariant
            i <= deltas@.len(),
            adds == sum_additions(deltas@.take(i as int)),
            dels == sum_deletions(deltas@.take(i as int)),
            adds <= i * 0x1_0000_0000_0000_0000,
            dels <= i * 0x1_0000_0000_0000_0000,
        decreases deltas.len() - i,
    {
        assert(deltas@.take(i + 1).drop_last() =~= deltas@.take(i as int));
        assert(i < 0x1_0000_0000_0000_0000);
        adds = adds + deltas[i].additions as u128;
        dels = dels + deltas[i].deletions as u128;
        i = i + 1;
    }
    assert(deltas@.take(i as int) =~= deltas@);
    adds <= 0xffff_ffff_ffff_ffff && dels <= 0xffff_ffff_ffff_ffff
}

/// The report of a commit attributed to `author` with the line totals of
/// `deltas`.
pub open spec fn single_attribution_report(
    r: CommitReport,
    sha: Seq<char>,
    author_date: Seq<char>,
    name: Seq<char>,
    email: Seq<char>,
    deltas: Seq<FileDelta>,
    squash: bool,
    accurate: bool,
) -> bool {
    &&& r.sha@ == sha
    &&& r.author_date@ == author_date
    &&& r.is_squash_pr == squash
    &&& r.accurate == accurate
    &&& r.attributions@.len() == 1
    &&& r.attributions@[0].name@ == name
    &&& r.attributions@[0].email@ == email
    &&& r.attributions@[0].additions == sum_additions(deltas)
    &&& r.attributions@[0].deletions == sum_deletions(deltas)
    &&& r.attributions@[0].is_pr_author == squash
}

/// Build a [`CommitReport`] for a direct commit (no squash-merge expansion):
/// everything goes to the commit's author, over the deltas that the filter
/// keeps.
pub fn direct_commit_report(filter: &ExclusionFilter, commit: CommitInfo) -> (r: CommitReport)
    requires
        totals_fit(kept_deltas(filter.globs(), commit.deltas@)),
    ensures
        single_attribution_report(r, commit.oid@, iso8601_text(commit.author_time as int), commit.author.name@, commit.author.email@, kept_deltas(filter.globs(), commit.deltas@), false, true),
{
    let deltas = filter.filter_deltas(commit.deltas);
    let additions = total_additions(&deltas);
    let deletions = total_deletions(&deltas);
    let mut attributions: Vec<Attribution> = Vec::new();
    attributions.push(Attribution {
        name: commit.author.name,
        email: commit.author.email,
        additions,
        deletions,
        is_pr_author: false,
    });
    CommitReport {
        sha: commit.oid,
        author_date: format_utc_iso8601(commit.author_time),
        is_squash_pr: false,
        attributions,
        accurate: true,
    }
}

/// Build a [`CommitReport`] for a squash-merge whose GitHub re-attribution
/// failed — attribute everything to the merge commit's own author. The
/// `accurate: false` flag tells consumers this row is a fallback that
/// should be retried once the API is available again.
pub fn fallback_commit_report(sha: String, author_date: String, author: &Author, deltas: &Vec<FileDelta>) -> (r: CommitReport)
    requires
        totals_fit(deltas@),
    ensures
        single_attribution_report(r, sha@, author_date@, author.name@, author.email@, deltas@, false, false),
{
    let additions = total_additions(deltas);
    let deletions = total_deletions(deltas);
    let mut attributions: Vec<Attribution> = Vec::new();
    attributions.push(Attribution {
        name: author.name.clone(),
        email: author.email.clone(),
        additions,
        deletions,
        is_pr_author: false,
    });
    CommitReport { sha, author_date, is_squash_pr: false, attributions, accurate: false }
}

/// The report of a squash merge that no GitHub lookup could expand (no
/// client: no token, or lookups switched off): everything goes to the merge
/// commit's own author over the deltas that the filter keeps, marked
/// inaccurate so that a later run can retry it.
pub fn unexpanded_squash_report(filter: &ExclusionFilter, commit: CommitInfo) -> (r: CommitReport)
    requires
        totals_fit(kept_deltas(filter.globs(), commit.deltas@)),
    ensures
        single_attribution_report(r, commit.oid@, iso8601_text(commit.author_time as int), commit.author.name@, commit.author.email@, kept_deltas(filter.globs(), commit.deltas@), false, false),
{
    let deltas = filter.filter_deltas(commit.deltas);
    let author_date = format_utc_iso8601(commit.author_time);
    fallback_commit_report(commit.oid, author_date, &commit.author, &deltas)
}

/// The arithmetic of `compute_squash_attributions` on these inputs fits `u64`.
pub open spec fn squash_fits(pr: Seq<(Author, Vec<FileDelta>)>, squash: Seq<FileDelta>) -> bool {
    &&& totals_fit(squash)
    &&& pr_additions(pr) <= u64::MAX
    &&& pr_deletions(pr) <= u64::MAX
    &&& forall|e: Seq<char>| sum_additions(squash) * #[trigger] email_additions(pr, e) <= u64::MAX
    &&& forall|e: Seq<char>| sum_deletions(squash) * #[trigger] email_deletions(pr, e) <= u64::MAX
}

/// Lines added and removed over `deltas`, in `u128`.
fn wide_totals(deltas: &Vec<FileDelta>) -> (r: (u128, u128))
    ensures
        r.0 == sum_additions(deltas@),
        r.1 == sum_deletions(deltas@),
        r.0 <= deltas@.len() * 0xffff_ffff_ffff_ffff,
        r.1 <= deltas@.len() * 0xffff_ffff_ffff_ffff,
{
    let mut adds: u128 = 0;
    let mut dels: u128 = 0;
    let mut i: usize = 0;
    while i < deltas.len()
        invariant
            i <= deltas@.len(),
            adds == sum_additions(deltas@.take(i as int)),
            dels == sum_deletions(deltas@.take(i as int)),
            adds <= i * 0xffff_ffff_ffff_ffff,
            dels <= i * 0xffff_ffff_ffff_ffff,
        decreases deltas.len() - i,
    {
        assert(deltas@.take(i + 1).drop_last() =~= deltas@.take(i as int));
        adds = adds + deltas[i].additions as u128;
        dels = dels + deltas[i].deletions as u128;
        i = i + 1;
    }
    assert(deltas@.take(i as int) =~= deltas@);
    (adds, dels)
}

/// Lines the commits of `pr` by `e` added and removed, saturated at
/// `u64::MAX + 1`.
fn email_totals_capped(pr: &Vec<(Author, Vec<FileDelta>)>, e: &String) -> (r: (u128, u128))
    ensures
        r.0 == if email_additions(pr@, e@) <= u64::MAX { email_additions(pr@, e@) } else { u64::MAX + 1 },
        r.1 == if email_deletions(pr@, e@) <= u64::MAX { email_deletions(pr@, e@) } else { u64::MAX + 1 },
{
    let cap: u128 = 0x1_0000_0000_0000_0000;
    let mut adds: u128 = 0;
    let mut dels: u128 = 0;
    let mut k: usize = 0;
    while k < pr.len()
        invariant
            k <= pr@.len(),
            cap == u64::MAX + 1,
            adds == if email_additions(pr@.take(k as int), e@) <= u64::MAX { email_additions(pr@.take(k as int), e@) } else { cap as int },
            dels == if email_deletions(pr@.take(k as int), e@) <= u64::MAX { email_deletions(pr@.take(k as int), e@) } else { cap as int },
        decreases pr.len() - k,
    {
        proof {
            lemma_pr_step(pr@, k as int, e@);
            lemma_pr_totals_nonneg(pr@.take(k as int), e@);
        }
        if pr[k].0.email == *e {
            let (a, d) = wide_totals(&pr[k].1);
            proof {
                lemma_sum_nonneg(pr@[k as int].1@);
            }
            adds = if adds + if a < cap { a } else { cap } >= cap { cap } else { adds + a };
            dels = if dels + if d < cap { d } else { cap } >= cap { cap } else { dels + d };
        }
        k = k + 1;
    }
    assert(pr@.take(k as int) =~= pr@);
    (adds, dels)
}

/// Whether `squash_fits(pr, squash)` holds.
pub fn squash_attribution_fits(pr: &Vec<(Author, Vec<FileDelta>)>, squash: &Vec<FileDelta>) -> (r: bool)
    ensures
        r == squash_fits(pr@, squash@),
{
    let (total_adds, total_dels) = wide_totals(squash);
    let max: u128 = 0xffff_ffff_ffff_ffff;
    if total_adds > max || total_dels > max {
        return false;
    }
    let mut k: usize = 0;
    let cap: u128 = 0x1_0000_0000_0000_0000;
    let mut grand_adds: u128 = 0;
    let mut grand_dels: u128 = 0;
    while k < pr.len()
        invariant
            k <= pr@.len(),
            cap == u64::MAX + 1,
            max == u64::MAX,
            total_adds == sum_additions(squash@),
            total_dels == sum_deletions(squash@),
            total_adds <= max,
            total_dels <= max,
            grand_adds == if pr_additions(pr@.take(k as int)) <= u64::MAX { pr_additions(pr@.take(k as int)) } else { cap as int },
            grand_dels == if pr_deletions(pr@.take(k as int)) <= u64::MAX { pr_deletions(pr@.take(k as int)) } else { cap as int },
            forall|j: int| 0 <= j < k ==> total_adds * email_additions(pr@, (#[trigger] pr@[j]).0.email@) <= u64::MAX,
            forall|j: int| 0 <= j < k ==> total_dels * email_deletions(pr@, (#[trigger] pr@[j]).0.email@) <= u64::MAX,
        decreases pr.len() - k,
    {
        let e = &pr[k].0.email;
        let (ea, ed) = email_totals_capped(pr, e);
        proof {
            lemma_pr_totals_nonneg(pr@, e@);
        }
        if ea > max {
            if total_adds > 0 {
                proof {
                    lemma_product_exceeds(total_adds as int, email_additions(pr@, e@));
                }
                return false;
            }
            let ghost x = email_additions(pr@, e@);
            assert(total_adds * x == 0) by (nonlinear_arith)
                requires
                    total_adds == 0,
            ;
        } else {
            assert(ea * total_adds <= max * max) by (nonlinear_arith)
                requires
                    ea <= max,
                    total_adds <= max,
            ;
            let ghost ea_int = email_additions(pr@, e@);
            assert(total_adds * ea_int == ea * total_adds) by (nonlinear_arith)
                requires
                    ea == ea_int,
            ;
            if ea * total_adds > max {
                return false;
            }
        }
        if ed > max {
            if total_dels > 0 {
                proof {
                    lemma_product_exceeds(total_dels as int, email_deletions(pr@, e@));
                }
                return false;
            }
            let ghost y = email_deletions(pr@, e@);
            assert(total_dels * y == 0) by (nonlinear_arith)
                requires
                    total_dels == 0,
            ;
        } else {
            assert(ed * total_dels <= max * max) by (nonlinear_arith)
                requires
                    ed <= max,
                    total_dels <= max,
            ;
            let ghost ed_int = email_deletions(pr@, e@);
            assert(total_dels * ed_int == ed * total_dels) by (nonlinear_arith)
                requires
                    ed == ed_int,
            ;
            if ed * total_dels > max {
                return false;
            }
        }
        let (a, d) = wide_totals(&pr[k].1);
        proof {
            lemma_sum_nonneg(pr@[k as int].1@);
            assert(pr@.take(k + 1).drop_last() =~= pr@.take(k as int));
            assert(pr@.take(k + 1).last() == pr@[k as int]);
            lemma_pr_totals_nonneg(pr@.take(k as int), e@);
        }
        grand_adds = if grand_adds + if a < cap { a } else { cap } >= cap { cap } else { grand_adds + a };
        grand_dels = if grand_dels + if d < cap { d } else { cap } >= cap { cap } else { grand_dels + d };
        k = k + 1;
    }
    assert(pr@.take(k as int) =~= pr@);
    if grand_adds > max || grand_dels > max {
        return false;
    }
    proof {
        assert forall|e: Seq<char>| sum_additions(squash@) * #[trigger] email_additions(pr@, e) <= u64::MAX by {
            if !has_email(pr@, e) {
                lemma_email_absent(pr@, e);
            } else {
                let j = choose|j: int| 0 <= j < pr@.len() && (#[trigger] pr@[j]).0.email@ == e;
                assert(total_adds * email_additions(pr@, pr@[j].0.email@) <= u64::MAX);
            }
        }
        assert forall|e: Seq<char>| sum_deletions(squash@) * #[trigger] email_deletions(pr@, e) <= u64::MAX by {
            if !has_email(pr@, e) {
                lemma_email_absent(pr@, e);
            } else {
                let j = choose|j: int| 0 <= j < pr@.len() && (#[trigger] pr@[j]).0.email@ == e;
                assert(total_dels * email_deletions(pr@, pr@[j].0.email@) <= u64::MAX);
            }
        }
    }
    true
}

proof fn lemma_product_exceeds(a: int, b: int)
    requires
        a >= 1,
        b > u64::MAX,
    ensures
        a * b > u64::MAX,
{
    assert(a * b >= b) by (nonlinear_arith)
        requires
            a >= 1,
            b >= 0,
    ;
}

/// How the expansion of one squash merge went.
#[derive(Debug, Clone, Copy, PartialEq, Eq)]
pub enum SquashOutcome {
    /// Re-attributed to the PR's authors.
    Expanded,
    /// The GitHub API refused for the rate limit (HTTP 403).
    RateLimited,
    /// Another error; the commit fell back to its own author.
    Failed,
}

/// A GitHub API answer with status 403: the rate limit.
pub open spec fn is_rate_limit(e: CreditError) -> bool {
    e matches CreditError::GitHubApi { status, .. } && status == 403
}

/// The error that stands for a PR lookup skipped because an earlier one hit
/// the rate limit: a 403 answer whose body says so.
pub fn skipped_lookup_error() -> (e: CreditError)
    ensures
        is_rate_limit(e),
        e matches CreditError::GitHubApi { status, body } && status == 403 && body@ == "rate limit exceeded (skipped)"@,
{
    CreditError::GitHubApi { status: 403, body: "rate limit exceeded (skipped)".to_string() }
}

pub fn is_rate_limit_error(e: &CreditError) -> (r: bool)
    ensures
        r == is_rate_limit(*e),
{
    match e {
        CreditError::GitHubApi { status, .. } => *status == 403,
        _ => false,
    }
}

/// `report` and `outcome` are what the squash merge `commit` comes to, given
/// the outcome `result` of its PR lookup and the filter's globs: a single PR
/// author takes all lines; several share them in proportion; a failed lookup
/// falls back to the commit's own author, marked inaccurate.
pub open spec fn squash_report_for(
    globs: Seq<Seq<char>>,
    commit: CommitInfo,
    result: Result<PrAttribution, CreditError>,
    report: CommitReport,
    outcome: SquashOutcome,
) -> bool {
    match result {
        Ok(PrAttribution::SingleAuthor(a)) => {
            &&& single_attribution_report(report, commit.oid@, iso8601_text(commit.author_time as int), a.name@, a.email@, kept_deltas(globs, commit.deltas@), true, true)
            &&& outcome == SquashOutcome::Expanded
        },
        Ok(PrAttribution::MultiAuthor(v)) => {
            &&& report.sha@ == commit.oid@
            &&& report.author_date@ == iso8601_text(commit.author_time as int)
            &&& report.is_squash_pr
            &&& report.accurate
            &&& squash_attribution_of(v@, kept_deltas(globs, commit.deltas@), report.attributions@)
            &&& outcome == SquashOutcome::Expanded
        },
        Err(e) => {
            &&& single_attribution_report(report, commit.oid@, iso8601_text(commit.author_time as int), commit.author.name@, commit.author.email@, kept_deltas(globs, commit.deltas@), false, false)
            &&& outcome == if is_rate_limit(e) { SquashOutcome::RateLimited } else { SquashOutcome::Failed }
        },
    }
}

/// A squash merge's report hands out at most the lines of the merge
/// commit's deltas that the filter keeps: the lines of excluded files go to
/// nobody. With several PR authors, rounding loses fewer lines than there
/// are authors; a merge whose every file is excluded credits nobody with
/// any line.
pub proof fn lemma_squash_report_within_kept_lines(
    globs: Seq<Seq<char>>,
    commit: CommitInfo,
    result: Result<PrAttribution, CreditError>,
    report: CommitReport,
    outcome: SquashOutcome,
)
    requires
        squash_report_for(globs, commit, result, report, outcome),
    ensures
        attributed_additions(report.attributions@) <= sum_additions(kept_deltas(globs, commit.deltas@)),
        attributed_deletions(report.attributions@) <= sum_deletions(kept_deltas(globs, commit.deltas@)),
        (result matches Ok(PrAttribution::MultiAuthor(v)) && v@.len() > 0) ==>
            sum_additions(kept_deltas(globs, commit.deltas@)) - report.attributions@.len() < attributed_additions(report.attributions@)
            && sum_deletions(kept_deltas(globs, commit.deltas@)) - report.attributions@.len() < attributed_deletions(report.attributions@),
        (forall|k: int| 0 <= k < commit.deltas@.len() ==> excludes(globs, (#[trigger] commit.deltas@[k]).path@))
            ==> forall|i: int| 0 <= i < report.attributions@.len() ==> (#[trigger] report.attributions@[i]).additions == 0 && report.attributions@[i].deletions == 0,
{
    let kept = kept_deltas(globs, commit.deltas@);
    let a = report.attributions@;
    crate::stats::lemma_sum_nonneg(kept);
    if forall|k: int| 0 <= k < commit.deltas@.len() ==> excludes(globs, (#[trigger] commit.deltas@[k]).path@) {
        lemma_kept_deltas(globs, commit.deltas@);
        if kept.len() > 0 {
            assert(commit.deltas@.contains(kept[0]));
            assert(!excludes(globs, kept[0].path@));
        }
        assert(kept =~= Seq::<FileDelta>::empty());
        assert(sum_additions(kept) == 0 && sum_deletions(kept) == 0);
    }
    match result {
        Ok(PrAttribution::SingleAuthor(_)) | Err(_) => {
            reveal_with_fuel(crate::apportion::seq_sum, 2);
            assert(a.map_values(|x: Attribution| x.additions as int).drop_last() =~= Seq::<int>::empty());
            assert(a.map_values(|x: Attribution| x.deletions as int).drop_last() =~= Seq::<int>::empty());
        },
        Ok(PrAttribution::MultiAuthor(v)) => {
            lemma_squash_shares_within_total(v@, kept, a);
            if sum_additions(kept) == 0 && sum_deletions(kept) == 0 {
                assert forall|i: int| 0 <= i < a.len() implies (#[trigger] a[i]).additions == 0 && a[i].deletions == 0 by {
                    let e = a[i].email@;
                    crate::stats::lemma_pr_totals_nonneg(v@, e);
                    crate::stats::lemma_pr_totals_nonneg(v@, Seq::empty());
                    crate::apportion::lemma_share_monotone(0, 0, email_additions(v@, e), pr_additions(v@), crate::stats::distinct_emails(v@));
                    assert(0int * email_additions(v@, e) == 0);
                    assert(0int * email_deletions(v@, e) == 0);
                }
            }
        },
    }
}

/// The arithmetic of a squash merge's report fits `u64`.
pub open spec fn squash_report_fits(globs: Seq<Seq<char>>, commit: CommitInfo, result: Result<PrAttribution, CreditError>) -> bool {
    &&& totals_fit(kept_deltas(globs, commit.deltas@))
    &&& (result matches Ok(PrAttribution::MultiAuthor(v)) ==> squash_fits(v@, kept_deltas(globs, commit.deltas@)))
}

/// The report of a squash-merge commit given the outcome of its PR lookup
/// (authors already resolved through the mailmap): a single PR author takes
/// all lines; several share them in proportion (`compute_squash_attributions`);
/// a failed lookup falls back to the commit's own author, marked inaccurate.
pub fn squash_commit_report(filter: &ExclusionFilter, commit: CommitInfo, result: Result<PrAttribution, CreditError>) -> (r: (CommitReport, SquashOutcome))
    requires
        squash_report_fits(filter.globs(), commit, result),
    ensures
        squash_report_for(filter.globs(), commit, result, r.0, r.1),
        attributed_additions(r.0.attributions@) <= sum_additions(kept_deltas(filter.globs(), commit.deltas@)),
        attributed_deletions(r.0.attributions@) <= sum_deletions(kept_deltas(filter.globs(), commit.deltas@)),
{
    let ghost c0 = commit;
    let ghost res0 = result;
    let sha = commit.oid;
    let author_date = format_utc_iso8601(commit.author_time);
    let deltas = filter.filter_deltas(commit.deltas);
    let out = match result {
        Ok(PrAttribution::SingleAuthor(author)) => {
            let additions = total_additions(&deltas);
            let deletions = total_deletions(&deltas);
            let mut attributions: Vec<Attribution> = Vec::new();
            attributions.push(Attribution { name: author.name, email: author.email, additions, deletions, is_pr_author: true });
            (CommitReport { sha, author_date, is_squash_pr: true, attributions, accurate: true }, SquashOutcome::Expanded)
        },
        Ok(PrAttribution::MultiAuthor(pr_author_deltas)) => {
            let attributions = compute_squash_attributions(&pr_author_deltas, &deltas);
            (CommitReport { sha, author_date, is_squash_pr: true, attributions, accurate: true }, SquashOutcome::Expanded)
        },
        Err(e) => {
            let outcome = if is_rate_limit_error(&e) { SquashOutcome::RateLimited } else { SquashOutcome::Failed };
            (fallback_commit_report(sha, author_date, &commit.author, &deltas), outcome)
        },
    };
    proof {
        lemma_squash_report_within_kept_lines(filter.globs(), c0, res0, out.0, out.1);
    }
    out
}

/// A copy of the deltas `v`.
fn copy_deltas(v: &Vec<FileDelta>) -> (r: Vec<FileDelta>)
    ensures
        r@ == v@,
{
    let mut out: Vec<FileDelta> = Vec::new();
    let mut i: usize = 0;
    while i < v.len()
        invariant
            i <= v@.len(),
            out@ == v@.take(i as int),
        decreases v.len() - i,
    {
        let d = &v[i];
        out.push(FileDelta { path: d.path.clone(), additions: d.additions, deletions: d.deletions });
        i = i + 1;
        assert(out@ =~= v@.take(i as int));
    }
    assert(v@.take(i as int) =~= v@);
    out
}

/// Whether `squash_commit_report` can be asked for this squash merge and
/// lookup outcome: the line totals, and for several PR authors the
/// proportional shares, fit in `u64`.
pub fn squash_report_fits_check(filter: &ExclusionFilter, commit: &CommitInfo, result: &Result<PrAttribution, CreditError>) -> (r: bool)
    ensures
        r == squash_report_fits(filter.globs(), *commit, *result),
{
    let kept = filter.filter_deltas(copy_deltas(&commit.deltas));
    if !line_totals_fit(&kept) {
        return false;
    }
    match result {
        Ok(PrAttribution::MultiAuthor(v)) => squash_attribution_fits(v, &kept),
        _ => true,
    }
}

/// Whether `direct_commit_report` (and `unexpanded_squash_report`) can be
/// asked for `commit`: the line totals of the deltas the filter keeps fit
/// in `u64`.
pub fn commit_totals_fit(filter: &ExclusionFilter, commit: &CommitInfo) -> (r: bool)
    ensures
        r == totals_fit(kept_deltas(filter.globs(), commit.deltas@)),
{
    let kept = filter.filter_deltas(copy_deltas(&commit.deltas));
    line_totals_fit(&kept)
}

/// The reports of the regular commits, in order, each attributed to its
/// own author (`direct_commit_report`).
pub fn direct_reports(filter: &ExclusionFilter, commits: Vec<CommitInfo>) -> (r: Vec<CommitReport>)
    requires
        forall|i: int| 0 <= i < commits@.len() ==> totals_fit(kept_deltas(filter.globs(), (#[trigger] commits@[i]).deltas@)),
    ensures
        r@.len() == commits@.len(),
        forall|i: int| 0 <= i < commits@.len() ==> {
            let c = #[trigger] commits@[i];
            single_attribution_report(r@[i], c.oid@, iso8601_text(c.author_time as int), c.author.name@, c.author.email@, kept_deltas(filter.globs(), c.deltas@), false, true)
        },
{
    let ghost orig = commits@;
    let n = commits.len();
    let mut rev = reversed(commits);
    let mut out: Vec<CommitReport> = Vec::new();
    let mut k: usize = 0;
    while k < n
        invariant
            n == orig.len(),
            k <= n,
            rev@.len() == n - k,
            forall|i: int| 0 <= i < rev@.len() ==> #[trigger] rev@[i] == orig[n - 1 - i],
            forall|i: int| 0 <= i < orig.len() ==> totals_fit(kept_deltas(filter.globs(), (#[trigger] orig[i]).deltas@)),
            out@.len() == k,
            forall|i: int| 0 <= i < k ==> {
                let c = #[trigger] orig[i];
                single_attribution_report(out@[i], c.oid@, iso8601_text(c.author_time as int), c.author.name@, c.author.email@, kept_deltas(filter.globs(), c.deltas@), false, true)
            },
        decreases n - k,
    {
        let commit = rev.pop().unwrap();
        assert(commit == orig[k as int]);
        out.push(direct_commit_report(filter, commit));
        k = k + 1;
    }
    out
}

/// The reports of squash merges that no GitHub lookup could expand, in
/// order (`unexpanded_squash_report`).
pub fn unexpanded_reports(filter: &ExclusionFilter, merges: Vec<(CommitInfo, u64)>) -> (r: Vec<CommitReport>)
    requires
        forall|i: int| 0 <= i < merges@.len() ==> totals_fit(kept_deltas(filter.globs(), (#[trigger] merges@[i]).0.deltas@)),
    ensures
        r@.len() == merges@.len(),
        forall|i: int| 0 <= i < merges@.len() ==> {
            let c = (#[trigger] merges@[i]).0;
            single_attribution_report(r@[i], c.oid@, iso8601_text(c.author_time as int), c.author.name@, c.author.email@, kept_deltas(filter.globs(), c.deltas@), false, false)
        },
{
    let ghost orig = merges@;
    let n = merges.len();
    let mut rev = reversed(merges);
    let mut out: Vec<CommitReport> = Vec::new();
    let mut k: usize = 0;
    while k < n
        invariant
            n == orig.len(),
            k <= n,
            rev@.len() == n - k,
            forall|i: int| 0 <= i < rev@.len() ==> #[trigger] rev@[i] == orig[n - 1 - i],
            forall|i: int| 0 <= i < orig.len() ==> totals_fit(kept_deltas(filter.globs(), (#[trigger] orig[i]).0.deltas@)),
            out@.len() == k,
            forall|i: int| 0 <= i < k ==> {
                let c = (#[trigger] orig[i]).0;
                single_attribution_report(out@[i], c.oid@, iso8601_text(c.author_time as int), c.author.name@, c.author.email@, kept_deltas(filter.globs(), c.deltas@), false, false)
            },
        decreases n - k,
    {
        let (commit, _) = rev.pop().unwrap();
        assert(commit == orig[k as int].0);
        out.push(unexpanded_squash_report(filter, commit));
        k = k + 1;
    }
    out
}

/// The reports of the squash merges, in order, given the outcome of each
/// one's PR lookup (authors already resolved through the mailmap), and how
/// each went (`squash_commit_report`).
pub fn squash_reports(
    filter: &ExclusionFilter,
    merges: Vec<(CommitInfo, u64)>,
    results: Vec<Result<PrAttribution, CreditError>>,
) -> (r: (Vec<CommitReport>, Vec<SquashOutcome>))
    requires
        merges@.len() == results@.len(),
        forall|i: int| 0 <= i < merges@.len() ==> squash_report_fits(filter.globs(), (#[trigger] merges@[i]).0, results@[i]),
    ensures
        r.0@.len() == merges@.len(),
        r.1@.len() == merges@.len(),
        forall|i: int| 0 <= i < merges@.len() ==> squash_report_for(filter.globs(), (#[trigger] merges@[i]).0, results@[i], r.0@[i], r.1@[i]),
{
    let ghost om = merges@;
    let ghost orr = results@;
    let n = merges.len();
    let mut rev_m = reversed(merges);
    let mut rev_r = reversed(results);
    let mut reports: Vec<CommitReport> = Vec::new();
    let mut outcomes: Vec<SquashOutcome> = Vec::new();
    let mut k: usize = 0;
    while k < n
        invariant
            n == om.len(),
            n == orr.len(),
            k <= n,
            rev_m@.len() == n - k,
            rev_r@.len() == n - k,
            forall|i: int| 0 <= i < rev_m@.len() ==> #[trigger] rev_m@[i] == om[n - 1 - i],
            forall|i: int| 0 <= i < rev_r@.len() ==> #[trigger] rev_r@[i] == orr[n - 1 - i],
            forall|i: int| 0 <= i < n ==> squash_report_fits(filter.globs(), (#[trigger] om[i]).0, orr[i]),
            reports@.len() == k,
            outcomes@.len() == k,
            forall|i: int| 0 <= i < k ==> squash_report_for(filter.globs(), (#[trigger] om[i]).0, orr[i], reports@[i], outcomes@[i]),
        decreases n - k,
    {
        let (commit, _) = rev_m.pop().unwrap();
        let result = rev_r.pop().unwrap();
        assert(commit == om[k as int].0);
        assert(result == orr[k as int]);
        let (report, outcome) = squash_commit_report(filter, commit, result);
        reports.push(report);
        outcomes.push(outcome);
        k = k + 1;
    }
    (reports, outcomes)
}

/// Counts over the squash-merge outcomes of a run.
#[derive(Debug)]
pub struct SquashTally {
    pub expanded: u64,
    pub api_errors: u64,
    pub rate_limited: bool,
    /// The outcome to warn about on its own: the first failure, when no
    /// other failure came before it.
    pub first_failure: Option<usize>,
}

pub open spec fn count_outcome(s: Seq<SquashOutcome>, o: SquashOutcome) -> int
    decreases s.len(),
{
    if s.len() == 0 {
        0
    } else {
        count_outcome(s.drop_last(), o) + if s.last() == o { 1int } else { 0int }
    }
}

/// Index of the first outcome that is not `Expanded`, if any.
pub open spec fn first_problem(s: Seq<SquashOutcome>) -> Option<int>
    decreases s.len(),
{
    if s.len() == 0 {
        None
    } else {
        match first_problem(s.drop_last()) {
            Some(i) => Some(i),
            None => if s.last() != SquashOutcome::Expanded { Some(s.len() - 1) } else { None },
        }
    }
}

proof fn lemma_count_bound(s: Seq<SquashOutcome>, o: SquashOutcome)
    ensures
        0 <= count_outcome(s, o) <= s.len(),
    decreases s.len(),
{
    if s.len() > 0 {
        lemma_count_bound(s.drop_last(), o);
    }
}

/// Tallies the outcomes of the squash merges, in their order.
pub fn tally_squash_outcomes(outcomes: &Vec<SquashOutcome>) -> (r: SquashTally)
    ensures
        r.expanded == count_outcome(outcomes@, SquashOutcome::Expanded),
        r.api_errors == count_outcome(outcomes@, SquashOutcome::RateLimited) + count_outcome(outcomes@, SquashOutcome::Failed),
        r.rate_limited == (count_outcome(outcomes@, SquashOutcome::RateLimited) > 0),
        r.first_failure == match first_problem(outcomes@) {
            Some(i) => if outcomes@[i] == SquashOutcome::Failed { Some(i as usize) } else { None },
            None => None::<usize>,
        },
{
    let mut tally = SquashTally { expanded: 0, api_errors: 0, rate_limited: false, first_failure: None };
    let mut i: usize = 0;
    while i < outcomes.len()
        invariant
            i <= outcomes@.len(),
            tally.expanded == count_outcome(outcomes@.take(i as int), SquashOutcome::Expanded),
            tally.api_errors == count_outcome(outcomes@.take(i as int), SquashOutcome::RateLimited) + count_outcome(outcomes@.take(i as int), SquashOutcome::Failed),
            tally.rate_limited == (count_outcome(outcomes@.take(i as int), SquashOutcome::RateLimited) > 0),
            tally.first_failure == match first_problem(outcomes@.take(i as int)) {
                Some(j) => if outcomes@[j] == SquashOutcome::Failed { Some(j as usize) } else { None },
                None => None::<usize>,
            },
            (tally.api_errors == 0) == (first_problem(outcomes@.take(i as int)) is None),
        decreases outcomes.len() - i,
    {
        let ghost p = outcomes@.take(i as int);
        let ghost p1 = outcomes@.take(i + 1);
        proof {
            assert(p1.drop_last() =~= p);
            assert(p1.last() == outcomes@[i as int]);
            lemma_count_bound(p, SquashOutcome::Expanded);
            lemma_count_bound(p, SquashOutcome::RateLimited);
            lemma_count_bound(p, SquashOutcome::Failed);
            lemma_counts_cover(p);
        }
        match outcomes[i] {
            SquashOutcome::Expanded => {
                tally.expanded = tally.expanded + 1;
            },
            SquashOutcome::RateLimited => {
                tally.rate_limited = true;
                tally.api_errors = tally.api_errors + 1;
            },
            SquashOutcome::Failed => {
                if tally.api_errors == 0 {
                    tally.first_failure = Some(i);
                }
                tally.api_errors = tally.api_errors + 1;
            },
        }
        i = i + 1;
    }
    assert(outcomes@.take(i as int) =~= outcomes@);
    tally
}

proof fn lemma_counts_cover(s: Seq<SquashOutcome>)
    ensures
        count_outcome(s, SquashOutcome::Expanded) + count_outcome(s, SquashOutcome::RateLimited) + count_outcome(s, SquashOutcome::Failed) == s.len(),
        (count_outcome(s, SquashOutcome::RateLimited) + count_outcome(s, SquashOutcome::Failed) == 0) == (first_problem(s) is None),
        first_problem(s) matches Some(j) ==> 0 <= j < s.len(),
    decreases s.len(),
{
    if s.len() > 0 {
        lemma_counts_cover(s.drop_last());
        lemma_count_bound(s.drop_last(), SquashOutcome::RateLimited);
        lemma_count_bound(s.drop_last(), SquashOutcome::Failed);
    }
}

fn push_str(out: &mut String, s: &str)
    ensures
        final(out)@ == old(out)@ + s@,
{
    out.append(s);
}

/// The warning printed after the squash merges, if any lookup failed.
pub open spec fn squash_warning_text(tally: SquashTally) -> Option<Seq<char>> {
    if tally.rate_limited {
        Some("warning: GitHub API rate limit exceeded, "@ + decimal(tally.api_errors as nat) + " PRs fell back to commit-author attribution"@)
    } else if tally.api_errors > 0 {
        Some("warning: "@ + decimal(tally.api_errors as nat) + " GitHub API errors, PRs fell back to commit-author attribution"@)
    } else {
        None
    }
}

/// The warning printed after the squash merges, if any lookup failed.
pub fn squash_warning(tally: &SquashTally) -> (r: Option<String>)
    ensures
        match r {
            Some(s) => squash_warning_text(*tally) == Some(s@),
            None => squash_warning_text(*tally) is None,
        },
{
    if tally.rate_limited {
        let mut s = "warning: GitHub API rate limit exceeded, ".to_string();
        push_decimal(&mut s, tally.api_errors);
        push_str(&mut s, " PRs fell back to commit-author attribution");
        Some(s)
    } else if tally.api_errors > 0 {
        let mut s = "warning: ".to_string();
        push_decimal(&mut s, tally.api_errors);
        push_str(&mut s, " GitHub API errors, PRs fell back to commit-author attribution");
        Some(s)
    } else {
        None
    }
}

// ---------------------------------------------------------------------------
// Output order
// ---------------------------------------------------------------------------

/// `a` sorts before `b`: earlier `author_date`, then smaller `sha`.
pub open spec fn report_before(a: CommitReport, b: CommitReport) -> bool {
    lex_lt(a.author_date@, b.author_date@) || (a.author_date@ == b.author_date@ && lex_lt(a.sha@, b.sha@))
}

/// No commit of `s` sorts before one that precedes it.
pub open spec fn sorted_reports(s: Seq<CommitReport>) -> bool {
    forall|i: int, j: int| 0 <= i < j < s.len() ==> !report_before(#[trigger] s[j], #[trigger] s[i])
}

proof fn lemma_before_asymmetric(a: CommitReport, b: CommitReport)
    ensures
        !(report_before(a, b) && report_before(b, a)),
{
    lemma_lex_asymmetric(a.author_date@, b.author_date@);
    lemma_lex_asymmetric(a.sha@, b.sha@);
    lemma_lex_irreflexive(a.author_date@);
}

/// Not sorting before is transitive (the order is a total preorder).
proof fn lemma_not_before_transitive(a: CommitReport, b: CommitReport, c: CommitReport)
    requires
        !report_before(b, a),
        !report_before(c, b),
    ensures
        !report_before(c, a),
{
    if report_before(c, a) {
        // a and b: a's key is at most b's; same for b and c.
        if a.author_date@ != b.author_date@ {
            lemma_lex_total(a.author_date@, b.author_date@);
        } else if a.sha@ != b.sha@ {
            lemma_lex_total(a.sha@, b.sha@);
        }
        if b.author_date@ != c.author_date@ {
            lemma_lex_total(b.author_date@, c.author_date@);
        } else if b.sha@ != c.sha@ {
            lemma_lex_total(b.sha@, c.sha@);
        }
        if lex_lt(c.author_date@, a.author_date@) {
            if lex_lt(a.author_date@, b.author_date@) {
                lemma_lex_transitive(c.author_date@, a.author_date@, b.author_date@);
                if lex_lt(b.author_date@, c.author_date@) {
                    lemma_lex_asymmetric(c.author_date@, b.author_date@);
                } else {
                    lemma_lex_irreflexive(c.author_date@);
                }
            } else {
                if lex_lt(b.author_date@, c.author_date@) {
                    lemma_lex_transitive(b.author_date@, c.author_date@, a.author_date@);
                    lemma_lex_irreflexive(a.author_date@);
                } else {
                    lemma_lex_irreflexive(c.author_date@);
                }
            }
        } else {
            lemma_lex_irreflexive(a.author_date@);
            if lex_lt(a.author_date@, b.author_date@) {
                if lex_lt(b.author_date@, c.author_date@) {
                    lemma_lex_transitive(a.author_date@, b.author_date@, c.author_date@);
                } else {
                }
                lemma_lex_irreflexive(c.author_date@);
            } else if lex_lt(b.author_date@, c.author_date@) {
                lemma_lex_irreflexive(c.author_date@);
            } else {
                if lex_lt(a.sha@, b.sha@) {
                    if lex_lt(b.sha@, c.sha@) {
                        lemma_lex_transitive(a.sha@, b.sha@, c.sha@);
                    }
                    lemma_lex_asymmetric(c.sha@, a.sha@);
                } else if lex_lt(b.sha@, c.sha@) {
                    lemma_lex_asymmetric(c.sha@, a.sha@);
                } else {
                    lemma_lex_irreflexive(a.sha@);
                }
            }
        }
    }
}

/// Whether `a` sorts before `b`.
fn report_less(a: &CommitReport, b: &CommitReport) -> (r: bool)
    ensures
        r == report_before(*a, *b),
{
    let da = chars_of(a.author_date.as_str());
    let db = chars_of(b.author_date.as_str());
    if chars_less(&da, &db) {
        return true;
    }
    if a.author_date != b.author_date {
        return false;
    }
    chars_less(&chars_of(a.sha.as_str()), &chars_of(b.sha.as_str()))
}

/// Same `author_date` and same `sha`.
pub open spec fn same_key(a: CommitReport, b: CommitReport) -> bool {
    a.author_date@ == b.author_date@ && a.sha@ == b.sha@
}

/// `dst` rearranges `src` (`dst[a]` is `src[origin[a]]`) keeping the
/// relative order of reports with the same key.
pub open spec fn stable_arrangement(src: Seq<CommitReport>, dst: Seq<CommitReport>) -> bool {
    exists|origin: Seq<int>| {
        &&& arranged_by(src, dst, origin)
        &&& forall|a: int, b: int| 0 <= a < b < dst.len() && same_key(#[trigger] dst[a], #[trigger] dst[b]) ==> origin[a] < origin[b]
    }
}

/// Stable sort of the commit reports by `author_date`, `sha` breaking ties.
pub fn sort_commits(commits: Vec<CommitReport>) -> (r: Vec<CommitReport>)
    ensures
        is_arrangement(commits@, r@),
        stable_arrangement(commits@, r@),
        sorted_reports(r@),
        forall|i: int, j: int| 0 <= i < j < r@.len() ==> !lex_lt((#[trigger] r@[j]).author_date@, (#[trigger] r@[i]).author_date@),
        forall|i: int, j: int| 0 <= i < j < r@.len() && (#[trigger] r@[i]).author_date@ == (#[trigger] r@[j]).author_date@ ==> !lex_lt(r@[j].sha@, r@[i].sha@),
{
    let ghost src = commits@;
    let mut rest = commits;
    let mut sorted: Vec<CommitReport> = Vec::new();
    let ghost mut origin: Seq<int> = Seq::empty();
    proof {
        lemma_arranged_empty(src);
    }
    while rest.len() > 0
        invariant
            rest@ == src.take(rest@.len() as int),
            rest@.len() <= src.len(),
            arranged_suffix(src, rest@.len() as int, sorted@, origin),
            sorted_reports(sorted@),
            forall|a: int, b: int| 0 <= a < b < sorted@.len() && same_key(#[trigger] sorted@[a], #[trigger] sorted@[b]) ==> origin[a] < origin[b],
        decreases rest.len(),
    {
        let x = rest.pop().unwrap();
        let ghost first = rest@.len() as int;
        proof {
            assert(rest@ =~= src.take(first));
            assert(x == src[first]);
        }
        let mut p: usize = 0;
        while p < sorted.len() && report_less(&sorted[p], &x)
            invariant
                p <= sorted@.len(),
                forall|a: int| 0 <= a < p ==> report_before(#[trigger] sorted@[a], x),
            decreases sorted.len() - p,
        {
            p = p + 1;
        }
        let ghost old_sorted = sorted@;
        let ghost old_origin = origin;
        sorted.insert(p, x);
        proof {
            origin = old_origin.insert(p as int, first);
            lemma_arranged_insert(src, first + 1, old_sorted, old_origin, p as int);
            assert forall|i: int, j: int| 0 <= i < j < sorted@.len() implies !report_before(#[trigger] sorted@[j], #[trigger] sorted@[i]) by {
                if j < p {
                    assert(sorted@[i] == old_sorted[i] && sorted@[j] == old_sorted[j]);
                } else if j == p {
                    assert(sorted@[i] == old_sorted[i]);
                    lemma_before_asymmetric(x, old_sorted[i]);
                } else if i < p {
                    assert(sorted@[i] == old_sorted[i] && sorted@[j] == old_sorted[j - 1]);
                } else if i == p {
                    assert(sorted@[j] == old_sorted[j - 1]);
                    assert(!report_before(old_sorted[p as int], x));
                    if j - 1 > p {
                        lemma_not_before_transitive(x, old_sorted[p as int], old_sorted[j - 1]);
                    }
                } else {
                    assert(sorted@[i] == old_sorted[i - 1] && sorted@[j] == old_sorted[j - 1]);
                }
            }
            assert forall|a: int, b: int| 0 <= a < b < sorted@.len() && same_key(#[trigger] sorted@[a], #[trigger] sorted@[b]) implies origin[a] < origin[b] by {
                if b < p {
                    assert(sorted@[a] == old_sorted[a] && sorted@[b] == old_sorted[b]);
                    assert(origin[a] == old_origin[a] && origin[b] == old_origin[b]);
                } else if b == p {
                    assert(sorted@[a] == old_sorted[a]);
                    assert(report_before(old_sorted[a], x));
                    lemma_lex_irreflexive(x.author_date@);
                    lemma_lex_irreflexive(x.sha@);
                } else if a < p {
                    assert(sorted@[a] == old_sorted[a] && sorted@[b] == old_sorted[b - 1]);
                    assert(origin[a] == old_origin[a] && origin[b] == old_origin[b - 1]);
                } else if a == p {
                    assert(origin[a] == first);
                    assert(origin[b] == old_origin[b - 1]);
                    assert(first + 1 <= old_origin[b - 1]);
                } else {
                    assert(sorted@[a] == old_sorted[a - 1] && sorted@[b] == old_sorted[b - 1]);
                    assert(origin[a] == old_origin[a - 1] && origin[b] == old_origin[b - 1]);
                }
            }
        }
    }
    proof {
        lemma_arranged_full(src, sorted@, origin);
        assert(arranged_by(src, sorted@, origin));
        lemma_sorted_by_full_key(sorted@);
    }
    sorted
}

/// Commits in report order have non-decreasing full `author_date` strings,
/// the `sha` ordering only commits of the same `author_date`.
proof fn lemma_sorted_by_full_key(s: Seq<CommitReport>)
    requires
        sorted_reports(s),
    ensures
        forall|i: int, j: int| 0 <= i < j < s.len() ==> !lex_lt((#[trigger] s[j]).author_date@, (#[trigger] s[i]).author_date@),
        forall|i: int, j: int| 0 <= i < j < s.len() && (#[trigger] s[i]).author_date@ == (#[trigger] s[j]).author_date@ ==> !lex_lt(s[j].sha@, s[i].sha@),
{
    assert forall|i: int, j: int| 0 <= i < j < s.len() implies !lex_lt((#[trigger] s[j]).author_date@, (#[trigger] s[i]).author_date@) by {
        assert(!report_before(s[j], s[i]));
    }
    assert forall|i: int, j: int| 0 <= i < j < s.len() && (#[trigger] s[i]).author_date@ == (#[trigger] s[j]).author_date@ implies !lex_lt(s[j].sha@, s[i].sha@) by {
        assert(!report_before(s[j], s[i]));
    }
}

/// Commits whose `author_date` strings are in report order, each the ISO
/// text of an instant with a four-digit year, are in chronological order.
pub proof fn lemma_report_order_is_chronological(s: Seq<CommitReport>, times: Seq<int>)
    requires
        times.len() == s.len(),
        forall|i: int, j: int| 0 <= i < j < s.len() ==> !lex_lt((#[trigger] s[j]).author_date@, (#[trigger] s[i]).author_date@),
        forall|i: int| 0 <= i < s.len() ==> (#[trigger] s[i]).author_date@ == iso8601_text(times[i]) && four_digit_year(times[i]),
    ensures
        forall|i: int, j: int| 0 <= i < j < s.len() ==> #[trigger] times[i] <= #[trigger] times[j],
{
    assert forall|i: int, j: int| 0 <= i < j < s.len() implies #[trigger] times[i] <= #[trigger] times[j] by {
        assert(!lex_lt(s[j].author_date@, s[i].author_date@));
        assert(s[i].author_date@ == iso8601_text(times[i]) && four_digit_year(times[i]));
        assert(s[j].author_date@ == iso8601_text(times[j]) && four_digit_year(times[j]));
        lemma_iso8601_order(times[j], times[i]);
    }
}

// ---------------------------------------------------------------------------
// Partition of the walked commits
// ---------------------------------------------------------------------------

/// The PR number of a commit when it is a squash-merge candidate.
pub open spec fn squash_pr(c: CommitInfo) -> Option<u64> {
    if c.parent_count == 1 { pr_number_of(c.message@) } else { None }
}

/// The commits of `s` that are not squash-merge candidates, in order.
pub open spec fn regular_part(s: Seq<CommitInfo>) -> Seq<CommitInfo>
    decreases s.len(),
{
    if s.len() == 0 {
        Seq::empty()
    } else if squash_pr(s.last()) is Some {
        regular_part(s.drop_last())
    } else {
        regular_part(s.drop_last()).push(s.last())
    }
}

/// The squash-merge candidates of `s` with their PR numbers, in order.
pub open spec fn squash_part(s: Seq<CommitInfo>) -> Seq<(CommitInfo, u64)>
    decreases s.len(),
{
    if s.len() == 0 {
        Seq::empty()
    } else {
        match squash_pr(s.last()) {
            Some(n) => squash_part(s.drop_last()).push((s.last(), n)),
            None => squash_part(s.drop_last()),
        }
    }
}

/// The items of `v` in reverse order.
fn reversed<T>(v: Vec<T>) -> (r: Vec<T>)
    ensures
        r@.len() == v@.len(),
        forall|i: int| 0 <= i < v@.len() ==> #[trigger] r@[i] == v@[v@.len() - 1 - i],
{
    let ghost orig = v@;
    let mut rest = v;
    let mut out: Vec<T> = Vec::new();
    while rest.len() > 0
        invariant
            rest@ == orig.take(rest@.len() as int),
            out@.len() + rest@.len() == orig.len(),
            forall|i: int| 0 <= i < out@.len() ==> #[trigger] out@[i] == orig[orig.len() - 1 - i],
        decreases rest.len(),
    {
        let x = rest.pop().unwrap();
        proof {
            assert(rest@ =~= orig.take(rest@.len() as int));
        }
        out.push(x);
    }
    out
}

/// Splits the walked commits into regular commits and squash-merge
/// candidates (with their PR numbers), each in walk order.
pub fn partition_commits(commits: Vec<CommitInfo>) -> (r: (Vec<CommitInfo>, Vec<(CommitInfo, u64)>))
    ensures
        r.0@ == regular_part(commits@),
        r.1@ == squash_part(commits@),
{
    let ghost orig = commits@;
    let n = commits.len();
    let mut rev = reversed(commits);
    let mut regular: Vec<CommitInfo> = Vec::new();
    let mut squash_merges: Vec<(CommitInfo, u64)> = Vec::new();
    let mut k: usize = 0;
    while k < n
        invariant
            n == orig.len(),
            k <= n,
            rev@.len() == n - k,
            forall|i: int| 0 <= i < rev@.len() ==> #[trigger] rev@[i] == orig[n - 1 - i],
            regular@ == regular_part(orig.take(k as int)),
            squash_merges@ == squash_part(orig.take(k as int)),
        decreases n - k,
    {
        let commit = rev.pop().unwrap();
        proof {
            assert(commit == orig[k as int]);
            assert(orig.take(k + 1).drop_last() =~= orig.take(k as int));
            assert(orig.take(k + 1).last() == orig[k as int]);
        }
        match is_squash_merge(&commit) {
            Some(pr_number) => squash_merges.push((commit, pr_number)),
            None => regular.push(commit),
        }
        k = k + 1;
    }
    assert(orig.take(n as int) =~= orig);
    (regular, squash_merges)
}

// ---------------------------------------------------------------------------
// Bot exclusion over a run
// ---------------------------------------------------------------------------

/// Indices of the commits of `s` that keep some non-bot attribution.
pub open spec fn kept_indices(s: Seq<CommitReport>) -> Seq<int>
    decreases s.len(),
{
    if s.len() == 0 {
        Seq::empty()
    } else if human_attributions(s.last().attributions@).len() > 0 {
        kept_indices(s.drop_last()).push(s.len() - 1)
    } else {
        kept_indices(s.drop_last())
    }
}

/// `c` is `orig` with its bot attributions removed.
pub open spec fn without_bot_attributions(orig: CommitReport, c: CommitReport) -> bool {
    &&& c.attributions@ == human_attributions(orig.attributions@)
    &&& c.sha == orig.sha
    &&& c.author_date == orig.author_date
    &&& c.is_squash_pr == orig.is_squash_pr
    &&& c.accurate == orig.accurate
}

/// `kept` is `commits` with bot attributions stripped and the commits left
/// with none dropped, in order.
pub open spec fn bots_stripped(commits: Seq<CommitReport>, kept: Seq<CommitReport>) -> bool {
    &&& kept.len() == kept_indices(commits).len()
    &&& forall|j: int| 0 <= j < kept.len() ==> without_bot_attributions(commits[kept_indices(commits)[j]], #[trigger] kept[j])
}

/// The distinct bot e-mails among the attributions `s`.
pub open spec fn bot_emails(s: Seq<Attribution>) -> Set<Seq<char>> {
    Set::new(|e: Seq<char>| attributed_to(s, e) && is_bot_address(e))
}

/// The kept indices are indices of `s`, at most as many as it has.
pub proof fn lemma_kept_indices_bound(s: Seq<CommitReport>)
    ensures
        forall|j: int| 0 <= j < kept_indices(s).len() ==> 0 <= #[trigger] kept_indices(s)[j] < s.len(),
        kept_indices(s).len() <= s.len(),
    decreases s.len(),
{
    if s.len() > 0 {
        lemma_kept_indices_bound(s.drop_last());
    }
}

/// Strips bot attributions, dropping the commits left with none, and counts
/// the distinct bot e-mails seen.
pub fn exclude_bots(commits: Vec<CommitReport>) -> (r: (Vec<CommitReport>, u64))
    ensures
        bots_stripped(commits@, r.0@),
        r.1 == bot_emails(all_attributions(commits@)).len(),
{
    let ghost orig = commits@;
    let n = commits.len();
    let mut rev = reversed(commits);
    let mut kept: Vec<CommitReport> = Vec::new();
    let mut seen: Vec<String> = Vec::new();
    let mut k: usize = 0;
    proof {
        assert(orig.take(0) =~= Seq::<CommitReport>::empty());
    }
    while k < n
        invariant
            n == orig.len(),
            k <= n,
            rev@.len() == n - k,
            forall|i: int| 0 <= i < rev@.len() ==> #[trigger] rev@[i] == orig[n - 1 - i],
            bots_stripped(orig.take(k as int), kept@),
            seen_bots(all_attributions(orig.take(k as int)), seen@),
        decreases n - k,
    {
        let commit = rev.pop().unwrap();
        let ghost p = orig.take(k as int);
        let ghost p1 = orig.take(k + 1);
        proof {
            assert(commit == orig[k as int]);
            assert(p1.drop_last() =~= p);
            assert(p1.last() == orig[k as int]);
            assert(all_attributions(p1) == all_attributions(p) + commit.attributions@);
        }
        let mut a: usize = 0;
        while a < commit.attributions.len()
            invariant
                a <= commit.attributions@.len(),
                seen_bots(all_attributions(p) + commit.attributions@.take(a as int), seen@),
            decreases commit.attributions.len() - a,
        {
            let email = &commit.attributions[a].email;
            let ghost s0 = all_attributions(p) + commit.attributions@.take(a as int);
            proof {
                assert(all_attributions(p) + commit.attributions@.take(a + 1) =~= s0.push(commit.attributions@[a as int]));
            }
            if is_bot_email(email.as_str()) {
                let ghost old_seen = seen@;
                let mut found = false;
                let mut j: usize = 0;
                while j < seen.len()
                    invariant
                        j <= seen@.len(),
                        found == exists|t: int| 0 <= t < j && (#[trigger] seen@[t])@ == email@,
                    decreases seen.len() - j,
                {
                    if seen[j] == *email {
                        found = true;
                    }
                    j = j + 1;
                }
                proof {
                    assert(found == lists_email(old_seen, email@));
                }
                if !found {
                    seen.push(email.clone());
                    proof {
                        assert(seen@.drop_last() =~= old_seen);
                    }
                }
                proof {
                    lemma_seen_step(s0, commit.attributions@[a as int], old_seen, seen@);
                }
            } else {
                proof {
                    lemma_seen_skip(s0, commit.attributions@[a as int], seen@);
                }
            }
            a = a + 1;
        }
        assert(commit.attributions@.take(a as int) =~= commit.attributions@);
        let ghost before = kept@;
        match filter_bots(commit) {
            Some(c) => {
                kept.push(c);
            },
            None => {},
        }
        proof {
            lemma_kept_indices_bound(p);
            assert(kept_indices(p1).len() == kept@.len());
            assert forall|j: int| 0 <= j < kept@.len() implies without_bot_attributions(p1[kept_indices(p1)[j]], #[trigger] kept@[j]) by {
                if j < before.len() {
                    assert(kept@[j] == before[j]);
                    assert(kept_indices(p1)[j] == kept_indices(p)[j]);
                    assert(p1[kept_indices(p)[j]] == p[kept_indices(p)[j]]);
                }
            }
        }
        k = k + 1;
    }
    assert(orig.take(n as int) =~= orig);
    proof {
        lemma_seen_count(all_attributions(orig), seen@);
    }
    (kept, seen.len() as u64)
}

/// `out` is `emitted` with bot attributions stripped (commits left with
/// none dropped), rearranged with reports of the same key kept in order.
pub open spec fn stripped_then_arranged(emitted: Seq<CommitReport>, out: Seq<CommitReport>) -> bool {
    exists|kept: Seq<CommitReport>| #[trigger] bots_stripped(emitted, kept) && stable_arrangement(kept, out)
}

/// Assembles the final report from the commit reports of a run: bot
/// attributions are stripped unless `include_bots`, and the commits are put
/// in chronological order, `sha` breaking ties.
pub fn finish_report(emitted: Vec<CommitReport>, squash_merges_expanded: u64, include_bots: bool) -> (r: Report)
    ensures
        r.summary.total_commits_walked == emitted@.len(),
        r.summary.squash_merges_expanded == squash_merges_expanded,
        include_bots ==> r.summary.bots_excluded == 0 && stable_arrangement(emitted@, r.commits@),
        !include_bots ==> r.summary.bots_excluded == bot_emails(all_attributions(emitted@)).len()
            && stripped_then_arranged(emitted@, r.commits@),
        sorted_reports(r.commits@),
        forall|i: int, j: int| 0 <= i < j < r.commits@.len() ==> !lex_lt((#[trigger] r.commits@[j]).author_date@, (#[trigger] r.commits@[i]).author_date@),
        forall|i: int, j: int| 0 <= i < j < r.commits@.len() && (#[trigger] r.commits@[i]).author_date@ == (#[trigger] r.commits@[j]).author_date@ ==> !lex_lt(r.commits@[j].sha@, r.commits@[i].sha@),
{
    let ghost src = emitted@;
    let total_commits_walked = emitted.len() as u64;
    if include_bots {
        let commits = sort_commits(emitted);
        Report {
            commits,
            summary: Summary { total_commits_walked, squash_merges_expanded, bots_excluded: 0 },
        }
    } else {
        let (kept, bots_excluded) = exclude_bots(emitted);
        let ghost kept_view = kept@;
        let commits = sort_commits(kept);
        proof {
            assert(bots_stripped(src, kept_view) && stable_arrangement(kept_view, commits@));
        }
        Report {
            commits,
            summary: Summary { total_commits_walked, squash_merges_expanded, bots_excluded },
        }
    }
}

/// `seen` lists the bot e-mails among the attributions `s`, each once.
pub open spec fn seen_bots(s: Seq<Attribution>, seen: Seq<String>) -> bool {
    &&& forall|i: int, j: int| 0 <= i < j < seen.len() ==> (#[trigger] seen[i])@ != (#[trigger] seen[j])@
    &&& forall|i: int| 0 <= i < seen.len() ==> attributed_to(s, (#[trigger] seen[i])@) && is_bot_address(seen[i]@)
    &&& forall|e: Seq<char>| attributed_to(s, e) && is_bot_address(e) ==> #[trigger] lists_email(seen, e)
}

pub open spec fn lists_email(seen: Seq<String>, e: Seq<char>) -> bool {
    exists|i: int| 0 <= i < seen.len() && (#[trigger] seen[i])@ == e
}

proof fn lemma_attributed_push(s: Seq<Attribution>, a: Attribution, e: Seq<char>)
    ensures
        attributed_to(s.push(a), e) == (attributed_to(s, e) || a.email@ == e),
{
    let p = s.push(a);
    if attributed_to(p, e) {
        let j = choose|j: int| 0 <= j < p.len() && (#[trigger] p[j]).email@ == e;
        if j < s.len() {
            assert(s[j] == p[j]);
        }
    }
    if attributed_to(s, e) {
        let j = choose|j: int| 0 <= j < s.len() && (#[trigger] s[j]).email@ == e;
        assert(p[j] == s[j]);
    }
    assert(p[s.len() as int] == a);
}

proof fn lemma_seen_step(s: Seq<Attribution>, a: Attribution, old_seen: Seq<String>, seen: Seq<String>)
    requires
        seen_bots(s, old_seen),
        is_bot_address(a.email@),
        lists_email(old_seen, a.email@) ==> seen == old_seen,
        !lists_email(old_seen, a.email@) ==> seen.len() == old_seen.len() + 1 && seen.drop_last() == old_seen && seen.last()@ == a.email@,
    ensures
        seen_bots(s.push(a), seen),
{
    let p = s.push(a);
    assert forall|i: int| 0 <= i < seen.len() implies attributed_to(p, (#[trigger] seen[i])@) && is_bot_address(seen[i]@) by {
        lemma_attributed_push(s, a, seen[i]@);
        if i < old_seen.len() {
            assert(seen[i] == old_seen[i]);
        }
    }
    assert forall|e: Seq<char>| attributed_to(p, e) && is_bot_address(e) implies #[trigger] lists_email(seen, e) by {
        lemma_attributed_push(s, a, e);
        if attributed_to(s, e) {
            assert(lists_email(old_seen, e));
            let i = choose|i: int| 0 <= i < old_seen.len() && (#[trigger] old_seen[i])@ == e;
            assert(seen[i] == old_seen[i]);
        } else {
            if lists_email(old_seen, a.email@) {
                let t = choose|t: int| 0 <= t < old_seen.len() && (#[trigger] old_seen[t])@ == a.email@;
                assert(seen[t] == old_seen[t]);
            } else {
                assert(seen[old_seen.len() as int]@ == e);
            }
        }
    }
    assert forall|i: int, j: int| 0 <= i < j < seen.len() implies (#[trigger] seen[i])@ != (#[trigger] seen[j])@ by {
        if j < old_seen.len() {
            assert(seen[i] == old_seen[i] && seen[j] == old_seen[j]);
        } else {
            assert(seen[i] == old_seen[i]);
            if seen[i]@ == seen[j]@ {
                assert(lists_email(old_seen, a.email@));
            }
        }
    }
}

proof fn lemma_seen_skip(s: Seq<Attribution>, a: Attribution, seen: Seq<String>)
    requires
        seen_bots(s, seen),
        !is_bot_address(a.email@),
    ensures
        seen_bots(s.push(a), seen),
{
    let p = s.push(a);
    assert forall|i: int| 0 <= i < seen.len() implies attributed_to(p, (#[trigger] seen[i])@) && is_bot_address(seen[i]@) by {
        lemma_attributed_push(s, a, seen[i]@);
    }
    assert forall|e: Seq<char>| attributed_to(p, e) && is_bot_address(e) implies #[trigger] lists_email(seen, e) by {
        lemma_attributed_push(s, a, e);
    }
}

proof fn lemma_seen_count(s: Seq<Attribution>, seen: Seq<String>)
    requires
        seen_bots(s, seen),
    ensures
        bot_emails(s).len() == seen.len(),
{
    let views = seen.map_values(|x: String| x@);
    assert(views.no_duplicates()) by {
        assert forall|i: int, j: int| 0 <= i < views.len() && 0 <= j < views.len() && i != j implies views[i] != views[j] by {
            if i < j {
                assert(seen[i]@ != seen[j]@);
            } else {
                assert(seen[j]@ != seen[i]@);
            }
        }
    }
    views.unique_seq_to_set();
    assert(views.to_set() =~= bot_emails(s)) by {
        assert forall|e: Seq<char>| views.to_set().contains(e) implies bot_emails(s).contains(e) by {
            let i = choose|i: int| 0 <= i < views.len() && views[i] == e;
            assert(seen[i]@ == e);
        }
        assert forall|e: Seq<char>| bot_emails(s).contains(e) implies views.to_set().contains(e) by {
            assert(lists_email(seen, e));
            let i = choose|i: int| 0 <= i < seen.len() && (#[trigger] seen[i])@ == e;
            assert(views[i] == e);
        }
    }
}

} // verus!
