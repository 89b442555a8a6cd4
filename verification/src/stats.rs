use vstd::prelude::*;

use crate::git::{is_bot_address, is_bot_email, Author, FileDelta};
use crate::text::{chars_less, chars_of, lemma_lex_irreflexive, lemma_lex_total, lemma_lex_transitive, lex_lt};

verus! {

// ---------------------------------------------------------------------------
// Output types
// ---------------------------------------------------------------------------

/// One emitted commit (or one squash-merge with multiple authors).
///
/// For regular direct commits `attributions` has a single entry.
/// For successfully-expanded squash-merge PRs it has one entry per
/// re-attributed author, each marked `is_pr_author: true`.
/// For failed squash-merge expansion (no token / API error) it falls back
/// to a single entry with `is_squash_pr: false` and `accurate: false`.
#[derive(Debug)]
pub struct CommitReport {
    pub sha: String,
    pub author_date: String,
    pub is_squash_pr: bool,
    pub attributions: Vec<Attribution>,
    pub accurate: bool,
}

/// One author's share of a commit's line changes.
#[derive(Debug)]
pub struct Attribution {
    pub name: String,
    pub email: String,
    pub additions: u64,
    pub deletions: u64,
    pub is_pr_author: bool,
}

/// Run-level counters.
#[derive(Debug)]
pub struct Summary {
    pub total_commits_walked: u64,
    pub squash_merges_expanded: u64,
    pub bots_excluded: u64,
}

impl Default for Summary {
    fn default() -> (r: Self)
        ensures
            r.total_commits_walked == 0,
            r.squash_merges_expanded == 0,
            r.bots_excluded == 0,
    {
        Summary { total_commits_walked: 0, squash_merges_expanded: 0, bots_excluded: 0 }
    }
}

/// The full report produced by a run.
#[derive(Debug)]
pub struct Report {
    pub commits: Vec<CommitReport>,
    pub summary: Summary,
}

impl Default for Report {
    fn default() -> (r: Self)
        ensures
            r.commits@.len() == 0,
            r.summary.total_commits_walked == 0,
            r.summary.squash_merges_expanded == 0,
            r.summary.bots_excluded == 0,
    {
        Report { commits: Vec::new(), summary: Summary::default() }
    }
}

// ---------------------------------------------------------------------------
// Line totals
// ---------------------------------------------------------------------------

pub open spec fn sum_additions(s: Seq<FileDelta>) -> int
    decreases s.len(),
{
    if s.len() == 0 {
        0
    } else {
        sum_additions(s.drop_last()) + s.last().additions
    }
}

pub open spec fn sum_deletions(s: Seq<FileDelta>) -> int
    decreases s.len(),
{
    if s.len() == 0 {
        0
    } else {
        sum_deletions(s.drop_last()) + s.last().deletions
    }
}

proof fn lemma_sum_prefix(s: Seq<FileDelta>, k: int)
    requires
        0 <= k <= s.len(),
    ensures
        0 <= sum_additions(s.take(k)) <= sum_additions(s),
        0 <= sum_deletions(s.take(k)) <= sum_deletions(s),
    decreases s.len() - k,
{
    if k < s.len() {
        lemma_sum_prefix(s, k + 1);
        assert(s.take(k + 1).drop_last() =~= s.take(k));
    } else {
        assert(s.take(k) =~= s);
    }
    lemma_sum_nonneg(s.take(k));
}

pub proof fn lemma_sum_nonneg(s: Seq<FileDelta>)
    ensures
        sum_additions(s) >= 0,
        sum_deletions(s) >= 0,
    decreases s.len(),
{
    if s.len() > 0 {
        lemma_sum_nonneg(s.drop_last());
    }
}

/// Total lines added over `deltas`.
pub fn total_additions(deltas: &Vec<FileDelta>) -> (r: u64)
    requires
        sum_additions(deltas@) <= u64::MAX,
    ensures
        r == sum_additions(deltas@),
{
    let mut acc: u64 = 0;
    let mut i: usize = 0;
    while i < deltas.len()
        invariant
            i <= deltas@.len(),
            sum_additions(deltas@) <= u64::MAX,
            acc == sum_additions(deltas@.take(i as int)),
        decreases deltas.len() - i,
    {
        proof {
            assert(deltas@.take(i + 1).drop_last() =~= deltas@.take(i as int));
            lemma_sum_prefix(deltas@, i + 1);
        }
        acc = acc + deltas[i].additions;
        i = i + 1;
    }
    assert(deltas@.take(i as int) =~= deltas@);
    acc
}

/// Total lines removed over `deltas`.
pub fn total_deletions(deltas: &Vec<FileDelta>) -> (r: u64)
    requires
        sum_deletions(deltas@) <= u64::MAX,
    ensures
        r == sum_deletions(deltas@),
{
    let mut acc: u64 = 0;
    let mut i: usize = 0;
    while i < deltas.len()
        invariant
            i <= deltas@.len(),
            sum_deletions(deltas@) <= u64::MAX,
            acc == sum_deletions(deltas@.take(i as int)),
        decreases deltas.len() - i,
    {
        proof {
            assert(deltas@.take(i + 1).drop_last() =~= deltas@.take(i as int));
            lemma_sum_prefix(deltas@, i + 1);
        }
        acc = acc + deltas[i].deletions;
        i = i + 1;
    }
    assert(deltas@.take(i as int) =~= deltas@);
    acc
}

// ---------------------------------------------------------------------------
// Squash-merge proportional attribution
// ---------------------------------------------------------------------------

/// Whether some PR commit of `pr` is by the e-mail `e`.
pub open spec fn has_email(pr: Seq<(Author, Vec<FileDelta>)>, e: Seq<char>) -> bool {
    exists|k: int| 0 <= k < pr.len() && (#[trigger] pr[k]).0.email@ == e
}

/// Lines added by the commits of `pr` whose author e-mail is `e`.
pub open spec fn email_additions(pr: Seq<(Author, Vec<FileDelta>)>, e: Seq<char>) -> int
    decreases pr.len(),
{
    if pr.len() == 0 {
        0
    } else {
        email_additions(pr.drop_last(), e) + if pr.last().0.email@ == e {
            sum_additions(pr.last().1@)
        } else {
            0
        }
    }
}

/// Lines removed by the commits of `pr` whose author e-mail is `e`.
pub open spec fn email_deletions(pr: Seq<(Author, Vec<FileDelta>)>, e: Seq<char>) -> int
    decreases pr.len(),
{
    if pr.len() == 0 {
        0
    } else {
        email_deletions(pr.drop_last(), e) + if pr.last().0.email@ == e {
            sum_deletions(pr.last().1@)
        } else {
            0
        }
    }
}

/// Lines added over all commits of `pr`.
pub open spec fn pr_additions(pr: Seq<(Author, Vec<FileDelta>)>) -> int
    decreases pr.len(),
{
    if pr.len() == 0 {
        0
    } else {
        pr_additions(pr.drop_last()) + sum_additions(pr.last().1@)
    }
}

/// Lines removed over all commits of `pr`.
pub open spec fn pr_deletions(pr: Seq<(Author, Vec<FileDelta>)>) -> int
    decreases pr.len(),
{
    if pr.len() == 0 {
        0
    } else {
        pr_deletions(pr.drop_last()) + sum_deletions(pr.last().1@)
    }
}

/// The name that the first commit of `pr` by the e-mail `e` carries.
pub open spec fn first_name_for(pr: Seq<(Author, Vec<FileDelta>)>, e: Seq<char>) -> Seq<char>
    decreases pr.len(),
{
    if pr.len() == 0 {
        Seq::empty()
    } else if has_email(pr.drop_last(), e) {
        first_name_for(pr.drop_last(), e)
    } else {
        pr.last().0.name@
    }
}

/// Number of distinct author e-mails in `pr`.
pub open spec fn distinct_emails(pr: Seq<(Author, Vec<FileDelta>)>) -> int
    decreases pr.len(),
{
    if pr.len() == 0 {
        0
    } else {
        distinct_emails(pr.drop_last()) + if has_email(pr.drop_last(), pr.last().0.email@) {
            0int
        } else {
            1int
        }
    }
}

/// One author's share of `total` lines: proportional to the author's `part`
/// of the PR's `grand` total (rounded down), or an equal split among the
/// `n` authors when the PR commits changed no such lines at all.
pub open spec fn share(total: int, part: int, grand: int, n: int) -> int {
    if grand == 0 {
        total / (if n >= 1 { n } else { 1 })
    } else {
        (total * part) / grand
    }
}

pub proof fn lemma_pr_step(pr: Seq<(Author, Vec<FileDelta>)>, k: int, e: Seq<char>)
    requires
        0 <= k < pr.len(),
    ensures
        pr.take(k + 1).drop_last() == pr.take(k),
        pr.take(k + 1).last() == pr[k],
        has_email(pr.take(k + 1), e) == (has_email(pr.take(k), e) || pr[k].0.email@ == e),
{
    assert(pr.take(k + 1).drop_last() =~= pr.take(k));
    let p = pr.take(k + 1);
    if has_email(p, e) {
        let j = choose|j: int| 0 <= j < p.len() && (#[trigger] p[j]).0.email@ == e;
        if j < k {
            assert(pr.take(k)[j] == p[j]);
        }
    }
    if has_email(pr.take(k), e) {
        let j = choose|j: int| 0 <= j < k && (#[trigger] pr.take(k)[j]).0.email@ == e;
        assert(p[j] == pr.take(k)[j]);
    }
    if pr[k].0.email@ == e {
        assert(p[k] == pr[k]);
    }
}

pub proof fn lemma_pr_totals_nonneg(pr: Seq<(Author, Vec<FileDelta>)>, e: Seq<char>)
    ensures
        0 <= email_additions(pr, e) <= pr_additions(pr),
        0 <= email_deletions(pr, e) <= pr_deletions(pr),
    decreases pr.len(),
{
    if pr.len() > 0 {
        lemma_pr_totals_nonneg(pr.drop_last(), e);
        lemma_sum_nonneg(pr.last().1@);
    }
}

proof fn lemma_pr_prefix(pr: Seq<(Author, Vec<FileDelta>)>, k: int)
    requires
        0 <= k <= pr.len(),
    ensures
        pr_additions(pr.take(k)) <= pr_additions(pr),
        pr_deletions(pr.take(k)) <= pr_deletions(pr),
        k < pr.len() ==> pr_additions(pr.take(k)) + sum_additions(pr[k].1@) <= pr_additions(pr),
        k < pr.len() ==> pr_deletions(pr.take(k)) + sum_deletions(pr[k].1@) <= pr_deletions(pr),
    decreases pr.len() - k,
{
    if k < pr.len() {
        lemma_pr_prefix(pr, k + 1);
        assert(pr.take(k + 1).drop_last() =~= pr.take(k));
        lemma_sum_nonneg(pr[k].1@);
    } else {
        assert(pr.take(k) =~= pr);
    }
}

/// Strictly increasing e-mails.
pub open spec fn sorted_by_email(authors: Seq<Author>) -> bool {
    forall|i: int, j: int| 0 <= i < j < authors.len() ==> lex_lt(#[trigger] authors[i].email@, #[trigger] authors[j].email@)
}

/// The aggregation table of `compute_squash_attributions` over the PR
/// commits `p`: one row per distinct e-mail, sorted by e-mail.
pub open spec fn aggregated(p: Seq<(Author, Vec<FileDelta>)>, authors: Seq<Author>, adds: Seq<u64>, dels: Seq<u64>) -> bool {
    &&& authors.len() == adds.len() == dels.len() == distinct_emails(p)
    &&& sorted_by_email(authors)
    &&& forall|i: int| 0 <= i < authors.len() ==> {
        &&& has_email(p, #[trigger] authors[i].email@)
        &&& authors[i].name@ == first_name_for(p, authors[i].email@)
        &&& adds[i] == email_additions(p, authors[i].email@)
        &&& dels[i] == email_deletions(p, authors[i].email@)
    }
    &&& forall|t: int| 0 <= t < p.len() ==> exists|i: int| 0 <= i < authors.len() && #[trigger] authors[i].email@ == (#[trigger] p[t]).0.email@
}

proof fn lemma_sorted_excludes(authors: Seq<Author>, pos: int, e: Seq<char>)
    requires
        sorted_by_email(authors),
        0 <= pos <= authors.len(),
        forall|i: int| 0 <= i < pos ==> lex_lt(#[trigger] authors[i].email@, e),
        pos < authors.len() ==> lex_lt(e, authors[pos].email@),
    ensures
        forall|i: int| 0 <= i < authors.len() ==> #[trigger] authors[i].email@ != e,
{
    assert forall|i: int| 0 <= i < authors.len() implies #[trigger] authors[i].email@ != e by {
        if i < pos {
            lemma_lex_irreflexive(e);
        } else {
            if i > pos {
                lemma_lex_transitive(e, authors[pos].email@, authors[i].email@);
            }
            lemma_lex_irreflexive(e);
        }
    }
}

/// `r` is the squash-merge attribution of the PR commits `pr` over the
/// merge commit's deltas `squash`: one entry per distinct author e-mail of
/// `pr`, sorted by e-mail, named as the author's first PR commit, with the
/// author's share of the merge commit's lines, each a PR authorship.
pub open spec fn squash_attribution_of(pr: Seq<(Author, Vec<FileDelta>)>, squash: Seq<FileDelta>, r: Seq<Attribution>) -> bool {
    &&& r.len() == distinct_emails(pr)
    &&& forall|i: int, j: int| 0 <= i < j < r.len() ==> lex_lt(#[trigger] r[i].email@, #[trigger] r[j].email@)
    &&& forall|i: int| 0 <= i < r.len() ==> {
        let e = (#[trigger] r[i]).email@;
        &&& has_email(pr, e)
        &&& r[i].name@ == first_name_for(pr, e)
        &&& r[i].additions == share(sum_additions(squash), email_additions(pr, e), pr_additions(pr), distinct_emails(pr))
        &&& r[i].deletions == share(sum_deletions(squash), email_deletions(pr, e), pr_deletions(pr), distinct_emails(pr))
        &&& r[i].is_pr_author
    }
    &&& forall|k: int| 0 <= k < pr.len() ==> exists|i: int| 0 <= i < r.len() && #[trigger] r[i].email@ == (#[trigger] pr[k]).0.email@
}

/// Compute proportional per-author attributions for a squash-merge.
///
/// `pr_author_deltas` is the list of (author, file deltas) per PR commit
/// (may contain duplicates for the same author across multiple PR commits).
/// `squash_deltas` is the merge commit's filtered file deltas.
///
/// Returns one [`Attribution`] per unique author in the PR, with their
/// proportional share of the squash commit's totals, sorted by e-mail. Each
/// entry is marked `is_pr_author: true`. The sum of per-author
/// additions/deletions may be slightly less than the squash totals due to
/// integer-division rounding.
pub fn compute_squash_attributions(pr_author_deltas: &Vec<(Author, Vec<FileDelta>)>, squash_deltas: &Vec<FileDelta>) -> (r: Vec<Attribution>)
    requires
        sum_additions(squash_deltas@) <= u64::MAX,
        sum_deletions(squash_deltas@) <= u64::MAX,
        pr_additions(pr_author_deltas@) <= u64::MAX,
        pr_deletions(pr_author_deltas@) <= u64::MAX,
        forall|e: Seq<char>| sum_additions(squash_deltas@) * #[trigger] email_additions(pr_author_deltas@, e) <= u64::MAX,
        forall|e: Seq<char>| sum_deletions(squash_deltas@) * #[trigger] email_deletions(pr_author_deltas@, e) <= u64::MAX,
    ensures
        squash_attribution_of(pr_author_deltas@, squash_deltas@, r@),
{
    let ghost pr = pr_author_deltas@;
    let total_squash_adds = total_additions(squash_deltas);
    let total_squash_dels = total_deletions(squash_deltas);

    // Aggregate by unique author (email), keeping rows sorted by e-mail.
    let mut authors: Vec<Author> = Vec::new();
    let mut adds_by: Vec<u64> = Vec::new();
    let mut dels_by: Vec<u64> = Vec::new();
    let mut grand_adds: u64 = 0;
    let mut grand_dels: u64 = 0;
    let n = pr_author_deltas.len();
    let mut k: usize = 0;
    assert(pr.take(0) =~= Seq::<(Author, Vec<FileDelta>)>::empty());
    while k < n
        invariant
            n == pr.len(),
            pr == pr_author_deltas@,
            k <= n,
            pr_additions(pr) <= u64::MAX,
            pr_deletions(pr) <= u64::MAX,
            aggregated(pr.take(k as int), authors@, adds_by@, dels_by@),
            grand_adds == pr_additions(pr.take(k as int)),
            grand_dels == pr_deletions(pr.take(k as int)),
        decreases n - k,
    {
        let ghost p = pr.take(k as int);
        let ghost p1 = pr.take(k + 1);
        let author = &pr_author_deltas[k].0;
        let deltas = &pr_author_deltas[k].1;
        proof {
            lemma_pr_prefix(pr, k as int);
            lemma_sum_nonneg(deltas@);
            lemma_pr_step(pr, k as int, author.email@);
        }
        let adds = total_additions(deltas);
        let dels = total_deletions(deltas);
        grand_adds = grand_adds + adds;
        grand_dels = grand_dels + dels;

        // Find the row of this e-mail, or where it belongs.
        let email = chars_of(author.email.as_str());
        let mut pos: usize = 0;
        let mut found = false;
        while pos < authors.len()
            invariant_except_break
                !found,
            invariant
                pos <= authors@.len(),
                email@ == author.email@,
                sorted_by_email(authors@),
                forall|i: int| 0 <= i < pos ==> lex_lt(#[trigger] authors@[i].email@, email@),
            ensures
                pos <= authors@.len(),
                found ==> pos < authors@.len() && authors@[pos as int].email@ == email@,
                !found ==> pos == authors@.len() || lex_lt(email@, authors@[pos as int].email@),
                forall|i: int| 0 <= i < pos ==> lex_lt(#[trigger] authors@[i].email@, email@),
            decreases authors.len() - pos,
        {
            let here = chars_of(authors[pos].email.as_str());
            if authors[pos].email == author.email {
                found = true;
                break;
            }
            if chars_less(&email, &here) {
                break;
            }
            proof {
                lemma_lex_total(here@, email@);
            }
            pos = pos + 1;
        }
        if found {
            assert(authors@[pos as int].email@ == author.email@);
            proof {
                lemma_pr_totals_nonneg(p1, author.email@);
            }
            let a = adds_by[pos] + adds;
            let d = dels_by[pos] + dels;
            adds_by.set(pos, a);
            dels_by.set(pos, d);
            proof {
                assert forall|i: int| 0 <= i < authors@.len() implies {
                    &&& has_email(p1, #[trigger] authors@[i].email@)
                    &&& authors@[i].name@ == first_name_for(p1, authors@[i].email@)
                    &&& adds_by@[i] == email_additions(p1, authors@[i].email@)
                    &&& dels_by@[i] == email_deletions(p1, authors@[i].email@)
                } by {
                    lemma_pr_step(pr, k as int, authors@[i].email@);
                    if i != pos {
                        lemma_lex_irreflexive(authors@[i].email@);
                        if i < pos {
                            assert(lex_lt(authors@[i].email@, authors@[pos as int].email@));
                        } else {
                            assert(lex_lt(authors@[pos as int].email@, authors@[i].email@));
                        }
                    }
                }
                assert forall|t: int| 0 <= t < p1.len() implies exists|i: int| 0 <= i < authors@.len() && #[trigger] authors@[i].email@ == (#[trigger] p1[t]).0.email@ by {
                    if t < k {
                        assert(p1[t] == p[t]);
                    } else {
                        assert(authors@[pos as int].email@ == p1[t].0.email@);
                    }
                }
            }
        } else {
            proof {
                lemma_sorted_excludes(authors@, pos as int, email@);
                if has_email(p, author.email@) {
                    let t = choose|t: int| 0 <= t < p.len() && (#[trigger] p[t]).0.email@ == author.email@;
                    let i = choose|i: int| 0 <= i < authors@.len() && #[trigger] authors@[i].email@ == (#[trigger] p[t]).0.email@;
                    assert(authors@[i].email@ != email@);
                }
            }
            let row = Author { name: author.name.clone(), email: author.email.clone() };
            let ghost old_authors = authors@;
            let ghost old_adds = adds_by@;
            let ghost old_dels = dels_by@;
            authors.insert(pos, row);
            adds_by.insert(pos, adds);
            dels_by.insert(pos, dels);
            proof {
                assert forall|i: int, j: int| 0 <= i < j < authors@.len() implies lex_lt(#[trigger] authors@[i].email@, #[trigger] authors@[j].email@) by {
                    if j < pos {
                        assert(authors@[i] == old_authors[i] && authors@[j] == old_authors[j]);
                    } else if j == pos {
                        assert(authors@[i] == old_authors[i]);
                    } else if i < pos {
                        assert(authors@[i] == old_authors[i] && authors@[j] == old_authors[j - 1]);
                        if j - 1 > pos {
                            lemma_lex_transitive(authors@[i].email@, email@, old_authors[pos as int].email@);
                            lemma_lex_transitive(authors@[i].email@, old_authors[pos as int].email@, old_authors[j - 1].email@);
                        } else {
                            lemma_lex_transitive(authors@[i].email@, email@, old_authors[pos as int].email@);
                        }
                    } else if i == pos {
                        assert(authors@[j] == old_authors[j - 1]);
                        if j - 1 > pos {
                            lemma_lex_transitive(email@, old_authors[pos as int].email@, old_authors[j - 1].email@);
                        }
                    } else {
                        assert(authors@[i] == old_authors[i - 1] && authors@[j] == old_authors[j - 1]);
                    }
                }
                assert forall|i: int| 0 <= i < authors@.len() implies {
                    &&& has_email(p1, #[trigger] authors@[i].email@)
                    &&& authors@[i].name@ == first_name_for(p1, authors@[i].email@)
                    &&& adds_by@[i] == email_additions(p1, authors@[i].email@)
                    &&& dels_by@[i] == email_deletions(p1, authors@[i].email@)
                } by {
                    lemma_pr_step(pr, k as int, authors@[i].email@);
                    assert(p1.drop_last() == p);
                    assert(p1.last() == pr[k as int]);
                    if i < pos {
                        assert(authors@[i] == old_authors[i] && adds_by@[i] == old_adds[i] && dels_by@[i] == old_dels[i]);
                        assert(old_authors[i].email@ != email@);
                    } else if i > pos {
                        assert(authors@[i] == old_authors[i - 1] && adds_by@[i] == old_adds[i - 1] && dels_by@[i] == old_dels[i - 1]);
                        assert(old_authors[i - 1].email@ != email@);
                    } else {
                        assert(authors@[i] == row);
                        assert(row.email@ == email@ && row.name@ == author.name@);
                        assert(!has_email(p, email@));
                        lemma_email_absent(p, author.email@);
                        assert(first_name_for(p1, email@) == author.name@);
                    }
                }
                assert forall|t: int| 0 <= t < p1.len() implies exists|i: int| 0 <= i < authors@.len() && #[trigger] authors@[i].email@ == (#[trigger] p1[t]).0.email@ by {
                    if t < k {
                        assert(p1[t] == p[t]);
                        let i0 = choose|i: int| 0 <= i < old_authors.len() && #[trigger] old_authors[i].email@ == (#[trigger] p[t]).0.email@;
                        if i0 < pos {
                            assert(authors@[i0] == old_authors[i0]);
                        } else {
                            assert(authors@[i0 + 1] == old_authors[i0]);
                        }
                    } else {
                        assert(authors@[pos as int].email@ == p1[t].0.email@);
                    }
                }
            }
        }
        k = k + 1;
    }
    let ghost full = pr.take(n as int);
    assert(full =~= pr);

    let num_authors = authors.len() as u64;
    let divisor = if num_authors > 1 { num_authors } else { 1 };
    let equal_adds = total_squash_adds / divisor;
    let equal_dels = total_squash_dels / divisor;

    let mut result: Vec<Attribution> = Vec::new();
    let mut i: usize = 0;
    while i < authors.len()
        invariant
            i <= authors@.len(),
            pr == pr_author_deltas@,
            aggregated(pr, authors@, adds_by@, dels_by@),
            grand_adds == pr_additions(pr),
            grand_dels == pr_deletions(pr),
            total_squash_adds == sum_additions(squash_deltas@),
            total_squash_dels == sum_deletions(squash_deltas@),
            num_authors == authors@.len(),
            equal_adds == share(total_squash_adds as int, 0, 0, num_authors as int),
            equal_dels == share(total_squash_dels as int, 0, 0, num_authors as int),
            forall|e: Seq<char>| sum_additions(squash_deltas@) * #[trigger] email_additions(pr_author_deltas@, e) <= u64::MAX,
            forall|e: Seq<char>| sum_deletions(squash_deltas@) * #[trigger] email_deletions(pr_author_deltas@, e) <= u64::MAX,
            result@.len() == i,
            forall|j: int| 0 <= j < i ==> {
                &&& (#[trigger] result@[j]).email@ == authors@[j].email@
                &&& result@[j].name@ == authors@[j].name@
                &&& result@[j].additions == share(total_squash_adds as int, adds_by@[j] as int, grand_adds as int, num_authors as int)
                &&& result@[j].deletions == share(total_squash_dels as int, dels_by@[j] as int, grand_dels as int, num_authors as int)
                &&& result@[j].is_pr_author
            },
        decreases authors.len() - i,
    {
        let a = adds_by[i];
        let d = dels_by[i];
        proof {
            let e = authors@[i as int].email@;
            assert(adds_by@[i as int] == email_additions(pr_author_deltas@, e));
            assert(dels_by@[i as int] == email_deletions(pr_author_deltas@, e));
        }
        let attributed_adds = if grand_adds == 0 { equal_adds } else { (total_squash_adds * a) / grand_adds };
        let attributed_dels = if grand_dels == 0 { equal_dels } else { (total_squash_dels * d) / grand_dels };
        result.push(Attribution {
            name: authors[i].name.clone(),
            email: authors[i].email.clone(),
            additions: attributed_adds,
            deletions: attributed_dels,
            is_pr_author: true,
        });
        i = i + 1;
    }
    proof {
        assert forall|k: int| 0 <= k < pr_author_deltas@.len() implies exists|i: int| 0 <= i < result@.len() && #[trigger] result@[i].email@ == (#[trigger] pr_author_deltas@[k]).0.email@ by {
            let i0 = choose|i: int| 0 <= i < authors@.len() && #[trigger] authors@[i].email@ == (#[trigger] pr[k]).0.email@;
            assert(result@[i0].email@ == authors@[i0].email@);
        }
    }
    result
}

pub proof fn lemma_email_absent(p: Seq<(Author, Vec<FileDelta>)>, e: Seq<char>)
    requires
        !has_email(p, e),
    ensures
        email_additions(p, e) == 0,
        email_deletions(p, e) == 0,
    decreases p.len(),
{
    if p.len() > 0 {
        assert(p.last() == p[p.len() - 1]);
        assert(!has_email(p.drop_last(), e)) by {
            if has_email(p.drop_last(), e) {
                let k = choose|k: int| 0 <= k < p.drop_last().len() && (#[trigger] p.drop_last()[k]).0.email@ == e;
                assert(p[k] == p.drop_last()[k]);
            }
        }
        lemma_email_absent(p.drop_last(), e);
    }
}

// ---------------------------------------------------------------------------
// Bot exclusion
// ---------------------------------------------------------------------------

/// The attributions of `s` whose e-mail is not a bot's, in their order.
pub open spec fn human_attributions(s: Seq<Attribution>) -> Seq<Attribution>
    decreases s.len(),
{
    if s.len() == 0 {
        Seq::empty()
    } else if is_bot_address(s.last().email@) {
        human_attributions(s.drop_last())
    } else {
        human_attributions(s.drop_last()).push(s.last())
    }
}

/// Bot exclusion keeps an attribution exactly when its e-mail is not a bot's:
/// what it keeps holds no bot, it drops nothing else, and nothing is left
/// exactly when every attribution was a bot's.
pub proof fn lemma_human_attributions(s: Seq<Attribution>)
    ensures
        forall|i: int| 0 <= i < human_attributions(s).len() ==> !is_bot_address(#[trigger] human_attributions(s)[i].email@),
        forall|i: int| 0 <= i < s.len() && !is_bot_address(s[i].email@) ==> human_attributions(s).contains(#[trigger] s[i]),
        forall|i: int| 0 <= i < human_attributions(s).len() ==> s.contains(#[trigger] human_attributions(s)[i]),
        (human_attributions(s).len() == 0) == (forall|i: int| 0 <= i < s.len() ==> is_bot_address(#[trigger] s[i].email@)),
    decreases s.len(),
{
    if s.len() > 0 {
        let s0 = s.drop_last();
        lemma_human_attributions(s0);
        let h0 = human_attributions(s0);
        let h = human_attributions(s);
        assert forall|i: int| 0 <= i < s.len() && !is_bot_address(s[i].email@) implies h.contains(#[trigger] s[i]) by {
            if i < s0.len() {
                assert(s0[i] == s[i]);
                assert(h0.contains(s0[i]));
                let j = choose|j: int| 0 <= j < h0.len() && h0[j] == s0[i];
                assert(h[j] == h0[j]);
            } else {
                assert(h[h.len() - 1] == s[i]);
            }
        }
        assert forall|i: int| 0 <= i < h.len() implies s.contains(#[trigger] h[i]) by {
            if i < h0.len() {
                assert(h[i] == h0[i]);
                assert(s0.contains(h0[i]));
                let j = choose|j: int| 0 <= j < s0.len() && s0[j] == h0[i];
                assert(s[j] == s0[j]);
            } else {
                assert(s[s.len() - 1] == h[i]);
            }
        }
        if h.len() == 0 {
            assert forall|i: int| 0 <= i < s.len() implies is_bot_address(#[trigger] s[i].email@) by {
                if !is_bot_address(s[i].email@) {
                    assert(h.contains(s[i]));
                }
            }
        } else {
            let x = h[0];
            assert(s.contains(x));
            let j = choose|j: int| 0 <= j < s.len() && s[j] == x;
            assert(!is_bot_address(s[j].email@));
        }
    }
}

/// Excluding bots twice is excluding them once.
pub proof fn lemma_human_attributions_idempotent(s: Seq<Attribution>)
    ensures
        human_attributions(human_attributions(s)) == human_attributions(s),
    decreases s.len(),
{
    if s.len() > 0 {
        lemma_human_attributions_idempotent(s.drop_last());
        let h0 = human_attributions(s.drop_last());
        if !is_bot_address(s.last().email@) {
            assert(h0.push(s.last()).drop_last() =~= h0);
        }
    }
}

/// A copy of `a`.
pub fn copy_attribution(a: &Attribution) -> (r: Attribution)
    ensures
        r == *a,
{
    Attribution {
        name: a.name.clone(),
        email: a.email.clone(),
        additions: a.additions,
        deletions: a.deletions,
        is_pr_author: a.is_pr_author,
    }
}

/// Strip bot attributions from a [`CommitReport`].
///
/// Returns `None` when *every* attribution was a bot (drop the whole commit
/// from the output), otherwise returns the commit with bot attributions
/// removed.
pub fn filter_bots(commit: CommitReport) -> (r: Option<CommitReport>)
    ensures
        match r {
            None => human_attributions(commit.attributions@).len() == 0,
            Some(c) => {
                &&& human_attributions(commit.attributions@).len() > 0
                &&& c.attributions@ == human_attributions(commit.attributions@)
                &&& c.sha == commit.sha
                &&& c.author_date == commit.author_date
                &&& c.is_squash_pr == commit.is_squash_pr
                &&& c.accurate == commit.accurate
            },
        },
{
    let ghost all = commit.attributions@;
    let mut kept: Vec<Attribution> = Vec::new();
    let mut i: usize = 0;
    while i < commit.attributions.len()
        invariant
            all == commit.attributions@,
            i <= all.len(),
            kept@ == human_attributions(all.take(i as int)),
        decreases commit.attributions.len() - i,
    {
        let a = &commit.attributions[i];
        assert(all.take(i + 1).drop_last() =~= all.take(i as int));
        assert(all.take(i + 1).last() == all[i as int]);
        if !is_bot_email(a.email.as_str()) {
            kept.push(copy_attribution(a));
        }
        i = i + 1;
    }
    assert(all.take(i as int) =~= all);
    if kept.len() == 0 {
        None
    } else {
        Some(
            CommitReport {
                sha: commit.sha,
                author_date: commit.author_date,
                is_squash_pr: commit.is_squash_pr,
                attributions: kept,
                accurate: commit.accurate,
            },
        )
    }
}

// ---------------------------------------------------------------------------
// Per-author rollup (used by the table renderer)
// ---------------------------------------------------------------------------

/// Aggregated stats for a single author, computed from a [`Report`].
#[derive(Debug)]
pub struct AuthorStats {
    pub name: String,
    pub email: String,
    pub contributions: u64,
    pub prs: u64,
    pub additions: u64,
    pub deletions: u64,
}

impl Default for AuthorStats {
    fn default() -> (r: Self)
        ensures
            r.name@.len() == 0,
            r.email@.len() == 0,
            r.contributions == 0,
            r.prs == 0,
            r.additions == 0,
            r.deletions == 0,
    {
        AuthorStats {
            name: String::new(),
            email: String::new(),
            contributions: 0,
            prs: 0,
            additions: 0,
            deletions: 0,
        }
    }
}

/// All attributions of `commits`, commit after commit.
pub open spec fn all_attributions(commits: Seq<CommitReport>) -> Seq<Attribution>
    decreases commits.len(),
{
    if commits.len() == 0 {
        Seq::empty()
    } else {
        all_attributions(commits.drop_last()) + commits.last().attributions@
    }
}

pub open spec fn attributed_to(s: Seq<Attribution>, e: Seq<char>) -> bool {
    exists|k: int| 0 <= k < s.len() && (#[trigger] s[k]).email@ == e
}

/// How many attributions of `s` are by `e`.
pub open spec fn contributions_of(s: Seq<Attribution>, e: Seq<char>) -> int
    decreases s.len(),
{
    if s.len() == 0 {
        0
    } else {
        contributions_of(s.drop_last(), e) + if s.last().email@ == e { 1int } else { 0int }
    }
}

/// How many attributions of `s` by `e` are PR authorships.
pub open spec fn prs_of(s: Seq<Attribution>, e: Seq<char>) -> int
    decreases s.len(),
{
    if s.len() == 0 {
        0
    } else {
        prs_of(s.drop_last(), e) + if s.last().email@ == e && s.last().is_pr_author {
            1int
        } else {
            0int
        }
    }
}

/// Lines added over the attributions of `s` by `e`.
pub open spec fn additions_of(s: Seq<Attribution>, e: Seq<char>) -> int
    decreases s.len(),
{
    if s.len() == 0 {
        0
    } else {
        additions_of(s.drop_last(), e) + if s.last().email@ == e { s.last().additions as int } else { 0int }
    }
}

/// Lines removed over the attributions of `s` by `e`.
pub open spec fn deletions_of(s: Seq<Attribution>, e: Seq<char>) -> int
    decreases s.len(),
{
    if s.len() == 0 {
        0
    } else {
        deletions_of(s.drop_last(), e) + if s.last().email@ == e { s.last().deletions as int } else { 0int }
    }
}

/// The name on the first attribution of `s` by `e`.
pub open spec fn first_name_of(s: Seq<Attribution>, e: Seq<char>) -> Seq<char>
    decreases s.len(),
{
    if s.len() == 0 {
        Seq::empty()
    } else if attributed_to(s.drop_last(), e) {
        first_name_of(s.drop_last(), e)
    } else {
        s.last().name@
    }
}

/// `row` holds the totals of `row.email` over the attributions `s`.
pub open spec fn rolled_up(s: Seq<Attribution>, row: AuthorStats) -> bool {
    &&& attributed_to(s, row.email@)
    &&& row.name@ == first_name_of(s, row.email@)
    &&& row.contributions == contributions_of(s, row.email@)
    &&& row.prs == prs_of(s, row.email@)
    &&& row.additions == additions_of(s, row.email@)
    &&& row.deletions == deletions_of(s, row.email@)
}

/// `rows` is a rollup table of `s`: one row per distinct e-mail.
pub open spec fn rollup_table(s: Seq<Attribution>, rows: Seq<AuthorStats>) -> bool {
    &&& forall|i: int| 0 <= i < rows.len() ==> rolled_up(s, #[trigger] rows[i])
    &&& forall|i: int, j: int| 0 <= i < j < rows.len() ==> (#[trigger] rows[i]).email@ != (#[trigger] rows[j]).email@
    &&& forall|t: int| 0 <= t < s.len() ==> #[trigger] has_row_for(rows, s[t].email@)
}

/// Some row of `rows` is for the e-mail `e`.
pub open spec fn has_row_for(rows: Seq<AuthorStats>, e: Seq<char>) -> bool {
    exists|i: int| 0 <= i < rows.len() && (#[trigger] rows[i]).email@ == e
}

proof fn lemma_attr_step(s: Seq<Attribution>, a: Attribution, e: Seq<char>)
    ensures
        s.push(a).drop_last() == s,
        s.push(a).last() == a,
        attributed_to(s.push(a), e) == (attributed_to(s, e) || a.email@ == e),
{
    assert(s.push(a).drop_last() =~= s);
    let p = s.push(a);
    if attributed_to(p, e) {
        let j = choose|j: int| 0 <= j < p.len() && (#[trigger] p[j]).email@ == e;
        if j < s.len() {
            assert(s[j] == p[j]);
        }
    }
    if attributed_to(s, e) {
        let j = choose|j: int| 0 <= j < s.len() && (#[trigger] s[j]).email@ == e;
        assert(p[j] == s[j]);
    }
    assert(p[s.len() as int] == a);
}

proof fn lemma_attr_absent(s: Seq<Attribution>, e: Seq<char>)
    requires
        !attributed_to(s, e),
    ensures
        contributions_of(s, e) == 0,
        prs_of(s, e) == 0,
        additions_of(s, e) == 0,
        deletions_of(s, e) == 0,
    decreases s.len(),
{
    if s.len() > 0 {
        assert(s.last() == s[s.len() - 1]);
        assert(!attributed_to(s.drop_last(), e)) by {
            if attributed_to(s.drop_last(), e) {
                let k = choose|k: int| 0 <= k < s.drop_last().len() && (#[trigger] s.drop_last()[k]).email@ == e;
                assert(s[k] == s.drop_last()[k]);
            }
        }
        lemma_attr_absent(s.drop_last(), e);
    }
}

proof fn lemma_attr_totals_prefix(s: Seq<Attribution>, k: int, e: Seq<char>)
    requires
        0 <= k <= s.len(),
    ensures
        0 <= additions_of(s.take(k), e) <= additions_of(s, e),
        0 <= deletions_of(s.take(k), e) <= deletions_of(s, e),
        0 <= prs_of(s.take(k), e) <= contributions_of(s.take(k), e) <= contributions_of(s, e) <= s.len(),
    decreases s.len() - k,
{
    lemma_attr_counts_bounded(s.take(k), e);
    if k < s.len() {
        lemma_attr_totals_prefix(s, k + 1, e);
        assert(s.take(k + 1).drop_last() =~= s.take(k));
    } else {
        assert(s.take(k) =~= s);
        lemma_attr_counts_bounded(s, e);
    }
}

proof fn lemma_attr_counts_bounded(s: Seq<Attribution>, e: Seq<char>)
    ensures
        0 <= prs_of(s, e) <= contributions_of(s, e) <= s.len(),
        0 <= additions_of(s, e),
        0 <= deletions_of(s, e),
    decreases s.len(),
{
    if s.len() > 0 {
        lemma_attr_counts_bounded(s.drop_last(), e);
    }
}

proof fn lemma_all_attributions_step(commits: Seq<CommitReport>, c: int)
    requires
        0 <= c < commits.len(),
    ensures
        all_attributions(commits.take(c + 1)) == all_attributions(commits.take(c)) + commits[c].attributions@,
{
    assert(commits.take(c + 1).drop_last() =~= commits.take(c));
    assert(commits.take(c + 1).last() == commits[c]);
}

proof fn lemma_all_attributions_prefix(commits: Seq<CommitReport>, c: int)
    requires
        0 <= c <= commits.len(),
    ensures
        all_attributions(commits.take(c)).len() <= all_attributions(commits).len(),
        all_attributions(commits).take(all_attributions(commits.take(c)).len() as int) == all_attributions(commits.take(c)),
    decreases commits.len() - c,
{
    if c < commits.len() {
        lemma_all_attributions_prefix(commits, c + 1);
        lemma_all_attributions_step(commits, c);
        let a = all_attributions(commits.take(c));
        let b = all_attributions(commits.take(c + 1));
        let all = all_attributions(commits);
        assert(all.take(a.len() as int) =~= b.take(a.len() as int));
        assert(b.take(a.len() as int) =~= a);
    } else {
        assert(commits.take(c) =~= commits);
        assert(all_attributions(commits).take(all_attributions(commits).len() as int) =~= all_attributions(commits));
    }
}

/// Totals per e-mail over `all` fit the counters.
pub open spec fn rollup_fits(all: Seq<Attribution>) -> bool {
    &&& all.len() <= u64::MAX
    &&& forall|e: Seq<char>| #[trigger] additions_of(all, e) + deletions_of(all, e) <= u64::MAX
}

/// Lines added and removed over all attributions of `s`.
pub open spec fn lines_of(s: Seq<Attribution>) -> int
    decreases s.len(),
{
    if s.len() == 0 {
        0
    } else {
        lines_of(s.drop_last()) + s.last().additions + s.last().deletions
    }
}

proof fn lemma_email_lines_bound(s: Seq<Attribution>, e: Seq<char>)
    ensures
        additions_of(s, e) + deletions_of(s, e) <= lines_of(s),
        lines_of(s) >= 0,
    decreases s.len(),
{
    if s.len() > 0 {
        lemma_email_lines_bound(s.drop_last(), e);
    }
}

/// All attributions of the commits, copied out in order.
fn flatten_attributions(commits: &Vec<CommitReport>) -> (r: Vec<Attribution>)
    ensures
        r@ == all_attributions(commits@),
{
    let mut out: Vec<Attribution> = Vec::new();
    let mut c: usize = 0;
    assert(commits@.take(0) =~= Seq::<CommitReport>::empty());
    while c < commits.len()
        invariant
            c <= commits@.len(),
            out@ == all_attributions(commits@.take(c as int)),
        decreases commits.len() - c,
    {
        let atts = &commits[c].attributions;
        let ghost base = out@;
        let mut a: usize = 0;
        while a < atts.len()
            invariant
                a <= atts@.len(),
                out@ == base + atts@.take(a as int),
            decreases atts.len() - a,
        {
            out.push(copy_attribution(&atts[a]));
            assert(base + atts@.take(a + 1) =~= (base + atts@.take(a as int)).push(atts@[a as int]));
            a = a + 1;
        }
        proof {
            assert(atts@.take(a as int) =~= atts@);
            lemma_all_attributions_step(commits@, c as int);
        }
        c = c + 1;
    }
    assert(commits@.take(c as int) =~= commits@);
    out
}

/// Whether the lines of the attributions by `e` fit in `u64`.
fn email_lines_fit(all: &Vec<Attribution>, e: &String) -> (r: bool)
    ensures
        r == (additions_of(all@, e@) + deletions_of(all@, e@) <= u64::MAX),
{
    let mut acc: u128 = 0;
    let mut i: usize = 0;
    while i < all.len()
        invariant
            i <= all@.len(),
            acc == additions_of(all@.take(i as int), e@) + deletions_of(all@.take(i as int), e@),
            acc <= u64::MAX,
        decreases all.len() - i,
    {
        assert(all@.take(i + 1).drop_last() =~= all@.take(i as int));
        assert(all@.take(i + 1).last() == all@[i as int]);
        if all[i].email == *e {
            acc = acc + all[i].additions as u128 + all[i].deletions as u128;
        }
        i = i + 1;
        if acc > 0xffff_ffff_ffff_ffff {
            proof {
                lemma_attr_totals_prefix(all@, i as int, e@);
            }
            return false;
        }
    }
    assert(all@.take(i as int) =~= all@);
    true
}

/// Whether `rollup_by_author` can count the attributions of `report`: the
/// number of attributions and each author's lines fit in `u64`.
pub fn rollup_totals_fit(report: &Report) -> (r: bool)
    ensures
        r == rollup_fits(all_attributions(report.commits@)),
{
    let all = flatten_attributions(&report.commits);
    if all.len() as u128 > 0xffff_ffff_ffff_ffff {
        return false;
    }
    let mut total: u128 = 0;
    let mut i: usize = 0;
    let mut small = true;
    assert(all@.take(all@.len() as int) =~= all@);
    while i < all.len()
        invariant_except_break
            all@.take(all@.len() as int) == all@,
            i <= all@.len(),
            total == lines_of(all@.take(i as int)),
            total <= u64::MAX,
            small,
        ensures
            small ==> total == lines_of(all@) && total <= u64::MAX,
            !small ==> lines_of(all@) > u64::MAX,
        decreases all.len() - i,
    {
        assert(all@.take(i + 1).drop_last() =~= all@.take(i as int));
        assert(all@.take(i + 1).last() == all@[i as int]);
        total = total + all[i].additions as u128 + all[i].deletions as u128;
        i = i + 1;
        if total > 0xffff_ffff_ffff_ffff {
            proof {
                lemma_lines_prefix(all@, i as int);
            }
            small = false;
            break;
        }
    }
    if small {
        proof {
            assert forall|e: Seq<char>| #[trigger] additions_of(all@, e) + deletions_of(all@, e) <= u64::MAX by {
                lemma_email_lines_bound(all@, e);
            }
        }
        return true;
    }
    let mut t: usize = 0;
    while t < all.len()
        invariant
            all@ == all_attributions(report.commits@),
            t <= all@.len(),
            forall|k: int| 0 <= k < t ==> additions_of(all@, (#[trigger] all@[k]).email@) + deletions_of(all@, all@[k].email@) <= u64::MAX,
        decreases all.len() - t,
    {
        if !email_lines_fit(&all, &all[t].email) {
            return false;
        }
        t = t + 1;
    }
    proof {
        assert forall|e: Seq<char>| #[trigger] additions_of(all@, e) + deletions_of(all@, e) <= u64::MAX by {
            if attributed_to(all@, e) {
                let k = choose|k: int| 0 <= k < all@.len() && (#[trigger] all@[k]).email@ == e;
            } else {
                lemma_attr_absent(all@, e);
            }
        }
    }
    true
}

proof fn lemma_lines_prefix(s: Seq<Attribution>, k: int)
    requires
        0 <= k <= s.len(),
    ensures
        lines_of(s.take(k)) <= lines_of(s),
    decreases s.len() - k,
{
    if k < s.len() {
        lemma_lines_prefix(s, k + 1);
        assert(s.take(k + 1).drop_last() =~= s.take(k));
    } else {
        assert(s.take(k) =~= s);
    }
}

/// Adds the attribution `a` (the next one after `s`) to the rollup table.
fn rollup_add(rows: &mut Vec<AuthorStats>, a: &Attribution, Ghost(s): Ghost<Seq<Attribution>>, Ghost(all): Ghost<Seq<Attribution>>)
    requires
        rollup_table(s, old(rows)@),
        s.len() < all.len(),
        all.take(s.len() + 1int) == s.push(*a),
        rollup_fits(all),
    ensures
        rollup_table(s.push(*a), final(rows)@),
{
    let ghost s1 = s.push(*a);
    let mut j: usize = 0;
    while j < rows.len()
        invariant
            j <= rows@.len(),
            forall|i: int| 0 <= i < j ==> (#[trigger] rows@[i]).email@ != a.email@,
        ensures
            j <= rows@.len(),
            j < rows@.len() ==> rows@[j as int].email@ == a.email@,
            forall|i: int| 0 <= i < j ==> (#[trigger] rows@[i]).email@ != a.email@,
        decreases rows.len() - j,
    {
        if rows[j].email == a.email {
            break;
        }
        j = j + 1;
    }
    proof {
        lemma_attr_step(s, *a, a.email@);
        lemma_attr_totals_prefix(all, s1.len() as int, a.email@);
        lemma_attr_counts_bounded(s1, a.email@);
    }
    let ghost old_rows = rows@;
    if j < rows.len() {
        let row = &rows[j];
        assert(row.email@ == a.email@);
        let updated = AuthorStats {
            name: row.name.clone(),
            email: row.email.clone(),
            contributions: row.contributions + 1,
            prs: if a.is_pr_author { row.prs + 1 } else { row.prs },
            additions: row.additions + a.additions,
            deletions: row.deletions + a.deletions,
        };
        rows.set(j, updated);
        proof {
            assert forall|i: int| 0 <= i < rows@.len() implies rolled_up(s1, #[trigger] rows@[i]) by {
                lemma_attr_step(s, *a, rows@[i].email@);
                if i != j {
                    assert(rows@[i] == old_rows[i]);
                    assert(old_rows[i].email@ != old_rows[j as int].email@);
                }
            }
            assert forall|i: int, k: int| 0 <= i < k < rows@.len() implies (#[trigger] rows@[i]).email@ != (#[trigger] rows@[k]).email@ by {
                assert(rows@[i].email@ == old_rows[i].email@);
                assert(rows@[k].email@ == old_rows[k].email@);
            }
            assert forall|t: int| 0 <= t < s1.len() implies #[trigger] has_row_for(rows@, s1[t].email@) by {
                if t < s.len() {
                    assert(s1[t] == s[t]);
                    assert(has_row_for(old_rows, s[t].email@));
                    let i0 = choose|i: int| 0 <= i < old_rows.len() && (#[trigger] old_rows[i]).email@ == s[t].email@;
                    assert(rows@[i0].email@ == old_rows[i0].email@);
                } else {
                    assert(rows@[j as int].email@ == s1[t].email@);
                }
            }
        }
    } else {
        proof {
            if attributed_to(s, a.email@) {
                let t = choose|t: int| 0 <= t < s.len() && (#[trigger] s[t]).email@ == a.email@;
                assert(has_row_for(old_rows, s[t].email@));
                    let i0 = choose|i: int| 0 <= i < old_rows.len() && (#[trigger] old_rows[i]).email@ == s[t].email@;
                assert(false);
            }
            lemma_attr_absent(s, a.email@);
        }
        let fresh = AuthorStats {
            name: a.name.clone(),
            email: a.email.clone(),
            contributions: 1,
            prs: if a.is_pr_author { 1 } else { 0 },
            additions: a.additions,
            deletions: a.deletions,
        };
        rows.push(fresh);
        proof {
            assert forall|i: int| 0 <= i < rows@.len() implies rolled_up(s1, #[trigger] rows@[i]) by {
                lemma_attr_step(s, *a, rows@[i].email@);
                if i < old_rows.len() {
                    assert(rows@[i] == old_rows[i]);
                }
            }
            assert forall|t: int| 0 <= t < s1.len() implies #[trigger] has_row_for(rows@, s1[t].email@) by {
                if t < s.len() {
                    assert(s1[t] == s[t]);
                    assert(has_row_for(old_rows, s[t].email@));
                    let i0 = choose|i: int| 0 <= i < old_rows.len() && (#[trigger] old_rows[i]).email@ == s[t].email@;
                    assert(rows@[i0] == old_rows[i0]);
                } else {
                    assert(rows@[old_rows.len() as int].email@ == s1[t].email@);
                }
            }
        }
    }
}

/// Total lines of a rollup row.
pub open spec fn row_total(row: AuthorStats) -> int {
    row.additions + row.deletions
}

/// Fold a [`Report`] into a per-author rollup, sorted by total lines
/// (additions + deletions) descending.
///
/// Used by the table renderer; not part of the JSON output.
pub fn rollup_by_author(report: &Report) -> (r: Vec<AuthorStats>)
    requires
        rollup_fits(all_attributions(report.commits@)),
    ensures
        rollup_table(all_attributions(report.commits@), r@),
        forall|i: int, j: int| 0 <= i < j < r@.len() ==> (#[trigger] r@[i]).additions + r@[i].deletions >= (#[trigger] r@[j]).additions + r@[j].deletions,
{
    let ghost commits = report.commits@;
    let ghost all = all_attributions(commits);
    let mut rows: Vec<AuthorStats> = Vec::new();
    let mut c: usize = 0;
    assert(commits.take(0) =~= Seq::<CommitReport>::empty());
    while c < report.commits.len()
        invariant
            commits == report.commits@,
            all == all_attributions(commits),
            c <= commits.len(),
            rollup_fits(all),
            rollup_table(all_attributions(commits.take(c as int)), rows@),
        decreases report.commits.len() - c,
    {
        let commit = &report.commits[c];
        let ghost base = all_attributions(commits.take(c as int));
        proof {
            lemma_all_attributions_step(commits, c as int);
            lemma_all_attributions_prefix(commits, c + 1);
            assert(commits[c as int] == *commit);
        }
        let mut k: usize = 0;
        assert(base + commit.attributions@.take(0) =~= base);
        while k < commit.attributions.len()
            invariant
                commits == report.commits@,
                all == all_attributions(commits),
                c < commits.len(),
                *commit == commits[c as int],
                base == all_attributions(commits.take(c as int)),
                all_attributions(commits.take(c + 1)) == base + commit.attributions@,
                all.take(all_attributions(commits.take(c + 1)).len() as int) == all_attributions(commits.take(c + 1)),
                all_attributions(commits.take(c + 1)).len() <= all.len(),
                k <= commit.attributions@.len(),
                rollup_fits(all),
                rollup_table(base + commit.attributions@.take(k as int), rows@),
            decreases commit.attributions.len() - k,
        {
            let ghost s = base + commit.attributions@.take(k as int);
            let ghost whole = all_attributions(commits.take(c + 1));
            proof {
                assert(base + commit.attributions@.take(k + 1) =~= s.push(commit.attributions@[k as int]));
                assert(all.take(s.len() + 1int) =~= whole.take(s.len() + 1int));
                assert(whole.take(s.len() + 1int) =~= s.push(commit.attributions@[k as int]));
            }
            rollup_add(&mut rows, &commit.attributions[k], Ghost(s), Ghost(all));
            k = k + 1;
        }
        assert(commit.attributions@.take(k as int) =~= commit.attributions@);
        c = c + 1;
    }
    assert(commits.take(c as int) =~= commits);
    sort_by_total(rows, Ghost(all))
}

/// `sorted[a]` is `rows[origin[a]]`, each of `rows[..n]` exactly once.
pub open spec fn arranged_from(rows: Seq<AuthorStats>, n: int, sorted: Seq<AuthorStats>, origin: Seq<int>) -> bool {
    &&& origin.len() == sorted.len()
    &&& forall|a: int| 0 <= a < sorted.len() ==> 0 <= #[trigger] origin[a] < n && sorted[a] == rows[origin[a]]
    &&& forall|a: int, b: int| 0 <= a < b < origin.len() ==> #[trigger] origin[a] != #[trigger] origin[b]
    &&& forall|k: int| 0 <= k < n ==> #[trigger] origin.contains(k)
}

/// Stable insertion sort of the rollup rows by total lines, largest first.
#[verifier::rlimit(30)]
fn sort_by_total(rows: Vec<AuthorStats>, Ghost(all): Ghost<Seq<Attribution>>) -> (r: Vec<AuthorStats>)
    requires
        rollup_table(all, rows@),
        rollup_fits(all),
    ensures
        rollup_table(all, r@),
        forall|i: int, j: int| 0 <= i < j < r@.len() ==> (#[trigger] r@[i]).additions + r@[i].deletions >= (#[trigger] r@[j]).additions + r@[j].deletions,
{
    let mut sorted: Vec<AuthorStats> = Vec::new();
    let ghost mut origin: Seq<int> = Seq::empty();
    let mut i: usize = 0;
    while i < rows.len()
        invariant
            i <= rows@.len(),
            rollup_table(all, rows@),
            rollup_fits(all),
            forall|a: int, b: int| 0 <= a < b < sorted@.len() ==> row_total(#[trigger] sorted@[a]) >= row_total(#[trigger] sorted@[b]),
            arranged_from(rows@, i as int, sorted@, origin),
        decreases rows.len() - i,
    {
        let row = &rows[i];
        proof {
            lemma_attr_counts_bounded(all, row.email@);
            assert(rolled_up(all, rows@[i as int]));
        }
        let total = row.additions + row.deletions;
        let mut p: usize = 0;
        while p < sorted.len()
            invariant
                p <= sorted@.len(),
                total == row_total(*row),
                forall|a: int| 0 <= a < p ==> row_total(#[trigger] sorted@[a]) >= total,
            ensures
                p <= sorted@.len(),
                p < sorted@.len() ==> row_total(sorted@[p as int]) < total,
                forall|a: int| 0 <= a < p ==> row_total(#[trigger] sorted@[a]) >= total,
            decreases sorted.len() - p,
        {
            let here = sorted[p].additions as u128 + sorted[p].deletions as u128;
            if here < total as u128 {
                break;
            }
            p = p + 1;
        }
        let copy = AuthorStats {
            name: row.name.clone(),
            email: row.email.clone(),
            contributions: row.contributions,
            prs: row.prs,
            additions: row.additions,
            deletions: row.deletions,
        };
        let ghost old_sorted = sorted@;
        let ghost old_origin = origin;
        sorted.insert(p, copy);
        proof {
            origin = old_origin.insert(p as int, i as int);
            assert(sorted@ == old_sorted.insert(p as int, rows@[i as int]));
            lemma_insert_keeps_order(old_sorted, rows@[i as int], p as int);
            lemma_insert_arranged(rows@, i as int, old_sorted, old_origin, p as int);
        }
        i = i + 1;
    }
    proof {
        lemma_rows_rearranged(all, rows@, sorted@, origin);
        assert forall|i: int, j: int| 0 <= i < j < sorted@.len() implies (#[trigger] sorted@[i]).additions + sorted@[i].deletions >= (#[trigger] sorted@[j]).additions + sorted@[j].deletions by {
            assert(row_total(sorted@[i]) >= row_total(sorted@[j]));
        }
    }
    sorted
}

/// Inserting `rows[i]` at `p` extends the arrangement to `rows[..=i]`.
proof fn lemma_insert_arranged(rows: Seq<AuthorStats>, i: int, old_sorted: Seq<AuthorStats>, old_origin: Seq<int>, p: int)
    requires
        0 <= i < rows.len(),
        0 <= p <= old_sorted.len(),
        arranged_from(rows, i, old_sorted, old_origin),
    ensures
        arranged_from(rows, i + 1, old_sorted.insert(p, rows[i]), old_origin.insert(p, i)),
{
    let sorted = old_sorted.insert(p, rows[i]);
    let origin = old_origin.insert(p, i);
    assert forall|a: int| 0 <= a < sorted.len() implies 0 <= #[trigger] origin[a] < i + 1 && sorted[a] == rows[origin[a]] by {
        if a < p {
            assert(origin[a] == old_origin[a] && sorted[a] == old_sorted[a]);
        } else if a > p {
            assert(origin[a] == old_origin[a - 1] && sorted[a] == old_sorted[a - 1]);
        }
    }
    assert forall|a: int, b: int| 0 <= a < b < origin.len() implies #[trigger] origin[a] != #[trigger] origin[b] by {
        let sa = if a < p { a } else { a - 1 };
        let sb = if b < p { b } else { b - 1 };
        if a != p && b != p {
            assert(origin[a] == old_origin[sa] && origin[b] == old_origin[sb]);
        } else if a == p {
            assert(origin[b] == old_origin[sb]);
        } else {
            assert(origin[a] == old_origin[sa]);
        }
    }
    assert forall|k: int| 0 <= k < i + 1 implies #[trigger] origin.contains(k) by {
        if k < i {
            assert(old_origin.contains(k));
            let a0 = choose|a: int| 0 <= a < old_origin.len() && #[trigger] old_origin[a] == k;
            if a0 < p {
                assert(origin[a0] == old_origin[a0]);
            } else {
                assert(origin[a0 + 1] == old_origin[a0]);
            }
        } else {
            assert(origin[p] == i);
        }
    }
}

/// A full arrangement of the rows of a rollup table is one too.
proof fn lemma_rows_rearranged(all: Seq<Attribution>, rows: Seq<AuthorStats>, sorted: Seq<AuthorStats>, origin: Seq<int>)
    requires
        rollup_table(all, rows),
        arranged_from(rows, rows.len() as int, sorted, origin),
    ensures
        rollup_table(all, sorted),
{
    assert forall|a: int| 0 <= a < sorted.len() implies rolled_up(all, #[trigger] sorted[a]) by {
        assert(0 <= origin[a] < rows.len() && sorted[a] == rows[origin[a]]);
        assert(rolled_up(all, rows[origin[a]]));
    }
    assert forall|a: int, b: int| 0 <= a < b < sorted.len() implies (#[trigger] sorted[a]).email@ != (#[trigger] sorted[b]).email@ by {
        assert(0 <= origin[a] < rows.len() && sorted[a] == rows[origin[a]]);
        assert(0 <= origin[b] < rows.len() && sorted[b] == rows[origin[b]]);
        assert(origin[a] != origin[b]);
        if origin[a] < origin[b] {
            assert(rows[origin[a]].email@ != rows[origin[b]].email@);
        } else {
            assert(rows[origin[b]].email@ != rows[origin[a]].email@);
        }
    }
    assert forall|t: int| 0 <= t < all.len() implies #[trigger] has_row_for(sorted, all[t].email@) by {
        assert(has_row_for(rows, all[t].email@));
        let k = choose|k: int| 0 <= k < rows.len() && (#[trigger] rows[k]).email@ == all[t].email@;
        assert(origin.contains(k));
        let a = choose|a: int| 0 <= a < origin.len() && #[trigger] origin[a] == k;
        assert(0 <= a < sorted.len());
        assert(sorted[a] == rows[origin[a]]);
        assert(sorted[a].email@ == all[t].email@);
    }
}

/// Inserting `rows[i]` at `p` of the sorted prefix table keeps it sorted by
/// total (descending).
proof fn lemma_insert_keeps_order(old_sorted: Seq<AuthorStats>, x: AuthorStats, p: int)
    requires
        0 <= p <= old_sorted.len(),
        forall|a: int, b: int| 0 <= a < b < old_sorted.len() ==> row_total(#[trigger] old_sorted[a]) >= row_total(#[trigger] old_sorted[b]),
        forall|a: int| 0 <= a < p ==> row_total(#[trigger] old_sorted[a]) >= row_total(x),
        p < old_sorted.len() ==> row_total(old_sorted[p]) < row_total(x),
    ensures
        forall|a: int, b: int| 0 <= a < b < old_sorted.insert(p, x).len() ==> row_total(#[trigger] old_sorted.insert(p, x)[a]) >= row_total(#[trigger] old_sorted.insert(p, x)[b]),
{
    let sorted = old_sorted.insert(p, x);
    assert forall|a: int, b: int| 0 <= a < b < sorted.len() implies row_total(#[trigger] sorted[a]) >= row_total(#[trigger] sorted[b]) by {
        if b < p {
            assert(sorted[a] == old_sorted[a] && sorted[b] == old_sorted[b]);
        } else if b == p {
            assert(sorted[a] == old_sorted[a]);
        } else if a < p {
            assert(sorted[a] == old_sorted[a] && sorted[b] == old_sorted[b - 1]);
            if b - 1 > p {
                assert(row_total(old_sorted[p]) >= row_total(old_sorted[b - 1]));
            }
        } else if a == p {
            assert(sorted[b] == old_sorted[b - 1]);
            if b - 1 > p {
                assert(row_total(old_sorted[p]) >= row_total(old_sorted[b - 1]));
            }
        } else {
            assert(sorted[a] == old_sorted[a - 1] && sorted[b] == old_sorted[b - 1]);
        }
    }
}

/// The first row of a per-author rollup sorted by total lines (as
/// `rollup_by_author` returns it) belongs to an author with the most lines
/// added plus removed: no author of the attributions has more.
pub proof fn lemma_rollup_first_row_is_largest(all: Seq<Attribution>, rows: Seq<AuthorStats>, e: Seq<char>)
    requires
        rollup_table(all, rows),
        forall|i: int, j: int| 0 <= i < j < rows.len() ==> (#[trigger] rows[i]).additions + rows[i].deletions >= (#[trigger] rows[j]).additions + rows[j].deletions,
        attributed_to(all, e),
    ensures
        rows.len() > 0,
        rows[0].additions + rows[0].deletions >= additions_of(all, e) + deletions_of(all, e),
{
    let t = choose|t: int| 0 <= t < all.len() && (#[trigger] all[t]).email@ == e;
    assert(has_row_for(rows, all[t].email@));
    let i = choose|i: int| 0 <= i < rows.len() && (#[trigger] rows[i]).email@ == all[t].email@;
    assert(rolled_up(all, rows[i]));
    if i > 0 {
        assert(rows[0].additions + rows[0].deletions >= rows[i].additions + rows[i].deletions);
    }
}

} // verus!
