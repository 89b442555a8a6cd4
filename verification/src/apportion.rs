use vstd::prelude::*;

use crate::git::{Author, FileDelta};
use crate::stats::{
    additions_of, contributions_of, deletions_of, has_row_for, prs_of, rolled_up, rollup_table,
    AuthorStats, distinct_emails, email_additions, email_deletions, pr_additions, pr_deletions, share,
    squash_attribution_of, sum_additions, sum_deletions, Attribution,
};
use crate::filter::{excludes, glob_regex, kept_deltas};
use crate::pattern::regex_is_match;
use crate::text::{lemma_lex_irreflexive, lex_lt};

verus! {

// ---------------------------------------------------------------------------
// Sums over sequences
// ---------------------------------------------------------------------------

/// The sum of the integers of `s`.
pub open spec fn seq_sum(s: Seq<int>) -> int
    decreases s.len(),
{
    if s.len() == 0 {
        0
    } else {
        seq_sum(s.drop_last()) + s.last()
    }
}

/// Lines added over all the attributions of `r`.
pub open spec fn attributed_additions(r: Seq<Attribution>) -> int {
    seq_sum(r.map_values(|a: Attribution| a.additions as int))
}

/// Lines removed over all the attributions of `r`.
pub open spec fn attributed_deletions(r: Seq<Attribution>) -> int {
    seq_sum(r.map_values(|a: Attribution| a.deletions as int))
}

/// A constant `c` summed `s.len()` times.
proof fn lemma_sum_constant(s: Seq<int>, c: int)
    requires
        forall|i: int| 0 <= i < s.len() ==> s[i] == c,
    ensures
        seq_sum(s) == s.len() * c,
    decreases s.len(),
{
    if s.len() > 0 {
        lemma_sum_constant(s.drop_last(), c);
        assert(seq_sum(s) == (s.len() - 1) * c + c);
        assert((s.len() - 1) * c + c == s.len() * c) by (nonlinear_arith);
    }
}

// ---------------------------------------------------------------------------
// Per-e-mail totals partition the grand total
// ---------------------------------------------------------------------------

/// The value that the entries of `w` (e-mail, value) carry for e-mail `e`.
pub open spec fn email_total(w: Seq<(Seq<char>, int)>, e: Seq<char>) -> int
    decreases w.len(),
{
    if w.len() == 0 {
        0
    } else {
        email_total(w.drop_last(), e) + if w.last().0 == e { w.last().1 } else { 0 }
    }
}

/// The per-e-mail totals of `w` for the e-mails `emails`, in their order.
pub open spec fn totals_for(w: Seq<(Seq<char>, int)>, emails: Seq<Seq<char>>) -> Seq<int> {
    emails.map_values(|e: Seq<char>| email_total(w, e))
}

/// The values of `w`.
pub open spec fn values_of(w: Seq<(Seq<char>, int)>) -> Seq<int> {
    w.map_values(|c: (Seq<char>, int)| c.1)
}

proof fn lemma_totals_empty(emails: Seq<Seq<char>>)
    ensures
        seq_sum(totals_for(Seq::empty(), emails)) == 0,
    decreases emails.len(),
{
    if emails.len() > 0 {
        assert(totals_for(Seq::empty(), emails).drop_last() =~= totals_for(Seq::empty(), emails.drop_last()));
        lemma_totals_empty(emails.drop_last());
    }
}

/// One more entry `(x, v)` adds `v` to the sum of the totals exactly when
/// `x` is among the (distinct) e-mails.
proof fn lemma_totals_push(w: Seq<(Seq<char>, int)>, x: Seq<char>, v: int, emails: Seq<Seq<char>>)
    requires
        emails.no_duplicates(),
    ensures
        seq_sum(totals_for(w.push((x, v)), emails)) == seq_sum(totals_for(w, emails)) + if emails.contains(x) { v } else { 0 },
    decreases emails.len(),
{
    let w1 = w.push((x, v));
    assert(w1.drop_last() =~= w);
    if emails.len() > 0 {
        let rest = emails.drop_last();
        assert(rest.no_duplicates());
        lemma_totals_push(w, x, v, rest);
        assert(totals_for(w1, emails).drop_last() =~= totals_for(w1, rest));
        assert(totals_for(w, emails).drop_last() =~= totals_for(w, rest));
        let last = emails.last();
        if emails.contains(x) {
            let k = choose|k: int| 0 <= k < emails.len() && emails[k] == x;
            if last == x {
                assert(!rest.contains(x)) by {
                    if rest.contains(x) {
                        let j = choose|j: int| 0 <= j < rest.len() && rest[j] == x;
                        assert(emails[j] == emails[emails.len() - 1]);
                    }
                }
            } else {
                assert(rest[k] == x);
            }
        } else {
            assert(!rest.contains(x)) by {
                if rest.contains(x) {
                    let j = choose|j: int| 0 <= j < rest.len() && rest[j] == x;
                    assert(emails[j] == x);
                }
            }
            assert(last != x);
        }
    } else {
        assert(totals_for(w1, emails) =~= Seq::<int>::empty());
        assert(totals_for(w, emails) =~= Seq::<int>::empty());
    }
}

/// When the distinct `emails` cover every entry of `w`, their totals add up
/// to the sum of all values of `w`.
proof fn lemma_totals_cover(w: Seq<(Seq<char>, int)>, emails: Seq<Seq<char>>)
    requires
        emails.no_duplicates(),
        forall|k: int| 0 <= k < w.len() ==> emails.contains(#[trigger] w[k].0),
    ensures
        seq_sum(totals_for(w, emails)) == seq_sum(values_of(w)),
    decreases w.len(),
{
    if w.len() == 0 {
        lemma_totals_empty(emails);
        assert(w =~= Seq::<(Seq<char>, int)>::empty());
    } else {
        let w0 = w.drop_last();
        assert forall|k: int| 0 <= k < w0.len() implies emails.contains(#[trigger] w0[k].0) by {
            assert(w0[k] == w[k]);
        }
        lemma_totals_cover(w0, emails);
        assert(w0.push(w.last()) =~= w);
        lemma_totals_push(w0, w.last().0, w.last().1, emails);
        assert(emails.contains(w[w.len() - 1].0));
        assert(values_of(w).drop_last() =~= values_of(w0));
    }
}

// ---------------------------------------------------------------------------
// Floor division loses less than one unit per share
// ---------------------------------------------------------------------------

/// `t * sum(p) - g * sum(floor(t * p[i] / g))` lies in `[0, g * len)`.
proof fn lemma_floor_sum_bounds(p: Seq<int>, t: int, g: int)
    requires
        g > 0,
        t >= 0,
        forall|i: int| 0 <= i < p.len() ==> p[i] >= 0,
    ensures
        0 <= t * seq_sum(p) - g * seq_sum(p.map_values(|x: int| (t * x) / g)) < g * p.len() || p.len() == 0,
        p.len() == 0 ==> seq_sum(p.map_values(|x: int| (t * x) / g)) == 0 && seq_sum(p) == 0,
    decreases p.len(),
{
    let q = p.map_values(|x: int| (t * x) / g);
    if p.len() == 0 {
        assert(q =~= Seq::<int>::empty());
    } else {
        let p0 = p.drop_last();
        assert(q.drop_last() =~= p0.map_values(|x: int| (t * x) / g));
        lemma_floor_sum_bounds(p0, t, g);
        let x = p.last();
        let sp0 = seq_sum(p0);
        let sq0 = seq_sum(p0.map_values(|x: int| (t * x) / g));
        let f = (t * x) / g;
        assert(seq_sum(q) == sq0 + f);
        assert(seq_sum(p) == sp0 + x);
        assert(t * x >= 0) by (nonlinear_arith)
            requires
                t >= 0,
                x >= 0,
        ;
        vstd::arithmetic::div_mod::lemma_fundamental_div_mod(t * x, g);
        vstd::arithmetic::div_mod::lemma_mod_pos_bound(t * x, g);
        assert(0 <= t * x - g * f < g);
        assert(t * (sp0 + x) == t * sp0 + t * x) by (nonlinear_arith);
        assert(g * (sq0 + f) == g * sq0 + g * f) by (nonlinear_arith);
        assert(g * p.len() == g * p0.len() + g) by (nonlinear_arith)
            requires
                p.len() == p0.len() + 1,
        ;
        if p0.len() == 0 {
            assert(sp0 == 0 && sq0 == 0);
            assert(t * sp0 == 0 && g * sq0 == 0) by (nonlinear_arith)
                requires
                    sp0 == 0,
                    sq0 == 0,
            ;
        }
    }
}

/// Shares `floor(t * p[i] / g)` of `t`, with `g` the sum of the parts, add
/// up to at most `t` and to more than `t - p.len()`.
proof fn lemma_floor_shares(p: Seq<int>, t: int, g: int)
    requires
        g > 0,
        t >= 0,
        forall|i: int| 0 <= i < p.len() ==> p[i] >= 0,
        seq_sum(p) == g,
    ensures
        t - p.len() < seq_sum(p.map_values(|x: int| (t * x) / g)) <= t,
{
    lemma_floor_sum_bounds(p, t, g);
    let sq = seq_sum(p.map_values(|x: int| (t * x) / g));
    if p.len() == 0 {
    } else {
        assert(0 <= t * g - g * sq < g * p.len());
        assert(t * g - g * sq == g * (t - sq)) by (nonlinear_arith);
        assert(0 <= t - sq) by (nonlinear_arith)
            requires
                g > 0,
                0 <= g * (t - sq),
        ;
        assert(t - sq < p.len()) by (nonlinear_arith)
            requires
                g > 0,
                g * (t - sq) < g * p.len(),
        ;
    }
}

// ---------------------------------------------------------------------------
// The squash-merge attribution stays within the merge commit's lines
// ---------------------------------------------------------------------------

/// The (e-mail, lines added) pairs of the PR commits of `pr`.
pub open spec fn addition_entries(pr: Seq<(Author, Vec<FileDelta>)>) -> Seq<(Seq<char>, int)> {
    pr.map_values(|c: (Author, Vec<FileDelta>)| (c.0.email@, sum_additions(c.1@)))
}

/// The (e-mail, lines removed) pairs of the PR commits of `pr`.
pub open spec fn deletion_entries(pr: Seq<(Author, Vec<FileDelta>)>) -> Seq<(Seq<char>, int)> {
    pr.map_values(|c: (Author, Vec<FileDelta>)| (c.0.email@, sum_deletions(c.1@)))
}

proof fn lemma_entries(pr: Seq<(Author, Vec<FileDelta>)>, e: Seq<char>)
    ensures
        email_additions(pr, e) == email_total(addition_entries(pr), e),
        email_deletions(pr, e) == email_total(deletion_entries(pr), e),
        pr_additions(pr) == seq_sum(values_of(addition_entries(pr))),
        pr_deletions(pr) == seq_sum(values_of(deletion_entries(pr))),
    decreases pr.len(),
{
    if pr.len() > 0 {
        lemma_entries(pr.drop_last(), e);
        assert(addition_entries(pr).drop_last() =~= addition_entries(pr.drop_last()));
        assert(deletion_entries(pr).drop_last() =~= deletion_entries(pr.drop_last()));
        assert(values_of(addition_entries(pr)).drop_last() =~= values_of(addition_entries(pr.drop_last())));
        assert(values_of(deletion_entries(pr)).drop_last() =~= values_of(deletion_entries(pr.drop_last())));
    } else {
        assert(values_of(addition_entries(pr)) =~= Seq::<int>::empty());
        assert(values_of(deletion_entries(pr)) =~= Seq::<int>::empty());
    }
}

/// The rows of a squash attribution name distinct e-mails covering every PR
/// commit; their per-e-mail totals add up to the PR's totals.
proof fn lemma_parts_partition(pr: Seq<(Author, Vec<FileDelta>)>, squash: Seq<FileDelta>, r: Seq<Attribution>)
    requires
        squash_attribution_of(pr, squash, r),
    ensures
        seq_sum(r.map_values(|a: Attribution| email_additions(pr, a.email@))) == pr_additions(pr),
        seq_sum(r.map_values(|a: Attribution| email_deletions(pr, a.email@))) == pr_deletions(pr),
{
    let emails = r.map_values(|a: Attribution| a.email@);
    assert(emails.no_duplicates()) by {
        assert forall|i: int, j: int| 0 <= i < emails.len() && 0 <= j < emails.len() && i != j implies emails[i] != emails[j] by {
            if i < j {
                assert(lex_lt(r[i].email@, r[j].email@));
            } else {
                assert(lex_lt(r[j].email@, r[i].email@));
            }
            lemma_lex_irreflexive(r[i].email@);
        }
    }
    let wa = addition_entries(pr);
    let wd = deletion_entries(pr);
    assert forall|k: int| 0 <= k < wa.len() implies emails.contains(#[trigger] wa[k].0) by {
        let i = choose|i: int| 0 <= i < r.len() && #[trigger] r[i].email@ == (#[trigger] pr[k]).0.email@;
        assert(emails[i] == wa[k].0);
    }
    assert forall|k: int| 0 <= k < wd.len() implies emails.contains(#[trigger] wd[k].0) by {
        let i = choose|i: int| 0 <= i < r.len() && #[trigger] r[i].email@ == (#[trigger] pr[k]).0.email@;
        assert(emails[i] == wd[k].0);
    }
    lemma_totals_cover(wa, emails);
    lemma_totals_cover(wd, emails);
    lemma_entries(pr, Seq::empty());
    let pa = r.map_values(|a: Attribution| email_additions(pr, a.email@));
    let pd = r.map_values(|a: Attribution| email_deletions(pr, a.email@));
    let ta = totals_for(wa, emails);
    let td = totals_for(wd, emails);
    assert forall|i: int| 0 <= i < r.len() implies #[trigger] pa[i] == ta[i] by {
        lemma_entries(pr, r[i].email@);
    }
    assert forall|i: int| 0 <= i < r.len() implies #[trigger] pd[i] == td[i] by {
        lemma_entries(pr, r[i].email@);
    }
    assert(pa =~= ta);
    assert(pd =~= td);
}

/// The shares of one kind of line (`total` lines of the merge commit,
/// parts `parts`, `grand` their sum, `n` authors) and their sum.
proof fn lemma_share_sum(shares: Seq<int>, parts: Seq<int>, total: int, grand: int, n: int)
    requires
        shares.len() == parts.len() == n,
        total >= 0,
        grand >= 0,
        seq_sum(parts) == grand,
        forall|i: int| 0 <= i < parts.len() ==> parts[i] >= 0,
        forall|i: int| 0 <= i < n ==> #[trigger] shares[i] == share(total, parts[i], grand, n),
    ensures
        seq_sum(shares) <= total,
        n > 0 ==> total - n < seq_sum(shares),
{
    if grand == 0 {
        if n > 0 {
            lemma_sum_constant(shares, total / n);
            vstd::arithmetic::div_mod::lemma_fundamental_div_mod(total, n);
            vstd::arithmetic::div_mod::lemma_mod_pos_bound(total, n);
        } else {
            assert(shares =~= Seq::<int>::empty());
        }
    } else {
        assert(shares =~= parts.map_values(|x: int| (total * x) / grand));
        lemma_floor_shares(parts, total, grand);
    }
}

/// The lines that a squash merge's attribution hands out never exceed the
/// merge commit's own lines, and integer rounding loses fewer lines than
/// there are authors (when the PR has commits at all).
pub proof fn lemma_squash_shares_within_total(pr: Seq<(Author, Vec<FileDelta>)>, squash: Seq<FileDelta>, r: Seq<Attribution>)
    requires
        squash_attribution_of(pr, squash, r),
    ensures
        attributed_additions(r) <= sum_additions(squash),
        attributed_deletions(r) <= sum_deletions(squash),
        pr.len() > 0 ==> sum_additions(squash) - r.len() < attributed_additions(r),
        pr.len() > 0 ==> sum_deletions(squash) - r.len() < attributed_deletions(r),
{
    lemma_parts_partition(pr, squash, r);
    let n = distinct_emails(pr);
    let pa = r.map_values(|a: Attribution| email_additions(pr, a.email@));
    let pd = r.map_values(|a: Attribution| email_deletions(pr, a.email@));
    crate::stats::lemma_sum_nonneg(squash);
    crate::stats::lemma_pr_totals_nonneg(pr, Seq::empty());
    assert forall|i: int| 0 <= i < pa.len() implies pa[i] >= 0 && pd[i] >= 0 by {
        crate::stats::lemma_pr_totals_nonneg(pr, r[i].email@);
    }
    lemma_share_sum(r.map_values(|a: Attribution| a.additions as int), pa, sum_additions(squash), pr_additions(pr), n);
    lemma_share_sum(r.map_values(|a: Attribution| a.deletions as int), pd, sum_deletions(squash), pr_deletions(pr), n);
    if pr.len() > 0 {
        let i = choose|i: int| 0 <= i < r.len() && #[trigger] r[i].email@ == (#[trigger] pr[0]).0.email@;
        assert(r.len() > 0);
    }
}

/// A PR whose commits all carry one e-mail credits that author with every
/// line of the merge commit: the proportional split agrees with the
/// single-author shortcut.
pub proof fn lemma_single_author_takes_all(pr: Seq<(Author, Vec<FileDelta>)>, squash: Seq<FileDelta>, r: Seq<Attribution>)
    requires
        squash_attribution_of(pr, squash, r),
        distinct_emails(pr) == 1,
    ensures
        r.len() == 1,
        r[0].additions == sum_additions(squash),
        r[0].deletions == sum_deletions(squash),
{
    lemma_parts_partition(pr, squash, r);
    let pa = r.map_values(|a: Attribution| email_additions(pr, a.email@));
    let pd = r.map_values(|a: Attribution| email_deletions(pr, a.email@));
    assert(r.len() == 1);
    assert(pa.drop_last() =~= Seq::<int>::empty());
    assert(pd.drop_last() =~= Seq::<int>::empty());
    reveal_with_fuel(seq_sum, 2);
    assert(pa[0] == pr_additions(pr));
    assert(pd[0] == pr_deletions(pr));
    let t = sum_additions(squash);
    let u = sum_deletions(squash);
    let g = pr_additions(pr);
    let h = pr_deletions(pr);
    let e = r[0].email@;
    crate::stats::lemma_pr_totals_nonneg(pr, e);
    assert(email_additions(pr, e) == g && email_deletions(pr, e) == h);
    assert(r[0].additions == share(t, g, g, 1));
    assert(r[0].deletions == share(u, h, h, 1));
    if g > 0 {
        assert((t * g) / g == t) by (nonlinear_arith)
            requires
                g > 0,
        ;
    } else {
        assert(t / 1 == t);
    }
    if h > 0 {
        assert((u * h) / h == u) by (nonlinear_arith)
            requires
                h > 0,
        ;
    } else {
        assert(u / 1 == u);
    }
}

// ---------------------------------------------------------------------------
// The per-author rollup neither loses nor duplicates anything
// ---------------------------------------------------------------------------

/// Each attribution of `s` as (e-mail, lines added).
pub open spec fn added_entries(s: Seq<Attribution>) -> Seq<(Seq<char>, int)> {
    s.map_values(|a: Attribution| (a.email@, a.additions as int))
}

/// Each attribution of `s` as (e-mail, lines removed).
pub open spec fn removed_entries(s: Seq<Attribution>) -> Seq<(Seq<char>, int)> {
    s.map_values(|a: Attribution| (a.email@, a.deletions as int))
}

/// Each attribution of `s` as (e-mail, 1).
pub open spec fn counted_entries(s: Seq<Attribution>) -> Seq<(Seq<char>, int)> {
    s.map_values(|a: Attribution| (a.email@, 1int))
}

/// Each attribution of `s` as (e-mail, 1 for a PR authorship, else 0).
pub open spec fn pr_entries(s: Seq<Attribution>) -> Seq<(Seq<char>, int)> {
    s.map_values(|a: Attribution| (a.email@, if a.is_pr_author { 1int } else { 0int }))
}

/// How many attributions of `s` are PR authorships.
pub open spec fn pr_authorships(s: Seq<Attribution>) -> int {
    seq_sum(s.map_values(|a: Attribution| if a.is_pr_author { 1int } else { 0int }))
}

proof fn lemma_rollup_entries(s: Seq<Attribution>, e: Seq<char>)
    ensures
        additions_of(s, e) == email_total(added_entries(s), e),
        deletions_of(s, e) == email_total(removed_entries(s), e),
        contributions_of(s, e) == email_total(counted_entries(s), e),
        prs_of(s, e) == email_total(pr_entries(s), e),
    decreases s.len(),
{
    if s.len() > 0 {
        lemma_rollup_entries(s.drop_last(), e);
        assert(added_entries(s).drop_last() =~= added_entries(s.drop_last()));
        assert(removed_entries(s).drop_last() =~= removed_entries(s.drop_last()));
        assert(counted_entries(s).drop_last() =~= counted_entries(s.drop_last()));
        assert(pr_entries(s).drop_last() =~= pr_entries(s.drop_last()));
    }
}

/// The per-author rollup of a run redistributes exactly what its
/// attributions hold: the rows' lines added and removed, contributions and
/// PRs add up to the totals over all attributions.
pub proof fn lemma_rollup_preserves_totals(all: Seq<Attribution>, rows: Seq<AuthorStats>)
    requires
        rollup_table(all, rows),
    ensures
        seq_sum(rows.map_values(|r: AuthorStats| r.additions as int)) == attributed_additions(all),
        seq_sum(rows.map_values(|r: AuthorStats| r.deletions as int)) == attributed_deletions(all),
        seq_sum(rows.map_values(|r: AuthorStats| r.contributions as int)) == all.len(),
        seq_sum(rows.map_values(|r: AuthorStats| r.prs as int)) == pr_authorships(all),
{
    let emails = rows.map_values(|r: AuthorStats| r.email@);
    assert(emails.no_duplicates()) by {
        assert forall|i: int, j: int| 0 <= i < emails.len() && 0 <= j < emails.len() && i != j implies emails[i] != emails[j] by {
            if i < j {
                assert(rows[i].email@ != rows[j].email@);
            } else {
                assert(rows[j].email@ != rows[i].email@);
            }
        }
    }
    assert forall|k: int| 0 <= k < all.len() implies emails.contains(#[trigger] all[k].email@) by {
        assert(has_row_for(rows, all[k].email@));
        let i = choose|i: int| 0 <= i < rows.len() && (#[trigger] rows[i]).email@ == all[k].email@;
        assert(emails[i] == all[k].email@);
    }
    let wa = added_entries(all);
    let wd = removed_entries(all);
    let wc = counted_entries(all);
    let wp = pr_entries(all);
    assert forall|k: int| 0 <= k < wa.len() implies emails.contains(#[trigger] wa[k].0) by {
        assert(wa[k].0 == all[k].email@);
    }
    assert forall|k: int| 0 <= k < wd.len() implies emails.contains(#[trigger] wd[k].0) by {
        assert(wd[k].0 == all[k].email@);
    }
    assert forall|k: int| 0 <= k < wc.len() implies emails.contains(#[trigger] wc[k].0) by {
        assert(wc[k].0 == all[k].email@);
    }
    assert forall|k: int| 0 <= k < wp.len() implies emails.contains(#[trigger] wp[k].0) by {
        assert(wp[k].0 == all[k].email@);
    }
    lemma_totals_cover(wa, emails);
    lemma_totals_cover(wd, emails);
    lemma_totals_cover(wc, emails);
    lemma_totals_cover(wp, emails);
    let ra = rows.map_values(|r: AuthorStats| r.additions as int);
    let rd = rows.map_values(|r: AuthorStats| r.deletions as int);
    let rc = rows.map_values(|r: AuthorStats| r.contributions as int);
    let rp = rows.map_values(|r: AuthorStats| r.prs as int);
    let ta = totals_for(wa, emails);
    let td = totals_for(wd, emails);
    let tc = totals_for(wc, emails);
    let tp = totals_for(wp, emails);
    assert forall|i: int| 0 <= i < rows.len() implies #[trigger] ra[i] == ta[i] by {
        assert(rolled_up(all, rows[i]));
        lemma_rollup_entries(all, rows[i].email@);
    }
    assert forall|i: int| 0 <= i < rows.len() implies #[trigger] rd[i] == td[i] by {
        assert(rolled_up(all, rows[i]));
        lemma_rollup_entries(all, rows[i].email@);
    }
    assert forall|i: int| 0 <= i < rows.len() implies #[trigger] rc[i] == tc[i] by {
        assert(rolled_up(all, rows[i]));
        lemma_rollup_entries(all, rows[i].email@);
    }
    assert forall|i: int| 0 <= i < rows.len() implies #[trigger] rp[i] == tp[i] by {
        assert(rolled_up(all, rows[i]));
        lemma_rollup_entries(all, rows[i].email@);
    }
    assert(ra =~= ta);
    assert(rd =~= td);
    assert(rc =~= tc);
    assert(rp =~= tp);
    assert(values_of(wa) =~= all.map_values(|a: Attribution| a.additions as int));
    assert(values_of(wd) =~= all.map_values(|a: Attribution| a.deletions as int));
    assert(values_of(wp) =~= all.map_values(|a: Attribution| if a.is_pr_author { 1int } else { 0int }));
    lemma_sum_constant(values_of(wc), 1);
}

// ---------------------------------------------------------------------------
// One more exclusion pattern never raises the line totals
// ---------------------------------------------------------------------------

proof fn lemma_excludes_push(globs: Seq<Seq<char>>, p: Seq<char>, path: Seq<char>)
    ensures
        excludes(globs.push(p), path) == (excludes(globs, path) || excludes(seq![p], path)),
{
    let g = globs.push(p);
    if excludes(g, path) {
        let i = choose|i: int| 0 <= i < g.len() && regex_is_match(glob_regex(#[trigger] g[i]), path);
        if i < globs.len() {
            assert(g[i] == globs[i]);
        } else {
            assert(seq![p][0] == g[i]);
        }
    }
    if excludes(globs, path) {
        let i = choose|i: int| 0 <= i < globs.len() && regex_is_match(glob_regex(#[trigger] globs[i]), path);
        assert(g[i] == globs[i]);
    }
    if excludes(seq![p], path) {
        assert(g[globs.len() as int] == seq![p][0]);
    }
}

/// Filtering with one more pattern is filtering what the others keep with
/// that pattern alone.
pub proof fn lemma_extra_glob_filters_kept(globs: Seq<Seq<char>>, p: Seq<char>, s: Seq<FileDelta>)
    ensures
        kept_deltas(globs.push(p), s) == kept_deltas(seq![p], kept_deltas(globs, s)),
    decreases s.len(),
{
    if s.len() > 0 {
        lemma_extra_glob_filters_kept(globs, p, s.drop_last());
        lemma_excludes_push(globs, p, s.last().path@);
        let k0 = kept_deltas(globs, s.drop_last());
        if !excludes(globs, s.last().path@) {
            assert(k0.push(s.last()).drop_last() =~= k0);
        }
    }
}

/// Filtering never raises the line totals.
pub proof fn lemma_kept_lines_at_most(globs: Seq<Seq<char>>, s: Seq<FileDelta>)
    ensures
        sum_additions(kept_deltas(globs, s)) <= sum_additions(s),
        sum_deletions(kept_deltas(globs, s)) <= sum_deletions(s),
    decreases s.len(),
{
    if s.len() > 0 {
        lemma_kept_lines_at_most(globs, s.drop_last());
        let k0 = kept_deltas(globs, s.drop_last());
        if !excludes(globs, s.last().path@) {
            assert(k0.push(s.last()).drop_last() =~= k0);
        }
    }
}

/// Adding one more exclusion pattern never raises the lines a commit's kept
/// deltas add or remove.
pub proof fn lemma_extra_glob_lowers_lines(globs: Seq<Seq<char>>, p: Seq<char>, s: Seq<FileDelta>)
    ensures
        sum_additions(kept_deltas(globs.push(p), s)) <= sum_additions(kept_deltas(globs, s)),
        sum_deletions(kept_deltas(globs.push(p), s)) <= sum_deletions(kept_deltas(globs, s)),
{
    lemma_extra_glob_filters_kept(globs, p, s);
    lemma_kept_lines_at_most(seq![p], kept_deltas(globs, s));
}

/// A share never grows when the total it is taken from shrinks.
pub proof fn lemma_share_monotone(t1: int, t2: int, part: int, grand: int, n: int)
    requires
        0 <= t1 <= t2,
        part >= 0,
        grand >= 0,
    ensures
        share(t1, part, grand, n) <= share(t2, part, grand, n),
{
    if grand == 0 {
        let d = if n >= 1 { n } else { 1 };
        vstd::arithmetic::div_mod::lemma_div_is_ordered(t1, t2, d);
    } else {
        assert(t1 * part <= t2 * part) by (nonlinear_arith)
            requires
                0 <= t1 <= t2,
                part >= 0,
        ;
        vstd::arithmetic::div_mod::lemma_div_is_ordered(t1 * part, t2 * part, grand);
    }
}

/// With one more exclusion pattern, every PR author of a squash merge is
/// credited with no more lines than before.
pub proof fn lemma_extra_glob_lowers_shares(
    globs: Seq<Seq<char>>,
    p: Seq<char>,
    pr: Seq<(Author, Vec<FileDelta>)>,
    squash: Seq<FileDelta>,
    r1: Seq<Attribution>,
    r2: Seq<Attribution>,
)
    requires
        squash_attribution_of(pr, kept_deltas(globs, squash), r1),
        squash_attribution_of(pr, kept_deltas(globs.push(p), squash), r2),
    ensures
        r1.len() == r2.len(),
        forall|i: int, j: int| 0 <= i < r1.len() && 0 <= j < r2.len() && (#[trigger] r1[i]).email@ == (#[trigger] r2[j]).email@
            ==> r2[j].additions <= r1[i].additions && r2[j].deletions <= r1[i].deletions,
{
    lemma_extra_glob_lowers_lines(globs, p, squash);
    let k1 = kept_deltas(globs, squash);
    let k2 = kept_deltas(globs.push(p), squash);
    crate::stats::lemma_sum_nonneg(k2);
    assert forall|i: int, j: int| 0 <= i < r1.len() && 0 <= j < r2.len() && (#[trigger] r1[i]).email@ == (#[trigger] r2[j]).email@
        implies r2[j].additions <= r1[i].additions && r2[j].deletions <= r1[i].deletions by {
        let e = r1[i].email@;
        crate::stats::lemma_pr_totals_nonneg(pr, e);
        crate::stats::lemma_pr_totals_nonneg(pr, Seq::empty());
        lemma_share_monotone(sum_additions(k2), sum_additions(k1), email_additions(pr, e), pr_additions(pr), distinct_emails(pr));
        lemma_share_monotone(sum_deletions(k2), sum_deletions(k1), email_deletions(pr, e), pr_deletions(pr), distinct_emails(pr));
    }
}

} // verus!
