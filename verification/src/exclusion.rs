use vstd::prelude::*;

use crate::apportion::{attributed_additions, attributed_deletions, lemma_extra_glob_lowers_lines, lemma_extra_glob_lowers_shares, seq_sum};
use crate::error::CreditError;
use crate::filter::kept_deltas;
use crate::git::{is_bot_address, iso8601_text, CommitInfo};
use crate::order::arranged_by;
use crate::pipeline::{
    bots_stripped, kept_indices, single_attribution_report, squash_report_for, stable_arrangement,
    stripped_then_arranged, without_bot_attributions, PrAttribution, SquashOutcome,
};
use crate::stats::{has_email, human_attributions, squash_attribution_of, Attribution, CommitReport};
use crate::text::{lemma_lex_irreflexive, lemma_lex_transitive, lex_lt};

verus! {

// ---------------------------------------------------------------------------
// Sums under rearrangement and under pointwise bounds
// ---------------------------------------------------------------------------

/// Removing the item at `j` takes it out of the sum.
proof fn lemma_sum_remove(s: Seq<int>, j: int)
    requires
        0 <= j < s.len(),
    ensures
        seq_sum(s) == seq_sum(s.remove(j)) + s[j],
    decreases s.len(),
{
    if j == s.len() - 1 {
        assert(s.remove(j) =~= s.drop_last());
    } else {
        lemma_sum_remove(s.drop_last(), j);
        assert(s.remove(j).drop_last() =~= s.drop_last().remove(j));
        assert(s.remove(j).last() == s.last());
    }
}

/// A rearrangement keeps the sum.
pub proof fn lemma_arranged_sum(a: Seq<int>, b: Seq<int>, origin: Seq<int>)
    requires
        arranged_by(a, b, origin),
    ensures
        seq_sum(a) == seq_sum(b),
    decreases b.len(),
{
    if b.len() == 0 {
        assert(a =~= Seq::<int>::empty());
    } else {
        let n = b.len() - 1;
        let j = origin[n];
        let a1 = a.remove(j);
        let b1 = b.drop_last();
        let o1 = origin.drop_last().map_values(|k: int| if k > j { k - 1 } else { k });
        assert forall|x: int| 0 <= x < b1.len() implies 0 <= #[trigger] o1[x] < a1.len() && b1[x] == a1[o1[x]] by {
            assert(origin[x] != origin[n]);
            assert(b1[x] == b[x]);
        }
        assert forall|x: int, y: int| 0 <= x < y < o1.len() implies #[trigger] o1[x] != #[trigger] o1[y] by {
            assert(origin[x] != origin[y]);
            assert(origin[x] != j && origin[y] != j);
        }
        assert forall|k: int| 0 <= k < a1.len() implies #[trigger] o1.contains(k) by {
            let k0 = if k < j { k } else { k + 1 };
            assert(origin.contains(k0));
            let x = choose|x: int| 0 <= x < origin.len() && origin[x] == k0;
            assert(x != n);
            assert(o1[x] == k);
        }
        assert(arranged_by(a1, b1, o1));
        lemma_arranged_sum(a1, b1, o1);
        lemma_sum_remove(a, j);
        assert(b.last() == a[j]);
    }
}

/// Mapping both sides keeps a rearrangement.
pub proof fn lemma_arranged_map<T>(src: Seq<T>, dst: Seq<T>, origin: Seq<int>, f: spec_fn(T) -> int)
    requires
        arranged_by(src, dst, origin),
    ensures
        arranged_by(src.map_values(f), dst.map_values(f), origin),
{
    let s = src.map_values(f);
    let d = dst.map_values(f);
    assert forall|a: int| 0 <= a < d.len() implies 0 <= #[trigger] origin[a] < s.len() && d[a] == s[origin[a]] by {
        assert(dst[a] == src[origin[a]]);
    }
}

/// A sum of items each at most another's is at most the other sum.
pub proof fn lemma_sum_pointwise(a: Seq<int>, b: Seq<int>)
    requires
        a.len() == b.len(),
        forall|i: int| 0 <= i < a.len() ==> a[i] <= b[i],
    ensures
        seq_sum(a) <= seq_sum(b),
    decreases a.len(),
{
    if a.len() > 0 {
        lemma_sum_pointwise(a.drop_last(), b.drop_last());
    }
}

// ---------------------------------------------------------------------------
// Attributions that another set of attributions bounds
// ---------------------------------------------------------------------------

/// `a2` credits the same e-mails as `a1`, in the same places, each with no
/// more lines added or removed.
pub open spec fn dominated(a2: Seq<Attribution>, a1: Seq<Attribution>) -> bool {
    &&& a2.len() == a1.len()
    &&& forall|i: int| 0 <= i < a1.len() ==> {
        &&& (#[trigger] a2[i]).email@ == a1[i].email@
        &&& a2[i].additions <= a1[i].additions
        &&& a2[i].deletions <= a1[i].deletions
    }
}

/// Lines added per commit of `s`.
pub open spec fn added_per_commit(s: Seq<CommitReport>) -> Seq<int> {
    s.map_values(|c: CommitReport| attributed_additions(c.attributions@))
}

/// Lines removed per commit of `s`.
pub open spec fn removed_per_commit(s: Seq<CommitReport>) -> Seq<int> {
    s.map_values(|c: CommitReport| attributed_deletions(c.attributions@))
}

/// Lines added over all attributions of the commits `s`.
pub open spec fn run_added(s: Seq<CommitReport>) -> int {
    seq_sum(added_per_commit(s))
}

/// Lines removed over all attributions of the commits `s`.
pub open spec fn run_removed(s: Seq<CommitReport>) -> int {
    seq_sum(removed_per_commit(s))
}

proof fn lemma_dominated_lines(a2: Seq<Attribution>, a1: Seq<Attribution>)
    requires
        dominated(a2, a1),
    ensures
        attributed_additions(a2) <= attributed_additions(a1),
        attributed_deletions(a2) <= attributed_deletions(a1),
{
    let x2 = a2.map_values(|a: Attribution| a.additions as int);
    let x1 = a1.map_values(|a: Attribution| a.additions as int);
    assert forall|i: int| 0 <= i < x2.len() implies x2[i] <= x1[i] by {
        assert(a2[i].additions <= a1[i].additions);
    }
    lemma_sum_pointwise(x2, x1);
    let y2 = a2.map_values(|a: Attribution| a.deletions as int);
    let y1 = a1.map_values(|a: Attribution| a.deletions as int);
    assert forall|i: int| 0 <= i < y2.len() implies y2[i] <= y1[i] by {
        assert(a2[i].deletions <= a1[i].deletions);
    }
    lemma_sum_pointwise(y2, y1);
}

proof fn lemma_dominated_humans(a2: Seq<Attribution>, a1: Seq<Attribution>)
    requires
        dominated(a2, a1),
    ensures
        dominated(human_attributions(a2), human_attributions(a1)),
    decreases a1.len(),
{
    if a1.len() > 0 {
        let b2 = a2.drop_last();
        let b1 = a1.drop_last();
        assert(dominated(b2, b1)) by {
            assert forall|i: int| 0 <= i < b1.len() implies {
                &&& (#[trigger] b2[i]).email@ == b1[i].email@
                &&& b2[i].additions <= b1[i].additions
                &&& b2[i].deletions <= b1[i].deletions
            } by {
                assert(b2[i] == a2[i] && b1[i] == a1[i]);
            }
        }
        lemma_dominated_humans(b2, b1);
        assert(a2.last() == a2[a1.len() - 1] && a1.last() == a1[a1.len() - 1]);
        let h2 = human_attributions(b2);
        let h1 = human_attributions(b1);
        if !is_bot_address(a1.last().email@) {
            let n2 = h2.push(a2.last());
            let n1 = h1.push(a1.last());
            assert forall|i: int| 0 <= i < n1.len() implies {
                &&& (#[trigger] n2[i]).email@ == n1[i].email@
                &&& n2[i].additions <= n1[i].additions
                &&& n2[i].deletions <= n1[i].deletions
            } by {
                if i < h1.len() {
                    assert(n2[i] == h2[i] && n1[i] == h1[i]);
                }
            }
        }
    }
}

// ---------------------------------------------------------------------------
// Squash attributions of one PR credit the same e-mails in the same places
// ---------------------------------------------------------------------------

/// Two strictly increasing sequences of the same e-mails are equal.
proof fn lemma_sorted_unique(x: Seq<Seq<char>>, y: Seq<Seq<char>>)
    requires
        x.len() == y.len(),
        forall|i: int, j: int| 0 <= i < j < x.len() ==> lex_lt(#[trigger] x[i], #[trigger] x[j]),
        forall|i: int, j: int| 0 <= i < j < y.len() ==> lex_lt(#[trigger] y[i], #[trigger] y[j]),
        forall|i: int| 0 <= i < x.len() ==> y.contains(#[trigger] x[i]),
        forall|j: int| 0 <= j < y.len() ==> x.contains(#[trigger] y[j]),
    ensures
        x == y,
    decreases x.len(),
{
    if x.len() > 0 {
        assert(y.contains(x[0]));
        let j = choose|j: int| 0 <= j < y.len() && y[j] == x[0];
        assert(x.contains(y[0]));
        let k = choose|k: int| 0 <= k < x.len() && x[k] == y[0];
        if j > 0 {
            assert(lex_lt(y[0], y[j]));
            if k > 0 {
                assert(lex_lt(x[0], x[k]));
                lemma_lex_transitive(x[0], y[0], x[0]);
                lemma_lex_irreflexive(x[0]);
            } else {
                lemma_lex_irreflexive(x[0]);
            }
        }
        assert(x[0] == y[0]);
        let x1 = x.drop_first();
        let y1 = y.drop_first();
        assert forall|i: int| 0 <= i < x1.len() implies y1.contains(#[trigger] x1[i]) by {
            assert(x1[i] == x[i + 1]);
            assert(y.contains(x[i + 1]));
            let t = choose|t: int| 0 <= t < y.len() && y[t] == x[i + 1];
            if t == 0 {
                assert(lex_lt(x[0], x[i + 1]));
                lemma_lex_irreflexive(x[0]);
            }
            assert(y1[t - 1] == y[t]);
        }
        assert forall|i: int| 0 <= i < y1.len() implies x1.contains(#[trigger] y1[i]) by {
            assert(y1[i] == y[i + 1]);
            assert(x.contains(y[i + 1]));
            let t = choose|t: int| 0 <= t < x.len() && x[t] == y[i + 1];
            if t == 0 {
                assert(lex_lt(y[0], y[i + 1]));
                lemma_lex_irreflexive(y[0]);
            }
            assert(x1[t - 1] == x[t]);
        }
        assert forall|i: int, j: int| 0 <= i < j < x1.len() implies lex_lt(#[trigger] x1[i], #[trigger] x1[j]) by {
            assert(x1[i] == x[i + 1] && x1[j] == x[j + 1]);
        }
        assert forall|i: int, j: int| 0 <= i < j < y1.len() implies lex_lt(#[trigger] y1[i], #[trigger] y1[j]) by {
            assert(y1[i] == y[i + 1] && y1[j] == y[j + 1]);
        }
        lemma_sorted_unique(x1, y1);
        assert(x =~= seq![x[0]] + x1);
        assert(y =~= seq![y[0]] + y1);
    }
}

/// Two squash attributions of one PR, over possibly different merge
/// deltas, credit the same e-mails in the same places.
proof fn lemma_squash_emails_align(
    pr: Seq<(crate::git::Author, Vec<crate::git::FileDelta>)>,
    s1: Seq<crate::git::FileDelta>,
    s2: Seq<crate::git::FileDelta>,
    r1: Seq<Attribution>,
    r2: Seq<Attribution>,
)
    requires
        squash_attribution_of(pr, s1, r1),
        squash_attribution_of(pr, s2, r2),
    ensures
        r1.len() == r2.len(),
        forall|i: int| 0 <= i < r1.len() ==> (#[trigger] r1[i]).email@ == r2[i].email@,
{
    let x = r1.map_values(|a: Attribution| a.email@);
    let y = r2.map_values(|a: Attribution| a.email@);
    assert forall|i: int, j: int| 0 <= i < j < x.len() implies lex_lt(#[trigger] x[i], #[trigger] x[j]) by {
        assert(lex_lt(r1[i].email@, r1[j].email@));
    }
    assert forall|i: int, j: int| 0 <= i < j < y.len() implies lex_lt(#[trigger] y[i], #[trigger] y[j]) by {
        assert(lex_lt(r2[i].email@, r2[j].email@));
    }
    assert forall|i: int| 0 <= i < x.len() implies y.contains(#[trigger] x[i]) by {
        let e = r1[i].email@;
        assert(has_email(pr, e));
        let k = choose|k: int| 0 <= k < pr.len() && (#[trigger] pr[k]).0.email@ == e;
        let j = choose|j: int| 0 <= j < r2.len() && #[trigger] r2[j].email@ == (#[trigger] pr[k]).0.email@;
        assert(y[j] == e);
    }
    assert forall|j: int| 0 <= j < y.len() implies x.contains(#[trigger] y[j]) by {
        let e = r2[j].email@;
        assert(has_email(pr, e));
        let k = choose|k: int| 0 <= k < pr.len() && (#[trigger] pr[k]).0.email@ == e;
        let i = choose|i: int| 0 <= i < r1.len() && #[trigger] r1[i].email@ == (#[trigger] pr[k]).0.email@;
        assert(x[i] == e);
    }
    lemma_sorted_unique(x, y);
    assert forall|i: int| 0 <= i < r1.len() implies (#[trigger] r1[i]).email@ == r2[i].email@ by {
        assert(x[i] == y[i]);
    }
}

// ---------------------------------------------------------------------------
// One more exclusion pattern never raises a run's line totals
// ---------------------------------------------------------------------------

/// `emitted` holds the reports of a run with the filter's globs `globs`, as
/// `direct_reports` and then `unexpanded_reports` (no GitHub client,
/// `results` is `None`) or `squash_reports` (with the lookup `results` and
/// the `outcomes`) state them: the regular commits first, then the squash
/// merges, each in order.
pub open spec fn emitted_by(
    globs: Seq<Seq<char>>,
    regular: Seq<CommitInfo>,
    merges: Seq<(CommitInfo, u64)>,
    results: Option<Seq<Result<PrAttribution, CreditError>>>,
    outcomes: Seq<SquashOutcome>,
    emitted: Seq<CommitReport>,
) -> bool {
    &&& emitted.len() == regular.len() + merges.len()
    &&& forall|i: int| 0 <= i < regular.len() ==> {
        let c = #[trigger] regular[i];
        single_attribution_report(emitted[i], c.oid@, iso8601_text(c.author_time as int), c.author.name@, c.author.email@, kept_deltas(globs, c.deltas@), false, true)
    }
    &&& match results {
        None => forall|j: int| 0 <= j < merges.len() ==> {
            let c = (#[trigger] merges[j]).0;
            single_attribution_report(emitted[regular.len() + j], c.oid@, iso8601_text(c.author_time as int), c.author.name@, c.author.email@, kept_deltas(globs, c.deltas@), false, false)
        },
        Some(rs) => {
            &&& rs.len() == merges.len()
            &&& outcomes.len() == merges.len()
            &&& forall|j: int| 0 <= j < merges.len() ==> squash_report_for(globs, (#[trigger] merges[j]).0, rs[j], emitted[regular.len() + j], outcomes[j])
        },
    }
}

proof fn lemma_single_dominated(
    globs: Seq<Seq<char>>,
    p: Seq<char>,
    d: Seq<crate::git::FileDelta>,
    email: Seq<char>,
    r1: CommitReport,
    r2: CommitReport,
    sha: Seq<char>,
    date: Seq<char>,
    name: Seq<char>,
    squash: bool,
    accurate: bool,
)
    requires
        single_attribution_report(r1, sha, date, name, email, kept_deltas(globs, d), squash, accurate),
        single_attribution_report(r2, sha, date, name, email, kept_deltas(globs.push(p), d), squash, accurate),
    ensures
        dominated(r2.attributions@, r1.attributions@),
{
    lemma_extra_glob_lowers_lines(globs, p, d);
}

proof fn lemma_squash_dominated(
    globs: Seq<Seq<char>>,
    p: Seq<char>,
    c: CommitInfo,
    result: Result<PrAttribution, CreditError>,
    r1: CommitReport,
    r2: CommitReport,
    o1: SquashOutcome,
    o2: SquashOutcome,
)
    requires
        squash_report_for(globs, c, result, r1, o1),
        squash_report_for(globs.push(p), c, result, r2, o2),
    ensures
        dominated(r2.attributions@, r1.attributions@),
{
    lemma_extra_glob_lowers_lines(globs, p, c.deltas@);
    match result {
        Ok(PrAttribution::MultiAuthor(v)) => {
            let a1 = r1.attributions@;
            let a2 = r2.attributions@;
            lemma_squash_emails_align(v@, kept_deltas(globs, c.deltas@), kept_deltas(globs.push(p), c.deltas@), a1, a2);
            lemma_extra_glob_lowers_shares(globs, p, v@, c.deltas@, a1, a2);
            assert forall|i: int| 0 <= i < a1.len() implies {
                &&& (#[trigger] a2[i]).email@ == a1[i].email@
                &&& a2[i].additions <= a1[i].additions
                &&& a2[i].deletions <= a1[i].deletions
            } by {
                assert(a1[i].email@ == a2[i].email@);
            }
        },
        _ => {},
    }
}

/// The reports of two runs, with `globs` and with one more pattern `p`,
/// line up: each report of the second is bounded by the first's.
proof fn lemma_emitted_dominated(
    globs: Seq<Seq<char>>,
    p: Seq<char>,
    regular: Seq<CommitInfo>,
    merges: Seq<(CommitInfo, u64)>,
    results: Option<Seq<Result<PrAttribution, CreditError>>>,
    o1: Seq<SquashOutcome>,
    o2: Seq<SquashOutcome>,
    e1: Seq<CommitReport>,
    e2: Seq<CommitReport>,
)
    requires
        emitted_by(globs, regular, merges, results, o1, e1),
        emitted_by(globs.push(p), regular, merges, results, o2, e2),
    ensures
        e1.len() == e2.len(),
        forall|i: int| 0 <= i < e1.len() ==> dominated((#[trigger] e2[i]).attributions@, e1[i].attributions@),
{
    assert forall|i: int| 0 <= i < e1.len() implies dominated((#[trigger] e2[i]).attributions@, e1[i].attributions@) by {
        if i < regular.len() {
            let c = regular[i];
            lemma_single_dominated(globs, p, c.deltas@, c.author.email@, e1[i], e2[i], c.oid@, iso8601_text(c.author_time as int), c.author.name@, false, true);
        } else {
            let j = i - regular.len();
            let c = merges[j].0;
            match results {
                None => {
                    lemma_single_dominated(globs, p, c.deltas@, c.author.email@, e1[i], e2[i], c.oid@, iso8601_text(c.author_time as int), c.author.name@, false, false);
                },
                Some(rs) => {
                    lemma_squash_dominated(globs, p, c, rs[j], e1[i], e2[i], o1[j], o2[j]);
                },
            }
        }
    }
}

proof fn lemma_kept_indices_agree(e1: Seq<CommitReport>, e2: Seq<CommitReport>)
    requires
        e1.len() == e2.len(),
        forall|i: int| 0 <= i < e1.len() ==> dominated((#[trigger] e2[i]).attributions@, e1[i].attributions@),
    ensures
        kept_indices(e1) == kept_indices(e2),
    decreases e1.len(),
{
    if e1.len() > 0 {
        let d1 = e1.drop_last();
        let d2 = e2.drop_last();
        assert forall|i: int| 0 <= i < d1.len() implies dominated((#[trigger] d2[i]).attributions@, d1[i].attributions@) by {
            assert(d1[i] == e1[i] && d2[i] == e2[i]);
        }
        lemma_kept_indices_agree(d1, d2);
        assert(dominated(e2[e1.len() - 1].attributions@, e1[e1.len() - 1].attributions@));
        lemma_dominated_humans(e2.last().attributions@, e1.last().attributions@);
    }
}

/// Pointwise bounded reports have bounded run totals.
proof fn lemma_run_dominated(e1: Seq<CommitReport>, e2: Seq<CommitReport>)
    requires
        e1.len() == e2.len(),
        forall|i: int| 0 <= i < e1.len() ==> dominated((#[trigger] e2[i]).attributions@, e1[i].attributions@),
    ensures
        run_added(e2) <= run_added(e1),
        run_removed(e2) <= run_removed(e1),
{
    let a1 = added_per_commit(e1);
    let a2 = added_per_commit(e2);
    let r1 = removed_per_commit(e1);
    let r2 = removed_per_commit(e2);
    assert forall|i: int| 0 <= i < a2.len() implies a2[i] <= a1[i] && r2[i] <= r1[i] by {
        assert(dominated(e2[i].attributions@, e1[i].attributions@));
        lemma_dominated_lines(e2[i].attributions@, e1[i].attributions@);
    }
    lemma_sum_pointwise(a2, a1);
    lemma_sum_pointwise(r2, r1);
}

/// A rearrangement of the commits keeps the run totals.
proof fn lemma_run_arranged(src: Seq<CommitReport>, dst: Seq<CommitReport>)
    requires
        stable_arrangement(src, dst),
    ensures
        run_added(dst) == run_added(src),
        run_removed(dst) == run_removed(src),
{
    let origin = choose|origin: Seq<int>| {
        &&& arranged_by(src, dst, origin)
        &&& forall|a: int, b: int| 0 <= a < b < dst.len() && crate::pipeline::same_key(#[trigger] dst[a], #[trigger] dst[b]) ==> origin[a] < origin[b]
    };
    let fa = |c: CommitReport| attributed_additions(c.attributions@);
    let fr = |c: CommitReport| attributed_deletions(c.attributions@);
    lemma_arranged_map(src, dst, origin, fa);
    lemma_arranged_map(src, dst, origin, fr);
    assert(src.map_values(fa) =~= added_per_commit(src));
    assert(dst.map_values(fa) =~= added_per_commit(dst));
    assert(src.map_values(fr) =~= removed_per_commit(src));
    assert(dst.map_values(fr) =~= removed_per_commit(dst));
    lemma_arranged_sum(src.map_values(fa), dst.map_values(fa), origin);
    lemma_arranged_sum(src.map_values(fr), dst.map_values(fr), origin);
}

/// One more exclusion pattern never raises a run's line totals: two runs
/// over the same commits and the same PR lookups, one with the filter's
/// globs `globs` and one with `globs` and `p`, whose final commits
/// `c1` and `c2` are what `finish_report` states of them (bots kept or
/// stripped alike), credit no more lines added, and no more removed, with
/// `p` than without.
pub proof fn lemma_extra_glob_lowers_run_lines(
    globs: Seq<Seq<char>>,
    p: Seq<char>,
    regular: Seq<CommitInfo>,
    merges: Seq<(CommitInfo, u64)>,
    results: Option<Seq<Result<PrAttribution, CreditError>>>,
    o1: Seq<SquashOutcome>,
    o2: Seq<SquashOutcome>,
    e1: Seq<CommitReport>,
    e2: Seq<CommitReport>,
    include_bots: bool,
    c1: Seq<CommitReport>,
    c2: Seq<CommitReport>,
)
    requires
        emitted_by(globs, regular, merges, results, o1, e1),
        emitted_by(globs.push(p), regular, merges, results, o2, e2),
        include_bots ==> stable_arrangement(e1, c1) && stable_arrangement(e2, c2),
        !include_bots ==> stripped_then_arranged(e1, c1) && stripped_then_arranged(e2, c2),
    ensures
        run_added(c2) <= run_added(c1),
        run_removed(c2) <= run_removed(c1),
{
    lemma_emitted_dominated(globs, p, regular, merges, results, o1, o2, e1, e2);
    if include_bots {
        lemma_run_dominated(e1, e2);
        lemma_run_arranged(e1, c1);
        lemma_run_arranged(e2, c2);
    } else {
        let k1 = choose|kept: Seq<CommitReport>| #[trigger] bots_stripped(e1, kept) && stable_arrangement(kept, c1);
        let k2 = choose|kept: Seq<CommitReport>| #[trigger] bots_stripped(e2, kept) && stable_arrangement(kept, c2);
        lemma_kept_indices_agree(e1, e2);
        let ki = kept_indices(e1);
        crate::pipeline::lemma_kept_indices_bound(e1);
        assert forall|j: int| 0 <= j < k1.len() implies dominated((#[trigger] k2[j]).attributions@, k1[j].attributions@) by {
            assert(without_bot_attributions(e1[ki[j]], k1[j]));
            assert(without_bot_attributions(e2[ki[j]], k2[j]));
            assert(dominated(e2[ki[j]].attributions@, e1[ki[j]].attributions@));
            lemma_dominated_humans(e2[ki[j]].attributions@, e1[ki[j]].attributions@);
        }
        lemma_run_dominated(k1, k2);
        lemma_run_arranged(k1, c1);
        lemma_run_arranged(k2, c2);
    }
}

} // verus!
