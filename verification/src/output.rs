use vstd::prelude::*;

use crate::numeric::{decimal, push_decimal, zero_pad};
use crate::cli::OutputFormat;
use crate::stats::{additions_of, deletions_of, rolled_up, Attribution, all_attributions, rollup_by_author, rollup_fits, rollup_table, AuthorStats, Report, Summary};
use crate::text::push_char;

verus! {

/// `n` with a `,` between each group of three digits, counted from the right.
pub open spec fn grouped_decimal(n: nat) -> Seq<char>
    decreases n,
{
    if n < 1000 {
        decimal(n)
    } else {
        grouped_decimal(n / 1000) + seq![','] + zero_pad(decimal(n % 1000), 3)
    }
}

fn push_str(out: &mut String, s: &str)
    ensures
        final(out)@ == old(out)@ + s@,
{
    out.append(s);
}

fn push_grouped(out: &mut String, n: u64)
    ensures
        final(out)@ == old(out)@ + grouped_decimal(n as nat),
    decreases n,
{
    if n < 1000 {
        push_decimal(out, n);
    } else {
        push_grouped(out, n / 1000);
        push_char(out, ',');
        let low = n % 1000;
        if low < 100 {
            push_char(out, '0');
        }
        if low < 10 {
            push_char(out, '0');
        }
        let ghost before = out@;
        push_decimal(out, low);
        proof {
            lemma_small_decimal_len(low as nat);
            let pad = zero_pad(decimal(low as nat), 3);
            if low < 10 {
                assert(pad =~= seq!['0', '0'] + decimal(low as nat));
            } else if low < 100 {
                assert(pad =~= seq!['0'] + decimal(low as nat));
            } else {
                assert(pad =~= decimal(low as nat));
            }
            assert(out@ =~= old(out)@ + grouped_decimal(n as nat));
        }
    }
}

proof fn lemma_small_decimal_len(n: nat)
    requires
        n < 1000,
    ensures
        n < 10 ==> decimal(n).len() == 1,
        10 <= n < 100 ==> decimal(n).len() == 2,
        100 <= n ==> decimal(n).len() == 3,
{
    reveal_with_fuel(decimal, 3);
}

/// Format a number with thousand separators (e.g., 1542 → "1,542").
pub fn format_number(n: u64) -> (s: String)
    ensures
        s@ == grouped_decimal(n as nat),
{
    let mut s = String::new();
    push_grouped(&mut s, n);
    s
}

/// The `Author` cell of a table row: `name <email>`.
pub open spec fn author_label(name: Seq<char>, email: Seq<char>) -> Seq<char> {
    name + seq![' ', '<'] + email + seq!['>']
}

/// The cells of the table row of `a`: author, contributions, PRs, lines
/// added, lines removed and their total, numbers with thousand separators.
pub open spec fn row_cells(a: AuthorStats) -> Seq<Seq<char>> {
    seq![
        author_label(a.name@, a.email@),
        grouped_decimal(a.contributions as nat),
        grouped_decimal(a.prs as nat),
        grouped_decimal(a.additions as nat),
        grouped_decimal(a.deletions as nat),
        grouped_decimal((a.additions + a.deletions) as nat),
    ]
}

/// The header of the author table.
pub open spec fn header_cells() -> Seq<Seq<char>> {
    seq!["Author"@, "Contributions"@, "PRs"@, "+"@, "-"@, "Total"@]
}

/// The header of the author table.
pub fn table_header() -> (r: Vec<String>)
    ensures
        r@.len() == 6,
        forall|k: int| 0 <= k < 6 ==> (#[trigger] r@[k])@ == header_cells()[k],
{
    let mut r: Vec<String> = Vec::new();
    r.push("Author".to_string());
    r.push("Contributions".to_string());
    r.push("PRs".to_string());
    r.push("+".to_string());
    r.push("-".to_string());
    r.push("Total".to_string());
    assert forall|k: int| 0 <= k < 6 implies (#[trigger] r@[k])@ == header_cells()[k] by {
        if k == 0 {
        } else if k == 1 {
        } else if k == 2 {
        } else if k == 3 {
        } else if k == 4 {
        } else {
        }
    }
    r
}

/// The rows of the author table, one per author in the given order.
pub fn table_rows(authors: &Vec<AuthorStats>) -> (r: Vec<Vec<String>>)
    requires
        forall|i: int| 0 <= i < authors@.len() ==> (#[trigger] authors@[i]).additions + authors@[i].deletions <= u64::MAX,
    ensures
        r@.len() == authors@.len(),
        forall|i: int| 0 <= i < r@.len() ==> (#[trigger] r@[i])@.len() == 6,
        forall|i: int, k: int| 0 <= i < r@.len() && 0 <= k < 6 ==> (#[trigger] r@[i]@[k])@ == row_cells(authors@[i])[k],
{
    let mut rows: Vec<Vec<String>> = Vec::new();
    let mut i: usize = 0;
    while i < authors.len()
        invariant
            i <= authors@.len(),
            forall|i: int| 0 <= i < authors@.len() ==> (#[trigger] authors@[i]).additions + authors@[i].deletions <= u64::MAX,
            rows@.len() == i,
            forall|j: int| 0 <= j < i ==> (#[trigger] rows@[j])@.len() == 6,
            forall|j: int, k: int| 0 <= j < i && 0 <= k < 6 ==> (#[trigger] rows@[j]@[k])@ == row_cells(authors@[j])[k],
        decreases authors.len() - i,
    {
        let a = &authors[i];
        let mut label = a.name.clone();
        push_char(&mut label, ' ');
        push_char(&mut label, '<');
        push_str(&mut label, a.email.as_str());
        push_char(&mut label, '>');
        let mut row: Vec<String> = Vec::new();
        row.push(label);
        row.push(format_number(a.contributions));
        row.push(format_number(a.prs));
        row.push(format_number(a.additions));
        row.push(format_number(a.deletions));
        row.push(format_number(a.additions + a.deletions));
        proof {
            assert(row@[0]@ =~= row_cells(authors@[i as int])[0]);
        }
        rows.push(row);
        i = i + 1;
    }
    rows
}

/// The line under the table:
/// `{authors} authors[ ({bots} bots excluded)], {walked} commits walked, {expanded} squash merges expanded`.
pub open spec fn summary_text(author_count: nat, summary: Summary) -> Seq<char> {
    grouped_decimal(author_count) + " authors"@ + (if summary.bots_excluded > 0 {
        " ("@ + grouped_decimal(summary.bots_excluded as nat) + " bots excluded)"@
    } else {
        Seq::empty()
    }) + ", "@ + grouped_decimal(summary.total_commits_walked as nat) + " commits walked, "@
        + grouped_decimal(summary.squash_merges_expanded as nat) + " squash merges expanded"@
}

/// The summary line printed under the author table.
pub fn summary_line(author_count: u64, summary: &Summary) -> (r: String)
    ensures
        r@ == summary_text(author_count as nat, *summary),
{
    let mut line = format_number(author_count);
    push_str(&mut line, " authors");
    if summary.bots_excluded > 0 {
        push_str(&mut line, " (");
        push_str(&mut line, format_number(summary.bots_excluded).as_str());
        push_str(&mut line, " bots excluded)");
    }
    push_str(&mut line, ", ");
    push_str(&mut line, format_number(summary.total_commits_walked).as_str());
    push_str(&mut line, " commits walked, ");
    push_str(&mut line, format_number(summary.squash_merges_expanded).as_str());
    push_str(&mut line, " squash merges expanded");
    proof {
        if summary.bots_excluded > 0 {
        }
    }
    assert(line@ =~= summary_text(author_count as nat, *summary));
    line
}

/// Each row of a rollup of attributions whose totals fit has a total that fits.
proof fn lemma_rows_fit(all: Seq<Attribution>, rows: Seq<AuthorStats>)
    requires
        rollup_fits(all),
        rollup_table(all, rows),
    ensures
        forall|i: int| 0 <= i < rows.len() ==> (#[trigger] rows[i]).additions + rows[i].deletions <= u64::MAX,
{
    assert forall|i: int| 0 <= i < rows.len() implies (#[trigger] rows[i]).additions + rows[i].deletions <= u64::MAX by {
        assert(rolled_up(all, rows[i]));
        assert(additions_of(all, rows[i].email@) + deletions_of(all, rows[i].email@) <= u64::MAX);
    }
}

/// What a run prints, before it is printed.
pub enum Rendering {
    /// No author to list: this line alone.
    Message(String),
    /// The author table (header and rows) and the summary line under it.
    Table { header: Vec<String>, rows: Vec<Vec<String>>, summary: String },
    /// The report itself, pretty-printed as JSON.
    Json,
}

/// `r` renders `report` as a table of the rollup `authors`.
pub open spec fn table_rendering(report: Report, authors: Seq<AuthorStats>, r: Rendering) -> bool {
    &&& rollup_table(all_attributions(report.commits@), authors)
    &&& forall|i: int, j: int| 0 <= i < j < authors.len() ==> (#[trigger] authors[i]).additions + authors[i].deletions >= (#[trigger] authors[j]).additions + authors[j].deletions
    &&& if authors.len() == 0 {
        r matches Rendering::Message(m) && m@ == "No contributions found."@
    } else {
        &&& r matches Rendering::Table { header, rows, summary }
        &&& r->header@.len() == 6
        &&& (forall|k: int| 0 <= k < 6 ==> (#[trigger] r->header@[k])@ == header_cells()[k])
        &&& r->rows@.len() == authors.len()
        &&& (forall|i: int| 0 <= i < authors.len() ==> (#[trigger] r->rows@[i])@.len() == 6)
        &&& (forall|i: int, k: int| 0 <= i < authors.len() && 0 <= k < 6 ==> (#[trigger] r->rows@[i]@[k])@ == row_cells(authors[i])[k])
        &&& r->summary@ == summary_text(authors.len(), report.summary)
    }
}

/// Render the report in the chosen format: for a table, the per-author
/// rollup (largest total first) with the summary line under it, or a notice
/// when nobody contributed; for JSON, the report itself.
pub fn render(report: &Report, format: &OutputFormat) -> (r: Rendering)
    requires
        *format == OutputFormat::Table ==> rollup_fits(all_attributions(report.commits@)),
    ensures
        *format == OutputFormat::Json ==> r is Json,
        *format == OutputFormat::Table ==> exists|authors: Seq<AuthorStats>| #[trigger] table_rendering(*report, authors, r),
{
    match format {
        OutputFormat::Json => Rendering::Json,
        OutputFormat::Table => {
            let authors = rollup_by_author(report);
            proof {
                lemma_rows_fit(all_attributions(report.commits@), authors@);
            }
            if authors.len() == 0 {
                let r = Rendering::Message("No contributions found.".to_string());
                assert(table_rendering(*report, authors@, r));
                r
            } else {
                let header = table_header();
                let rows = table_rows(&authors);
                let summary = summary_line(authors.len() as u64, &report.summary);
                let r = Rendering::Table { header, rows, summary };
                assert(table_rendering(*report, authors@, r));
                r
            }
        },
    }
}

} // verus!
