//! The report: the authors by share of the attributed lines.

use vstd::prelude::*;
use crate::reltime::{elapsed_seconds, format_relative, relative_time_text};
use crate::stats::{lemma_summary_remove, total_lines, StatsTable};
use crate::stats_map::StatsMap;
use crate::text::{
    lemma_lex_less_irreflexive, lemma_lex_less_total, lemma_lex_less_transitive, lex_less, precedes,
};

verus! {

/// One author's line of the report. The author's share of the attributed
/// lines is `lines` out of `total_lines`.
#[derive(Clone, Debug, PartialEq, Eq)]
pub struct ReportRow {
    pub author: String,
    pub lines: usize,
    pub total_lines: usize,
    pub last_commit_time: i64,
    /// How long before the report's moment the author last touched a line.
    pub last_touched: String,
}

/// The mathematical content of a [`ReportRow`].
pub struct RowView {
    pub author: Seq<char>,
    pub lines: nat,
    pub total_lines: nat,
    pub last_commit_time: int,
    pub last_touched: Seq<char>,
}

impl View for ReportRow {
    type V = RowView;

    open spec fn view(&self) -> RowView {
        RowView {
            author: self.author@,
            lines: self.lines as nat,
            total_lines: self.total_lines as nat,
            last_commit_time: self.last_commit_time as int,
            last_touched: self.last_touched@,
        }
    }
}

impl DeepView for ReportRow {
    type V = RowView;

    open spec fn deep_view(&self) -> RowView {
        self@
    }
}

/// The order of the report: more lines first; among equal line counts, the
/// author whose key comes first in lexicographic order.
pub open spec fn ranks_before(a: RowView, b: RowView) -> bool {
    a.lines > b.lines || (a.lines == b.lines && lex_less(a.author, b.author))
}

/// The row of the author `k` in the report on `m` made at the moment `now`.
pub open spec fn row_of(m: StatsTable, k: Seq<char>, now: int) -> RowView {
    RowView {
        author: k,
        lines: m[k].lines,
        total_lines: total_lines(m),
        last_commit_time: m[k].last_commit_time,
        last_touched: relative_time_text(elapsed_seconds(m[k].last_commit_time, now)),
    }
}

/// Whether `rows` hold, in the order of the report, the row `row(k)` of
/// each author `k` of `authors`, and no other row.
pub open spec fn lists(
    authors: Set<Seq<char>>,
    row: spec_fn(Seq<char>) -> RowView,
    rows: Seq<RowView>,
) -> bool {
    &&& forall|i: int|
        0 <= i < rows.len() ==> authors.contains((#[trigger] rows[i]).author) && rows[i] == row(
            rows[i].author,
        )
    &&& forall|k: Seq<char>|
        authors.contains(k) ==> exists|i: int| 0 <= i < rows.len() && (#[trigger] rows[i]).author == k
    &&& forall|i: int, j: int|
        0 <= i < j < rows.len() ==> ranks_before(#[trigger] rows[i], #[trigger] rows[j])
}

/// Whether `rows` are the report on `m` made at the moment `now`.
pub open spec fn is_report(m: StatsTable, now: int, rows: Seq<RowView>) -> bool {
    lists(m.dom(), |k: Seq<char>| row_of(m, k, now), rows)
}

/// The lines of all rows together.
pub open spec fn sum_lines(rows: Seq<RowView>) -> nat
    decreases rows.len(),
{
    if rows.len() == 0 {
        0
    } else {
        sum_lines(rows.drop_last()) + rows.last().lines
    }
}

/// No row ranks before itself.
pub proof fn lemma_ranks_before_irreflexive(a: RowView)
    ensures
        !ranks_before(a, a),
{
    lemma_lex_less_irreflexive(a.author);
}

/// The order of the report is transitive.
pub proof fn lemma_ranks_before_transitive(a: RowView, b: RowView, c: RowView)
    requires
        ranks_before(a, b),
        ranks_before(b, c),
    ensures
        ranks_before(a, c),
{
    if a.lines == b.lines && b.lines == c.lines {
        lemma_lex_less_transitive(a.author, b.author, c.author);
    }
}

/// Of two rows of different authors one ranks before the other.
pub proof fn lemma_ranks_before_total(a: RowView, b: RowView)
    requires
        a.author != b.author,
    ensures
        ranks_before(a, b) || ranks_before(b, a),
{
    lemma_lex_less_total(a.author, b.author);
}

/// The rows of a listing name different authors.
pub proof fn lemma_lists_distinct(
    authors: Set<Seq<char>>,
    row: spec_fn(Seq<char>) -> RowView,
    rows: Seq<RowView>,
    i: int,
    j: int,
)
    requires
        lists(authors, row, rows),
        0 <= i < j < rows.len(),
    ensures
        rows[i].author != rows[j].author,
{
    lemma_ranks_before_irreflexive(rows[i]);
}

/// The order of the report leaves no choice: two listings of the same
/// authors are the same, row by row. So authors with equal line counts
/// stand in the same order whenever the report is made of the same
/// statistics.
pub proof fn lemma_lists_unique(
    authors: Set<Seq<char>>,
    row: spec_fn(Seq<char>) -> RowView,
    first: Seq<RowView>,
    second: Seq<RowView>,
)
    requires
        lists(authors, row, first),
        lists(authors, row, second),
    ensures
        first == second,
    decreases first.len(),
{
    if first.len() == 0 {
        if second.len() > 0 {
            assert(authors.contains(second[0].author));
        }
        assert(first =~= second);
    } else {
        let a = first[0];
        assert(authors.contains(a.author));
        let q = choose|q: int| 0 <= q < second.len() && (#[trigger] second[q]).author == a.author;
        let b = second[0];
        assert(authors.contains(b.author));
        let p = choose|p: int| 0 <= p < first.len() && (#[trigger] first[p]).author == b.author;
        assert(second[q] == a);
        assert(first[p] == b);
        if p > 0 && q > 0 {
            lemma_ranks_before_transitive(a, b, a);
            lemma_ranks_before_irreflexive(a);
        }
        assert(a == b);
        let rest = authors.remove(a.author);
        let f = first.skip(1);
        let s = second.skip(1);
        assert forall|i: int| 0 <= i < f.len() implies rest.contains((#[trigger] f[i]).author)
            && f[i] == row(f[i].author) by {
            assert(f[i] == first[i + 1]);
            lemma_lists_distinct(authors, row, first, 0, i + 1);
        }
        assert forall|i: int| 0 <= i < s.len() implies rest.contains((#[trigger] s[i]).author)
            && s[i] == row(s[i].author) by {
            assert(s[i] == second[i + 1]);
            lemma_lists_distinct(authors, row, second, 0, i + 1);
        }
        assert forall|k: Seq<char>| rest.contains(k) implies exists|i: int|
            0 <= i < f.len() && (#[trigger] f[i]).author == k by {
            let i = choose|i: int| 0 <= i < first.len() && (#[trigger] first[i]).author == k;
            assert(f[i - 1] == first[i]);
        }
        assert forall|k: Seq<char>| rest.contains(k) implies exists|i: int|
            0 <= i < s.len() && (#[trigger] s[i]).author == k by {
            let i = choose|i: int| 0 <= i < second.len() && (#[trigger] second[i]).author == k;
            assert(s[i - 1] == second[i]);
        }
        assert forall|i: int, j: int| 0 <= i < j < f.len() implies ranks_before(
            #[trigger] f[i],
            #[trigger] f[j],
        ) by {
            assert(f[i] == first[i + 1] && f[j] == first[j + 1]);
        }
        assert forall|i: int, j: int| 0 <= i < j < s.len() implies ranks_before(
            #[trigger] s[i],
            #[trigger] s[j],
        ) by {
            assert(s[i] == second[i + 1] && s[j] == second[j + 1]);
        }
        lemma_lists_unique(rest, row, f, s);
        assert(first =~= seq![a] + f);
        assert(second =~= seq![b] + s);
    }
}

/// A table has one report at a given moment.
pub proof fn lemma_report_unique(m: StatsTable, now: int, first: Seq<RowView>, second: Seq<RowView>)
    requires
        is_report(m, now, first),
        is_report(m, now, second),
    ensures
        first == second,
{
    lemma_lists_unique(m.dom(), |k: Seq<char>| row_of(m, k, now), first, second);
}

/// Rows that list each author of a table once, with the author's lines,
/// hold the table's lines between them.
pub proof fn lemma_listing_sum(m: StatsTable, rows: Seq<RowView>)
    requires
        m.dom().finite(),
        forall|i: int|
            0 <= i < rows.len() ==> m.contains_key((#[trigger] rows[i]).author) && rows[i].lines
                == m[rows[i].author].lines,
        forall|k: Seq<char>|
            m.contains_key(k) ==> exists|i: int|
                0 <= i < rows.len() && (#[trigger] rows[i]).author == k,
        forall|i: int, j: int|
            0 <= i < j < rows.len() ==> (#[trigger] rows[i]).author != (#[trigger] rows[j]).author,
    ensures
        sum_lines(rows) == total_lines(m),
    decreases rows.len(),
{
    if rows.len() == 0 {
        assert(m.dom() =~= Set::<Seq<char>>::empty());
    } else {
        let last = rows.last();
        let n = rows.len() - 1;
        assert(rows[n] == last);
        let shorter = rows.drop_last();
        let less = m.remove(last.author);
        assert forall|i: int| 0 <= i < shorter.len() implies less.contains_key(
            (#[trigger] shorter[i]).author,
        ) && shorter[i].lines == less[shorter[i].author].lines by {
            assert(shorter[i] == rows[i]);
        }
        assert forall|k: Seq<char>| less.contains_key(k) implies exists|i: int|
            0 <= i < shorter.len() && (#[trigger] shorter[i]).author == k by {
            let i = choose|i: int| 0 <= i < rows.len() && (#[trigger] rows[i]).author == k;
            assert(shorter[i] == rows[i]);
        }
        assert forall|i: int, j: int| 0 <= i < j < shorter.len() implies (
        #[trigger] shorter[i]).author != (#[trigger] shorter[j]).author by {
            assert(shorter[i] == rows[i] && shorter[j] == rows[j]);
        }
        lemma_listing_sum(less, shorter);
        lemma_summary_remove(m, last.author);
    }
}

/// The rows of a report hold the table's lines between them, so the
/// authors' shares add up to the whole.
pub proof fn lemma_report_sum(m: StatsTable, now: int, rows: Seq<RowView>)
    requires
        m.dom().finite(),
        is_report(m, now, rows),
    ensures
        sum_lines(rows) == total_lines(m),
        forall|i: int| 0 <= i < rows.len() ==> (#[trigger] rows[i]).total_lines == total_lines(m),
{
    let row = |k: Seq<char>| row_of(m, k, now);
    assert forall|i: int, j: int| 0 <= i < j < rows.len() implies (#[trigger] rows[i]).author != (
    #[trigger] rows[j]).author by {
        lemma_lists_distinct(m.dom(), row, rows, i, j);
    }
    lemma_listing_sum(m, rows);
}

/// Executable form of [`ranks_before`].
pub fn row_ranks_before(a: &ReportRow, b: &ReportRow) -> (r: bool)
    ensures
        r == ranks_before(a@, b@),
{
    a.lines > b.lines || (a.lines == b.lines && precedes(a.author.as_str(), b.author.as_str()))
}

/// The report on `stats` at the moment `now`, in seconds since the epoch:
/// one row per author, those with more lines first, authors with equally
/// many lines in the lexicographic order of their keys.
pub fn build_report(stats: &StatsMap, now: i64) -> (rows: Vec<ReportRow>)
    requires
        stats.wf(),
    ensures
        is_report(stats@, now as int, rows.deep_view()),
        rows.len() == stats@.dom().len(),
        sum_lines(rows.deep_view()) == total_lines(stats@),
{
    let total: usize = stats.total_lines();
    let mut rows: Vec<ReportRow> = Vec::new();
    let mut i: usize = 0;
    let ghost m = stats@;
    let ghost row = |k: Seq<char>| row_of(m, k, now as int);
    proof {
        stats.lemma_wf();
    }
    while i < stats.len()
        invariant
            stats.wf(),
            m == stats@,
            row == (|k: Seq<char>| row_of(m, k, now as int)),
            total == total_lines(m),
            stats.keys().no_duplicates(),
            stats.keys().to_set() == m.dom(),
            i <= stats.keys().len(),
            rows.len() == i,
            lists(stats.keys().take(i as int).to_set(), row, rows.deep_view()),
        decreases stats.keys().len() - i,
    {
        let ghost listed = stats.keys().take(i as int).to_set();
        let ghost before = rows.deep_view();
        let ghost k = stats.keys()[i as int];
        let author = stats.author_at(i);
        let s = stats.stats_at(i);
        let new_row = ReportRow {
            author: author.clone(),
            lines: s.lines(),
            total_lines: total,
            last_commit_time: s.last_commit_time(),
            last_touched: format_relative(s.last_commit_time(), now),
        };
        assert(new_row@ == row(k));
        proof {
            assert(!listed.contains(k)) by {
                if stats.keys().take(i as int).contains(k) {
                    let j = choose|j: int|
                        0 <= j < stats.keys().take(i as int).len() && stats.keys().take(
                            i as int,
                        )[j] == k;
                    assert(stats.keys()[j] == k);
                }
            }
        }
        let mut pos: usize = 0;
        while pos < rows.len() && row_ranks_before(&rows[pos], &new_row)
            invariant
                pos <= rows.len(),
                before == rows.deep_view(),
                forall|j: int| 0 <= j < pos ==> ranks_before(#[trigger] before[j], new_row@),
            decreases rows.len() - pos,
        {
            pos += 1;
        }
        proof {
            assert forall|j: int| pos <= j < before.len() implies ranks_before(
                new_row@,
                #[trigger] before[j],
            ) by {
                assert(listed.contains(before[pos as int].author));
                lemma_ranks_before_total(new_row@, before[pos as int]);
                if j > pos {
                    lemma_ranks_before_transitive(new_row@, before[pos as int], before[j]);
                }
            }
        }
        rows.insert(pos, new_row);
        proof {
            let after = rows.deep_view();
            let more = stats.keys().take(i + 1).to_set();
            assert(after =~= before.insert(pos as int, new_row@));
            assert(stats.keys().take(i + 1) =~= stats.keys().take(i as int).push(k));
            stats.keys().take(i as int).lemma_push_to_set_commute(k);
            assert(more == listed.insert(k));
            assert forall|j: int| 0 <= j < after.len() implies more.contains(
                (#[trigger] after[j]).author,
            ) && after[j] == row(after[j].author) by {
                if j < pos {
                    assert(after[j] == before[j]);
                } else if j > pos {
                    assert(after[j] == before[j - 1]);
                }
            }
            assert forall|a: Seq<char>| more.contains(a) implies exists|j: int|
                0 <= j < after.len() && (#[trigger] after[j]).author == a by {
                if a == k {
                    assert(after[pos as int].author == a);
                } else {
                    let j = choose|j: int| 0 <= j < before.len() && (#[trigger] before[j]).author == a;
                    if j < pos {
                        assert(after[j] == before[j]);
                    } else {
                        assert(after[j + 1] == before[j]);
                    }
                }
            }
            assert forall|x: int, y: int| 0 <= x < y < after.len() implies ranks_before(
                #[trigger] after[x],
                #[trigger] after[y],
            ) by {
                if x < pos {
                    assert(after[x] == before[x]);
                } else if x > pos {
                    assert(after[x] == before[x - 1]);
                }
                if y < pos {
                    assert(after[y] == before[y]);
                } else if y > pos {
                    assert(after[y] == before[y - 1]);
                }
            }
        }
        i += 1;
    }
    proof {
        assert(stats.keys().take(i as int) =~= stats.keys());
        lemma_report_sum(m, now as int, rows.deep_view());
    }
    rows
}

} // verus!
