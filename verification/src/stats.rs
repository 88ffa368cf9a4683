//! Per-author statistics: their mathematical model and the laws of merging.

use vstd::prelude::*;
use crate::event::EventView;

verus! {

/// What is known of one author: how many lines are attributed to them, the
/// latest authorship time seen, and the revisions that the lines came from.
#[verifier::ext_equal]
pub struct StatsView {
    pub lines: nat,
    pub last_commit_time: int,
    pub commits: Set<Seq<char>>,
}

/// Statistics by author key.
pub type StatsTable = Map<Seq<char>, StatsView>;

/// The statistics of an author of whom nothing has been seen.
pub open spec fn no_stats() -> StatsView {
    StatsView { lines: 0, last_commit_time: 0, commits: Set::empty() }
}

/// Two bodies of statistics taken together: the lines add up, the later
/// time wins, the revisions are united.
pub open spec fn combine(a: StatsView, b: StatsView) -> StatsView {
    StatsView {
        lines: a.lines + b.lines,
        last_commit_time: if a.last_commit_time >= b.last_commit_time {
            a.last_commit_time
        } else {
            b.last_commit_time
        },
        commits: a.commits.union(b.commits),
    }
}

/// Statistics start from time zero and only move forward, so a recorded
/// time is never negative.
pub open spec fn valid_stats(s: StatsView) -> bool {
    s.last_commit_time >= 0
}

/// A table of finitely many authors, each with valid statistics.
pub open spec fn valid_table(m: StatsTable) -> bool {
    &&& m.dom().finite()
    &&& forall|k: Seq<char>| m.contains_key(k) ==> valid_stats(#[trigger] m[k])
}

/// The statistics of `k` in `m`; those of an unseen author where `m` has no
/// entry for `k`.
pub open spec fn stats_of(m: StatsTable, k: Seq<char>) -> StatsView {
    if m.contains_key(k) {
        m[k]
    } else {
        no_stats()
    }
}

/// `m` after the statistics `s` have been added to those of `k`.
pub open spec fn absorb(m: StatsTable, k: Seq<char>, s: StatsView) -> StatsTable {
    m.insert(k, combine(stats_of(m, k), s))
}

/// Two tables taken together, author by author.
pub open spec fn merge(a: StatsTable, b: StatsTable) -> StatsTable {
    Map::new(
        |k: Seq<char>| a.contains_key(k) || b.contains_key(k),
        |k: Seq<char>| combine(stats_of(a, k), stats_of(b, k)),
    )
}

/// All entries of a finite table combined into one.
pub open spec fn summary(m: StatsTable) -> StatsView
    decreases m.dom().len(),
    when m.dom().finite()
{
    if m.dom().len() == 0 {
        no_stats()
    } else {
        let k = m.dom().choose();
        combine(m[k], summary(m.remove(k)))
    }
}

/// The number of attributed lines over all authors.
pub open spec fn total_lines(m: StatsTable) -> nat {
    summary(m).lines
}

/// What one attributed line contributes to its author's statistics.
pub open spec fn line_stats(e: EventView) -> StatsView {
    StatsView {
        lines: 1,
        last_commit_time: e.author_time,
        commits: match e.commit_id {
            Some(c) => set![c],
            None => Set::empty(),
        },
    }
}

/// `m` after one attributed line has been counted.
pub open spec fn record(m: StatsTable, e: EventView) -> StatsTable {
    absorb(m, e.author, line_stats(e))
}

/// `m` after the events have been counted, first to last.
pub open spec fn fold_spec(m: StatsTable, events: Seq<EventView>) -> StatsTable
    decreases events.len(),
{
    if events.len() == 0 {
        m
    } else {
        record(fold_spec(m, events.drop_last()), events.last())
    }
}

/// Combining does not depend on the order of the two.
pub proof fn lemma_combine_commutative(a: StatsView, b: StatsView)
    ensures
        combine(a, b) == combine(b, a),
{
    assert(combine(a, b) =~= combine(b, a));
}

/// Combining does not depend on how three are grouped.
pub proof fn lemma_combine_associative(a: StatsView, b: StatsView, c: StatsView)
    ensures
        combine(combine(a, b), c) == combine(a, combine(b, c)),
{
    assert(combine(combine(a, b), c) =~= combine(a, combine(b, c)));
}

/// The statistics of an unseen author add nothing to valid statistics.
pub proof fn lemma_combine_no_stats(a: StatsView)
    requires
        valid_stats(a),
    ensures
        combine(a, no_stats()) == a,
        combine(no_stats(), a) == a,
{
    assert(combine(a, no_stats()) =~= a);
    assert(combine(no_stats(), a) =~= a);
}

/// Any entry of a finite table can be taken out of its summary first.
pub proof fn lemma_summary_remove(m: StatsTable, k: Seq<char>)
    requires
        m.dom().finite(),
        m.contains_key(k),
    ensures
        summary(m) == combine(m[k], summary(m.remove(k))),
    decreases m.dom().len(),
{
    let c = m.dom().choose();
    if c != k {
        let rest = m.remove(c).remove(k);
        lemma_summary_remove(m.remove(c), k);
        lemma_summary_remove(m.remove(k), c);
        assert(m.remove(k).remove(c) =~= rest);
        lemma_combine_associative(m[c], m[k], summary(rest));
        lemma_combine_commutative(m[c], m[k]);
        lemma_combine_associative(m[k], m[c], summary(rest));
    }
}

/// The summary of a table that has gained or replaced the entry of `k`.
pub proof fn lemma_summary_insert(m: StatsTable, k: Seq<char>, v: StatsView)
    requires
        m.dom().finite(),
    ensures
        summary(m.insert(k, v)) == combine(v, summary(m.remove(k))),
{
    lemma_summary_remove(m.insert(k, v), k);
    assert(m.insert(k, v).remove(k) =~= m.remove(k));
}

/// Adding statistics to a table adds their lines to its total.
pub proof fn lemma_absorb_total(m: StatsTable, k: Seq<char>, s: StatsView)
    requires
        m.dom().finite(),
    ensures
        total_lines(absorb(m, k, s)) == total_lines(m) + s.lines,
{
    lemma_summary_insert(m, k, combine(stats_of(m, k), s));
    if m.contains_key(k) {
        lemma_summary_remove(m, k);
    } else {
        assert(m.remove(k) =~= m);
    }
}

/// Adding statistics to a valid table leaves it valid, whatever their time.
pub proof fn lemma_absorb_valid(m: StatsTable, k: Seq<char>, s: StatsView)
    requires
        valid_table(m),
    ensures
        valid_table(absorb(m, k, s)),
{
    let r = absorb(m, k, s);
    assert(r.dom() =~= m.dom().insert(k));
    assert forall|a: Seq<char>| r.contains_key(a) implies valid_stats(#[trigger] r[a]) by {
        if a != k {
            assert(m.contains_key(a));
        } else if m.contains_key(k) {
            assert(valid_stats(m[k]));
        }
    }
}

/// What a merged table holds for a key, whether or not it has the key.
pub proof fn lemma_stats_of_merge(a: StatsTable, b: StatsTable, k: Seq<char>)
    ensures
        stats_of(merge(a, b), k) == combine(stats_of(a, k), stats_of(b, k)),
{
    assert(combine(no_stats(), no_stats()) =~= no_stats());
}

/// Merging with the empty table changes nothing.
pub proof fn lemma_merge_empty(a: StatsTable)
    requires
        valid_table(a),
    ensures
        merge(a, Map::empty()) == a,
        merge(Map::empty(), a) == a,
{
    let e = Map::<Seq<char>, StatsView>::empty();
    assert forall|k: Seq<char>| a.contains_key(k) implies #[trigger] merge(a, e)[k] == a[k]
        && merge(e, a)[k] == a[k] by {
        lemma_combine_no_stats(a[k]);
    }
    assert(merge(a, e) =~= a);
    assert(merge(e, a) =~= a);
}

/// Adding statistics to the second of two merged tables is adding them to
/// the merged table.
pub proof fn lemma_merge_absorb(a: StatsTable, b: StatsTable, k: Seq<char>, s: StatsView)
    ensures
        merge(a, absorb(b, k, s)) == absorb(merge(a, b), k, s),
{
    let left = merge(a, absorb(b, k, s));
    let right = absorb(merge(a, b), k, s);
    lemma_stats_of_merge(a, b, k);
    lemma_combine_associative(stats_of(a, k), stats_of(b, k), s);
    assert(left =~= right);
}

/// A merged table holds the lines of both.
pub proof fn lemma_merge_total(a: StatsTable, b: StatsTable)
    requires
        valid_table(a),
        valid_table(b),
    ensures
        merge(a, b).dom().finite(),
        total_lines(merge(a, b)) == total_lines(a) + total_lines(b),
    decreases b.dom().len(),
{
    if b.dom().len() == 0 {
        assert(b =~= Map::<Seq<char>, StatsView>::empty());
        lemma_merge_empty(a);
    } else {
        let k = b.dom().choose();
        let less = b.remove(k);
        lemma_merge_total(a, less);
        lemma_combine_no_stats(b[k]);
        assert(absorb(less, k, b[k]) =~= b);
        lemma_merge_absorb(a, less, k, b[k]);
        lemma_absorb_total(merge(a, less), k, b[k]);
        lemma_summary_remove(b, k);
        assert(merge(a, b).dom() =~= merge(a, less).dom().insert(k));
    }
}

} // verus!
