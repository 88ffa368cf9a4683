//! The accumulator: statistics by author, built up line by line.

use vstd::prelude::*;
use vstd::seq_lib::seq_to_set_is_finite;
use crate::author_stats::AuthorStats;
use crate::event::{AttributionEvent, EventView};
use crate::stats::{
    absorb, fold_spec, lemma_absorb_total, lemma_combine_no_stats, lemma_merge_absorb,
    lemma_merge_empty, lemma_summary_remove, line_stats, merge, record, total_lines, valid_stats,
    valid_table, StatsTable, StatsView,
};

verus! {

/// One author and what is known of them.
struct AuthorEntry {
    author: String,
    stats: AuthorStats,
}

/// Statistics by author. Each author has one entry. The entries stand in an
/// order that callers can walk by position; which order it is carries no
/// meaning.
pub struct StatsMap {
    entries: Vec<AuthorEntry>,
    total: usize,
}

spec fn keys_of(es: Seq<AuthorEntry>) -> Seq<Seq<char>> {
    Seq::new(es.len(), |i: int| es[i].author@)
}

spec fn position(es: Seq<AuthorEntry>, k: Seq<char>) -> int {
    choose|i: int| 0 <= i < es.len() && es[i].author@ == k
}

spec fn table_of(es: Seq<AuthorEntry>) -> StatsTable {
    Map::new(|k: Seq<char>| keys_of(es).contains(k), |k: Seq<char>| es[position(es, k)].stats@)
}

spec fn entries_wf(es: Seq<AuthorEntry>) -> bool {
    &&& keys_of(es).no_duplicates()
    &&& forall|i: int| 0 <= i < es.len() ==> (#[trigger] es[i]).stats.wf()
}

proof fn lemma_table_lookup(es: Seq<AuthorEntry>, i: int)
    requires
        keys_of(es).no_duplicates(),
        0 <= i < es.len(),
    ensures
        table_of(es).contains_key(es[i].author@),
        table_of(es)[es[i].author@] == es[i].stats@,
{
    let k = es[i].author@;
    assert(keys_of(es)[i] == k);
    let j = position(es, k);
    assert(keys_of(es)[j] == k);
}

proof fn lemma_table_absent(es: Seq<AuthorEntry>, k: Seq<char>)
    requires
        forall|i: int| 0 <= i < es.len() ==> es[i].author@ != k,
    ensures
        !table_of(es).contains_key(k),
{
    if keys_of(es).contains(k) {
        let i = choose|i: int| 0 <= i < keys_of(es).len() && keys_of(es)[i] == k;
        assert(es[i].author@ == k);
    }
}

proof fn lemma_table_valid(es: Seq<AuthorEntry>)
    requires
        entries_wf(es),
    ensures
        valid_table(table_of(es)),
        table_of(es).dom() == keys_of(es).to_set(),
{
    let m = table_of(es);
    assert(m.dom() =~= keys_of(es).to_set());
    seq_to_set_is_finite(keys_of(es));
    assert forall|k: Seq<char>| m.contains_key(k) implies valid_stats(#[trigger] m[k]) by {
        let i = choose|i: int| 0 <= i < keys_of(es).len() && keys_of(es)[i] == k;
        assert(es[i].author@ == k);
        lemma_table_lookup(es, i);
        es[i].stats.lemma_wf();
    }
}

proof fn lemma_table_push(es: Seq<AuthorEntry>, e: AuthorEntry)
    requires
        keys_of(es).no_duplicates(),
        !table_of(es).contains_key(e.author@),
    ensures
        keys_of(es.push(e)).no_duplicates(),
        table_of(es.push(e)) == table_of(es).insert(e.author@, e.stats@),
{
    let longer = es.push(e);
    assert(keys_of(longer) =~= keys_of(es).push(e.author@));
    assert forall|i: int, j: int|
        0 <= i < longer.len() && 0 <= j < longer.len() && i != j implies keys_of(longer)[i]
        != keys_of(longer)[j] by {
        if i < es.len() {
            assert(keys_of(es)[i] == es[i].author@);
        }
        if j < es.len() {
            assert(keys_of(es)[j] == es[j].author@);
        }
    }
    let left = table_of(longer);
    let right = table_of(es).insert(e.author@, e.stats@);
    assert forall|k: Seq<char>| left.contains_key(k) == right.contains_key(k) by {
        if keys_of(longer).contains(k) {
            let i = choose|i: int| 0 <= i < keys_of(longer).len() && keys_of(longer)[i] == k;
            if i < es.len() {
                assert(keys_of(es)[i] == k);
            }
        }
        if keys_of(es).contains(k) {
            let i = choose|i: int| 0 <= i < keys_of(es).len() && keys_of(es)[i] == k;
            assert(keys_of(longer)[i] == k);
        }
        if k == e.author@ {
            assert(keys_of(longer)[es.len() as int] == k);
        }
    }
    assert forall|k: Seq<char>| left.contains_key(k) implies left[k] == right[k] by {
        let i = choose|i: int| 0 <= i < keys_of(longer).len() && keys_of(longer)[i] == k;
        lemma_table_lookup(longer, i);
        if i < es.len() {
            assert(longer[i] == es[i]);
            lemma_table_lookup(es, i);
        }
    }
    assert(left =~= right);
}

proof fn lemma_table_update(es: Seq<AuthorEntry>, i: int, e: AuthorEntry)
    requires
        keys_of(es).no_duplicates(),
        0 <= i < es.len(),
        e.author@ == es[i].author@,
    ensures
        keys_of(es.update(i, e)) == keys_of(es),
        table_of(es.update(i, e)) == table_of(es).insert(e.author@, e.stats@),
{
    let changed = es.update(i, e);
    assert(keys_of(changed) =~= keys_of(es));
    let left = table_of(changed);
    let right = table_of(es).insert(e.author@, e.stats@);
    lemma_table_lookup(es, i);
    assert forall|k: Seq<char>| left.contains_key(k) implies left[k] == right[k] by {
        let j = choose|j: int| 0 <= j < keys_of(changed).len() && keys_of(changed)[j] == k;
        lemma_table_lookup(changed, j);
        assert(changed[j].author@ == k);
        if j != i {
            assert(changed[j] == es[j]);
            assert(keys_of(es)[j] != keys_of(es)[i]);
            lemma_table_lookup(es, j);
        }
    }
    assert(left =~= right);
}

proof fn lemma_table_drop_last(es: Seq<AuthorEntry>)
    requires
        keys_of(es).no_duplicates(),
        es.len() > 0,
    ensures
        keys_of(es.drop_last()).no_duplicates(),
        table_of(es.drop_last()) == table_of(es).remove(es.last().author@),
{
    let shorter = es.drop_last();
    let last = es.last().author@;
    assert(keys_of(shorter) =~= keys_of(es).drop_last());
    let left = table_of(shorter);
    let right = table_of(es).remove(last);
    assert forall|k: Seq<char>| left.contains_key(k) == right.contains_key(k) by {
        if keys_of(shorter).contains(k) {
            let i = choose|i: int| 0 <= i < keys_of(shorter).len() && keys_of(shorter)[i] == k;
            assert(keys_of(es)[i] == k);
            assert(keys_of(es)[es.len() - 1] == last);
        }
        if keys_of(es).contains(k) && k != last {
            let i = choose|i: int| 0 <= i < keys_of(es).len() && keys_of(es)[i] == k;
            assert(keys_of(shorter)[i] == k);
        }
    }
    assert forall|k: Seq<char>| left.contains_key(k) implies left[k] == right[k] by {
        let i = choose|i: int| 0 <= i < keys_of(shorter).len() && keys_of(shorter)[i] == k;
        lemma_table_lookup(shorter, i);
        assert(shorter[i] == es[i]);
        lemma_table_lookup(es, i);
    }
    assert(left =~= right);
}

impl View for StatsMap {
    type V = StatsTable;

    closed spec fn view(&self) -> StatsTable {
        table_of(self.entries@)
    }
}

impl StatsMap {
    /// No author has two entries, every entry is well formed, and the
    /// running total is the sum of the entries' lines.
    pub closed spec fn wf(&self) -> bool {
        &&& entries_wf(self.entries@)
        &&& self.total == total_lines(self@)
    }

    /// The authors in the order of their entries.
    pub closed spec fn keys(&self) -> Seq<Seq<char>> {
        keys_of(self.entries@)
    }

    /// What a well-formed accumulator means for its model.
    pub proof fn lemma_wf(&self)
        requires
            self.wf(),
        ensures
            valid_table(self@),
            self.keys().no_duplicates(),
            self.keys().to_set() == self@.dom(),
            self.keys().len() == self@.dom().len(),
            total_lines(self@) <= usize::MAX,
    {
        lemma_table_valid(self.entries@);
        self.keys().unique_seq_to_set();
    }

    /// An accumulator that has seen nothing.
    pub fn new() -> (r: Self)
        ensures
            r.wf(),
            r@ == Map::<Seq<char>, StatsView>::empty(),
    {
        let r = StatsMap { entries: Vec::new(), total: 0 };
        assert(r@ =~= Map::<Seq<char>, StatsView>::empty());
        r
    }

    /// The number of authors.
    pub fn len(&self) -> (r: usize)
        ensures
            r == self.keys().len(),
    {
        self.entries.len()
    }

    /// Whether no line has been counted yet.
    pub fn is_empty(&self) -> (r: bool)
        ensures
            r == (self@ == Map::<Seq<char>, StatsView>::empty()),
    {
        let r = self.entries.len() == 0;
        proof {
            if r {
                assert(self@ =~= Map::<Seq<char>, StatsView>::empty());
            } else {
                assert(keys_of(self.entries@)[0] == self.entries@[0].author@);
                assert(self@.contains_key(self.entries@[0].author@));
            }
        }
        r
    }

    /// The number of lines counted, over all authors.
    pub fn total_lines(&self) -> (r: usize)
        requires
            self.wf(),
        ensures
            r == total_lines(self@),
    {
        self.total
    }

    /// The author of the entry at position `i`.
    pub fn author_at(&self, i: usize) -> (r: &String)
        requires
            i < self.keys().len(),
        ensures
            r@ == self.keys()[i as int],
    {
        &self.entries[i].author
    }

    /// The statistics of the entry at position `i`.
    pub fn stats_at(&self, i: usize) -> (r: &AuthorStats)
        requires
            self.wf(),
            i < self.keys().len(),
        ensures
            r.wf(),
            self@.contains_key(self.keys()[i as int]),
            r@ == self@[self.keys()[i as int]],
    {
        proof {
            lemma_table_lookup(self.entries@, i as int);
        }
        &self.entries[i].stats
    }

    fn find(&self, author: &String) -> (r: Option<usize>)
        requires
            self.wf(),
        ensures
            match r {
                Some(i) => i < self.entries.len() && self.entries[i as int].author@ == author@
                    && self@.contains_key(author@) && self@[author@] == self.entries[i as int].stats@,
                None => !self@.contains_key(author@),
            },
    {
        let mut i: usize = 0;
        while i < self.entries.len()
            invariant
                self.wf(),
                i <= self.entries.len(),
                forall|j: int| 0 <= j < i ==> self.entries[j].author@ != author@,
            decreases self.entries.len() - i,
        {
            if self.entries[i].author == *author {
                proof {
                    lemma_table_lookup(self.entries@, i as int);
                }
                return Some(i);
            }
            i += 1;
        }
        proof {
            lemma_table_absent(self.entries@, author@);
        }
        None
    }

    /// The statistics of `author`, where any line of theirs has been counted.
    pub fn get(&self, author: &str) -> (r: Option<&AuthorStats>)
        requires
            self.wf(),
        ensures
            match r {
                Some(s) => self@.contains_key(author@) && s@ == self@[author@] && s.wf(),
                None => !self@.contains_key(author@),
            },
    {
        let key: String = author.to_owned();
        match self.find(&key) {
            Some(i) => Some(&self.entries[i].stats),
            None => None,
        }
    }

    /// Counts one attributed line.
    pub fn record(&mut self, event: &AttributionEvent)
        requires
            old(self).wf(),
            total_lines(old(self)@) < usize::MAX,
        ensures
            final(self).wf(),
            final(self)@ == record(old(self)@, event@),
            total_lines(final(self)@) == total_lines(old(self)@) + 1,
    {
        let ghost before = self@;
        let ghost k = event.author@;
        let ghost line = line_stats(event@);
        proof {
            lemma_table_valid(self.entries@);
            lemma_absorb_total(before, k, line);
        }
        match self.find(&event.author) {
            Some(i) => {
                proof {
                    lemma_summary_remove(before, k);
                }
                let ghost es = self.entries@;
                self.entries[i].stats.record_line(event.author_time, &event.commit_id);
                proof {
                    assert(self.entries@ =~= es.update(i as int, self.entries@[i as int]));
                    lemma_table_update(es, i as int, self.entries@[i as int]);
                }
            },
            None => {
                let mut stats = AuthorStats::new();
                stats.record_line(event.author_time, &event.commit_id);
                let entry = AuthorEntry { author: event.author.clone(), stats };
                proof {
                    lemma_table_push(self.entries@, entry);
                }
                self.entries.push(entry);
            },
        }
        self.total = self.total + 1;
    }

    /// Adds the statistics `stats` to those of `author`.
    pub fn absorb(&mut self, author: String, stats: AuthorStats)
        requires
            old(self).wf(),
            stats.wf(),
            total_lines(old(self)@) + stats@.lines <= usize::MAX,
        ensures
            final(self).wf(),
            final(self)@ == absorb(old(self)@, author@, stats@),
            total_lines(final(self)@) == total_lines(old(self)@) + stats@.lines,
    {
        let ghost before = self@;
        let ghost k = author@;
        proof {
            lemma_table_valid(self.entries@);
            lemma_absorb_total(before, k, stats@);
            stats.lemma_wf();
        }
        let added: usize = stats.lines();
        match self.find(&author) {
            Some(i) => {
                proof {
                    lemma_summary_remove(before, k);
                }
                let ghost es = self.entries@;
                self.entries[i].stats.absorb(&stats);
                proof {
                    assert(self.entries@ =~= es.update(i as int, self.entries@[i as int]));
                    lemma_table_update(es, i as int, self.entries@[i as int]);
                }
            },
            None => {
                let entry = AuthorEntry { author, stats };
                proof {
                    lemma_table_push(self.entries@, entry);
                    lemma_combine_no_stats(stats@);
                }
                self.entries.push(entry);
            },
        }
        self.total = self.total + added;
    }

    /// Takes one author out of the accumulator, with their statistics.
    pub fn pop(&mut self) -> (r: Option<(String, AuthorStats)>)
        requires
            old(self).wf(),
        ensures
            final(self).wf(),
            match r {
                Some((author, stats)) => {
                    &&& stats.wf()
                    &&& old(self)@.contains_key(author@)
                    &&& stats@ == old(self)@[author@]
                    &&& final(self)@ == old(self)@.remove(author@)
                    &&& total_lines(old(self)@) == total_lines(final(self)@) + stats@.lines
                },
                None => old(self)@ == Map::<Seq<char>, StatsView>::empty() && final(self)@ == old(
                    self,
                )@,
            },
    {
        let ghost es = self.entries@;
        match self.entries.pop() {
            Some(entry) => {
                proof {
                    lemma_table_valid(es);
                    lemma_table_lookup(es, es.len() - 1);
                    lemma_table_drop_last(es);
                    lemma_summary_remove(table_of(es), entry.author@);
                }
                self.total = self.total - entry.stats.lines();
                Some((entry.author, entry.stats))
            },
            None => {
                assert(self@ =~= Map::<Seq<char>, StatsView>::empty());
                None
            },
        }
    }

    /// Adds everything that `other` has counted.
    pub fn merge(&mut self, other: StatsMap)
        requires
            old(self).wf(),
            other.wf(),
            total_lines(old(self)@) + total_lines(other@) <= usize::MAX,
        ensures
            final(self).wf(),
            final(self)@ == merge(old(self)@, other@),
            total_lines(final(self)@) == total_lines(old(self)@) + total_lines(other@),
    {
        let mut rest = other;
        let ghost mut done: StatsTable = Map::empty();
        proof {
            old(self).lemma_wf();
            lemma_merge_empty(old(self)@);
            assert(done.union_prefer_right(rest@) =~= other@);
        }
        loop
            invariant
                self.wf(),
                rest.wf(),
                done.dom().disjoint(rest@.dom()),
                done.union_prefer_right(rest@) == other@,
                self@ == merge(old(self)@, done),
                total_lines(self@) + total_lines(rest@) == total_lines(old(self)@) + total_lines(
                    other@,
                ),
                total_lines(old(self)@) + total_lines(other@) <= usize::MAX,
            ensures
                self.wf(),
                self@ == merge(old(self)@, other@),
                total_lines(self@) == total_lines(old(self)@) + total_lines(other@),
            decreases rest@.dom().len(),
        {
            proof {
                rest.lemma_wf();
            }
            match rest.pop() {
                Some((author, stats)) => {
                    proof {
                        stats.lemma_wf();
                        lemma_merge_absorb(old(self)@, done, author@, stats@);
                        lemma_combine_no_stats(stats@);
                        assert(absorb(done, author@, stats@) == done.insert(author@, stats@));
                        done = done.insert(author@, stats@);
                        assert(done.union_prefer_right(rest@) =~= other@);
                    }
                    self.absorb(author, stats);
                },
                None => {
                    proof {
                        assert(done =~= other@);
                    }
                    break ;
                },
            }
        }
    }
}

/// Counts the attributed lines `events`, first to last.
pub fn fold_events(events: &Vec<AttributionEvent>, stats: &mut StatsMap)
    requires
        old(stats).wf(),
        total_lines(old(stats)@) + events.len() <= usize::MAX,
    ensures
        final(stats).wf(),
        final(stats)@ == fold_spec(old(stats)@, events.deep_view()),
        total_lines(final(stats)@) == total_lines(old(stats)@) + events.len(),
{
    let ghost all = events.deep_view();
    let mut i: usize = 0;
    assert(all.take(0) =~= Seq::<EventView>::empty());
    while i < events.len()
        invariant
            i <= events.len(),
            all == events.deep_view(),
            stats.wf(),
            stats@ == fold_spec(old(stats)@, all.take(i as int)),
            total_lines(stats@) == total_lines(old(stats)@) + i,
            total_lines(old(stats)@) + events.len() <= usize::MAX,
        decreases events.len() - i,
    {
        stats.record(&events[i]);
        proof {
            assert(all.take(i + 1).drop_last() =~= all.take(i as int));
            assert(all.take(i + 1).last() == events[i as int]@);
        }
        i += 1;
    }
    assert(all.take(i as int) =~= all);
}

} // verus!
