//! Laws of accumulation: the order in which attributed lines are counted,
//! and the way they are divided between accumulators, does not matter.

use vstd::prelude::*;
use crate::parser::{
    author_seen, classify, content_lines, lemma_every_content_line_counted, parse_spec,
};
use crate::event::EventView;
use crate::text::split_lines_spec;
use crate::stats::{
    fold_spec, lemma_absorb_total, lemma_absorb_valid, lemma_combine_associative,
    lemma_combine_commutative, lemma_merge_absorb, lemma_merge_empty, lemma_stats_of_merge,
    line_stats, merge, stats_of, total_lines, valid_table, StatsTable, StatsView,
};

verus! {

/// Counting lines keeps a valid table valid.
pub proof fn lemma_fold_valid(m: StatsTable, events: Seq<EventView>)
    requires
        valid_table(m),
    ensures
        valid_table(fold_spec(m, events)),
    decreases events.len(),
{
    if events.len() > 0 {
        lemma_fold_valid(m, events.drop_last());
        lemma_absorb_valid(
            fold_spec(m, events.drop_last()),
            events.last().author,
            line_stats(events.last()),
        );
    }
}

/// Every counted line adds one to the total.
pub proof fn lemma_fold_total(m: StatsTable, events: Seq<EventView>)
    requires
        valid_table(m),
    ensures
        total_lines(fold_spec(m, events)) == total_lines(m) + events.len(),
    decreases events.len(),
{
    if events.len() > 0 {
        lemma_fold_total(m, events.drop_last());
        lemma_fold_valid(m, events.drop_last());
        lemma_absorb_total(
            fold_spec(m, events.drop_last()),
            events.last().author,
            line_stats(events.last()),
        );
    }
}

/// Blame output in which an author line stands before every content line
/// adds as many lines to the total as it has content lines.
pub proof fn lemma_lines_conserved(m: StatsTable, text: Seq<char>)
    requires
        valid_table(m),
        forall|i: int|
            0 <= i < split_lines_spec(text).len() && classify(
                #[trigger] split_lines_spec(text)[i],
            ) is Content ==> author_seen(split_lines_spec(text), i),
    ensures
        total_lines(fold_spec(m, parse_spec(text))) == total_lines(m) + content_lines(
            split_lines_spec(text),
        ),
{
    lemma_every_content_line_counted(split_lines_spec(text));
    lemma_fold_total(m, parse_spec(text));
}

/// Counting two runs of lines one after the other is counting their
/// concatenation.
pub proof fn lemma_fold_concat(m: StatsTable, first: Seq<EventView>, second: Seq<EventView>)
    ensures
        fold_spec(m, first + second) == fold_spec(fold_spec(m, first), second),
    decreases second.len(),
{
    if second.len() == 0 {
        assert(first + second == first);
    } else {
        lemma_fold_concat(m, first, second.drop_last());
        assert((first + second).drop_last() == first + second.drop_last());
        assert((first + second).last() == second.last());
    }
}

/// Merging is commutative.
pub proof fn lemma_merge_commutative(a: StatsTable, b: StatsTable)
    ensures
        merge(a, b) == merge(b, a),
{
    assert forall|k: Seq<char>| #[trigger]
        merge(a, b).contains_key(k) implies merge(a, b)[k] == merge(b, a)[k] by {
        lemma_combine_commutative(stats_of(a, k), stats_of(b, k));
    }
    assert(merge(a, b) =~= merge(b, a));
}

/// Merging is associative.
pub proof fn lemma_merge_associative(a: StatsTable, b: StatsTable, c: StatsTable)
    ensures
        merge(merge(a, b), c) == merge(a, merge(b, c)),
{
    let left = merge(merge(a, b), c);
    let right = merge(a, merge(b, c));
    assert forall|k: Seq<char>| #[trigger] left.contains_key(k) implies left[k] == right[k] by {
        lemma_stats_of_merge(a, b, k);
        lemma_stats_of_merge(b, c, k);
        lemma_combine_associative(stats_of(a, k), stats_of(b, k), stats_of(c, k));
    }
    assert(left =~= right);
}

/// Counting lines into a table gives the same as counting them into an
/// empty one and merging the two.
pub proof fn lemma_fold_is_merge(m: StatsTable, events: Seq<EventView>)
    requires
        valid_table(m),
    ensures
        fold_spec(m, events) == merge(m, fold_spec(Map::empty(), events)),
    decreases events.len(),
{
    if events.len() == 0 {
        lemma_merge_empty(m);
    } else {
        let e = events.last();
        lemma_fold_is_merge(m, events.drop_last());
        lemma_merge_absorb(m, fold_spec(Map::empty(), events.drop_last()), e.author, line_stats(e));
    }
}

/// Two runs of lines counted into one accumulator give what the two give
/// when each is counted into an accumulator of its own and the accumulators
/// are merged.
pub proof fn lemma_fold_split(first: Seq<EventView>, second: Seq<EventView>)
    ensures
        fold_spec(Map::empty(), first + second) == merge(
            fold_spec(Map::empty(), first),
            fold_spec(Map::empty(), second),
        ),
{
    let e = Map::<Seq<char>, StatsView>::empty();
    lemma_fold_concat(e, first, second);
    lemma_fold_valid(e, first);
    lemma_fold_is_merge(fold_spec(e, first), second);
}

/// The order in which two runs of lines are counted does not matter.
pub proof fn lemma_fold_order(first: Seq<EventView>, second: Seq<EventView>)
    ensures
        fold_spec(Map::empty(), first + second) == fold_spec(Map::empty(), second + first),
{
    let e = Map::<Seq<char>, StatsView>::empty();
    lemma_fold_split(first, second);
    lemma_fold_split(second, first);
    lemma_merge_commutative(fold_spec(e, first), fold_spec(e, second));
}

} // verus!
