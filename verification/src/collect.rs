//! From the blame output of one file to the accumulator.

use vstd::prelude::*;
use crate::parser::{parse_blame, parse_spec};
use crate::stats::{fold_spec, total_lines};
use crate::stats_map::{fold_events, StatsMap};

verus! {

/// Reads the blame output `text` of one file and counts its attributed
/// lines into `stats`. Returns how many lines were counted, or `None`, with
/// `stats` as it was, where the total would no longer fit the counter.
pub fn collect_blame_stats(text: &str, stats: &mut StatsMap) -> (counted: Option<usize>)
    requires
        old(stats).wf(),
    ensures
        final(stats).wf(),
        match counted {
            Some(n) => {
                &&& n == parse_spec(text@).len()
                &&& final(stats)@ == fold_spec(old(stats)@, parse_spec(text@))
                &&& total_lines(final(stats)@) == total_lines(old(stats)@) + n
            },
            None => {
                &&& total_lines(old(stats)@) + parse_spec(text@).len() > usize::MAX
                &&& final(stats)@ == old(stats)@
            },
        },
{
    let events = parse_blame(text);
    if events.len() > usize::MAX - stats.total_lines() {
        return None;
    }
    fold_events(&events, stats);
    Some(events.len())
}

} // verus!
