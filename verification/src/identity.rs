//! Resolution of authors to the user names of a hosting platform.
//!
//! An author is looked up once, by one of their revisions. Authors that
//! resolve to the same user name become one entry; an author for whom no
//! user name is found keeps their own.

use vstd::hash_map::StringHashMap;
use vstd::prelude::*;
use vstd::set_lib::lemma_set_subset_finite;
use crate::event::opt_text;
use crate::stats::{
    absorb, combine, lemma_absorb_total, lemma_combine_commutative, lemma_combine_no_stats,
    lemma_summary_insert, lemma_summary_remove, summary, total_lines, valid_table, StatsTable,
    StatsView,
};
use crate::stats_map::StatsMap;

verus! {

/// User names by author, as far as they were looked up: `None` where the
/// lookup found none.
pub type IdentityTable = Map<Seq<char>, Option<Seq<char>>>;

/// The key under which `author` is listed after resolution: the user name
/// that was found for them, else the author as recorded.
pub open spec fn resolved_key(ids: IdentityTable, author: Seq<char>) -> Seq<char> {
    if ids.contains_key(author) && ids[author] is Some {
        ids[author]->0
    } else {
        author
    }
}

/// The entries of `m` whose authors resolve to `key`.
pub open spec fn group(m: StatsTable, ids: IdentityTable, key: Seq<char>) -> StatsTable {
    m.restrict(Set::new(|author: Seq<char>| resolved_key(ids, author) == key))
}

/// `m` listed by resolved key: each key holds the combined statistics of
/// the authors that resolve to it.
pub open spec fn rekeyed(m: StatsTable, ids: IdentityTable) -> StatsTable {
    Map::new(
        |key: Seq<char>|
            exists|author: Seq<char>| m.contains_key(author) && resolved_key(ids, author) == key,
        |key: Seq<char>| summary(group(m, ids, key)),
    )
}

/// A group of a finite table is finite.
pub proof fn lemma_group_finite(m: StatsTable, ids: IdentityTable, key: Seq<char>)
    requires
        m.dom().finite(),
    ensures
        group(m, ids, key).dom().finite(),
{
    lemma_set_subset_finite(m.dom(), group(m, ids, key).dom());
}

/// Listing one more author adds their statistics to those of their key.
pub proof fn lemma_rekeyed_insert(
    m: StatsTable,
    ids: IdentityTable,
    author: Seq<char>,
    s: StatsView,
)
    requires
        m.dom().finite(),
        !m.contains_key(author),
    ensures
        rekeyed(m.insert(author, s), ids) == absorb(
            rekeyed(m, ids),
            resolved_key(ids, author),
            s,
        ),
{
    let k0 = resolved_key(ids, author);
    let more = m.insert(author, s);
    let left = rekeyed(more, ids);
    let right = absorb(rekeyed(m, ids), k0, s);
    assert forall|k: Seq<char>| left.contains_key(k) == right.contains_key(k) by {
        if left.contains_key(k) {
            let a = choose|a: Seq<char>| more.contains_key(a) && resolved_key(ids, a) == k;
            if a != author {
                assert(m.contains_key(a));
            }
        }
        if rekeyed(m, ids).contains_key(k) {
            let a = choose|a: Seq<char>| m.contains_key(a) && resolved_key(ids, a) == k;
            assert(more.contains_key(a));
        }
        if k == k0 {
            assert(more.contains_key(author));
        }
    }
    assert forall|k: Seq<char>| left.contains_key(k) implies left[k] == right[k] by {
        let g = group(m, ids, k);
        if k == k0 {
            assert(group(more, ids, k) =~= g.insert(author, s));
            assert(g.remove(author) =~= g);
            lemma_group_finite(m, ids, k);
            lemma_summary_insert(g, author, s);
            lemma_combine_commutative(s, summary(g));
            if !rekeyed(m, ids).contains_key(k) {
                assert forall|a: Seq<char>| !g.contains_key(a) by {
                    if g.contains_key(a) {
                        assert(m.contains_key(a) && resolved_key(ids, a) == k);
                    }
                }
                assert(g =~= Map::<Seq<char>, StatsView>::empty());
            }
        } else {
            assert(group(more, ids, k) =~= g);
        }
    }
    assert(left =~= right);
}

/// Nothing listed gives nothing.
pub proof fn lemma_rekeyed_empty(ids: IdentityTable)
    ensures
        rekeyed(Map::empty(), ids) == Map::<Seq<char>, StatsView>::empty(),
{
    assert(rekeyed(Map::empty(), ids) =~= Map::<Seq<char>, StatsView>::empty());
}

/// Listing by resolved key keeps every line: the table that results is
/// finite and holds as many lines as the table listed.
pub proof fn lemma_rekeyed_total(m: StatsTable, ids: IdentityTable)
    requires
        m.dom().finite(),
    ensures
        rekeyed(m, ids).dom().finite(),
        total_lines(rekeyed(m, ids)) == total_lines(m),
    decreases m.dom().len(),
{
    if m.dom().len() == 0 {
        assert(m =~= Map::<Seq<char>, StatsView>::empty());
        lemma_rekeyed_empty(ids);
    } else {
        let a = m.dom().choose();
        let less = m.remove(a);
        lemma_rekeyed_total(less, ids);
        assert(less.insert(a, m[a]) =~= m);
        lemma_rekeyed_insert(less, ids, a, m[a]);
        lemma_absorb_total(rekeyed(less, ids), resolved_key(ids, a), m[a]);
        lemma_summary_remove(m, a);
        assert(rekeyed(m, ids).dom() =~= rekeyed(less, ids).dom().insert(resolved_key(ids, a)));
    }
}

/// Two authors that alone resolve to one key are listed under it with
/// their statistics combined.
pub proof fn lemma_aliases_merge(
    m: StatsTable,
    ids: IdentityTable,
    first: Seq<char>,
    second: Seq<char>,
    key: Seq<char>,
)
    requires
        valid_table(m),
        first != second,
        m.contains_key(first),
        m.contains_key(second),
        forall|author: Seq<char>|
            m.contains_key(author) ==> (resolved_key(ids, author) == key <==> author == first
                || author == second),
    ensures
        rekeyed(m, ids).contains_key(key),
        rekeyed(m, ids)[key] == combine(m[first], m[second]),
{
    let g = group(m, ids, key);
    lemma_group_finite(m, ids, key);
    assert(g.dom() =~= set![first, second]);
    lemma_summary_remove(g, first);
    lemma_summary_remove(g.remove(first), second);
    assert(g.remove(first).remove(second) =~= Map::<Seq<char>, StatsView>::empty());
    lemma_combine_no_stats(m[second]);
}

/// The user names found so far, by author.
pub struct IdentityCache {
    names: StringHashMap<Option<String>>,
}

impl View for IdentityCache {
    type V = IdentityTable;

    closed spec fn view(&self) -> IdentityTable {
        Map::new(
            |author: Seq<char>| self.names@.contains_key(author),
            |author: Seq<char>| opt_text(self.names@[author]),
        )
    }
}

impl IdentityCache {
    /// A cache that holds no answer.
    pub fn new() -> (r: Self)
        ensures
            r@ == Map::<Seq<char>, Option<Seq<char>>>::empty(),
    {
        let r = IdentityCache { names: StringHashMap::new() };
        assert(r@ =~= Map::<Seq<char>, Option<Seq<char>>>::empty());
        r
    }

    /// Whether `author` has been looked up.
    pub fn contains(&self, author: &str) -> (r: bool)
        ensures
            r == self@.contains_key(author@),
    {
        self.names.contains_key(author)
    }

    /// The user name that was found for `author`, if one was.
    pub fn resolved_name(&self, author: &str) -> (r: Option<&String>)
        ensures
            match r {
                Some(name) => self@.contains_key(author@) && self@[author@] == Some(name@),
                None => !(self@.contains_key(author@) && self@[author@] is Some),
            },
    {
        match self.names.get(author) {
            Some(answer) => match answer {
                Some(name) => Some(name),
                None => None,
            },
            None => None,
        }
    }

    /// Keeps the answer `name` of the lookup for `author`.
    pub fn insert(&mut self, author: String, name: Option<String>)
        ensures
            final(self)@ == old(self)@.insert(author@, opt_text(name)),
    {
        self.names.insert(author, name);
        assert(self@ =~= old(self)@.insert(author@, opt_text(name)));
    }
}

/// Lists the statistics by resolved key, merging the authors that share one.
pub fn rekey(stats: StatsMap, ids: &IdentityCache) -> (r: StatsMap)
    requires
        stats.wf(),
    ensures
        r.wf(),
        r@ == rekeyed(stats@, ids@),
        total_lines(r@) == total_lines(stats@),
{
    let mut rest = stats;
    let mut out = StatsMap::new();
    let ghost mut done: StatsTable = Map::empty();
    proof {
        stats.lemma_wf();
        lemma_rekeyed_empty(ids@);
        assert(done.union_prefer_right(rest@) =~= stats@);
    }
    loop
        invariant
            rest.wf(),
            out.wf(),
            done.dom().finite(),
            done.dom().disjoint(rest@.dom()),
            done.union_prefer_right(rest@) == stats@,
            out@ == rekeyed(done, ids@),
            total_lines(out@) + total_lines(rest@) == total_lines(stats@),
            total_lines(stats@) <= usize::MAX,
        ensures
            out.wf(),
            out@ == rekeyed(stats@, ids@),
            total_lines(out@) == total_lines(stats@),
        decreases rest@.dom().len(),
    {
        proof {
            rest.lemma_wf();
        }
        match rest.pop() {
            Some((author, s)) => {
                proof {
                    lemma_rekeyed_insert(done, ids@, author@, s@);
                    done = done.insert(author@, s@);
                    assert(done.union_prefer_right(rest@) =~= stats@);
                }
                let key: String = match ids.resolved_name(author.as_str()) {
                    Some(name) => name.clone(),
                    None => author,
                };
                out.absorb(key, s);
            },
            None => {
                proof {
                    assert(done =~= stats@);
                }
                break ;
            },
        }
    }
    out
}

/// What the lookups for the authors of `m` answered: `ids` holds an answer
/// for exactly the authors that have a revision, and each answer is one
/// that `lookup` gave for a revision of that author.
pub open spec fn answers_of<F: Fn(&str) -> Option<String>>(
    m: StatsTable,
    lookup: F,
    ids: IdentityTable,
) -> bool {
    &&& forall|author: Seq<char>| #[trigger]
        ids.contains_key(author) <==> m.contains_key(author) && m[author].commits
            != Set::<Seq<char>>::empty()
    &&& forall|author: Seq<char>| #[trigger]
        ids.contains_key(author) ==> answered(m[author], lookup, ids[author])
}

/// Whether `name` is what `lookup` answered for one of the revisions of `s`.
pub open spec fn answered<F: Fn(&str) -> Option<String>>(
    s: StatsView,
    lookup: F,
    name: Option<Seq<char>>,
) -> bool {
    exists|commit: &str, answer: Option<String>|
        s.commits.contains(commit@) && #[trigger] call_ensures(lookup, (commit,), answer) && name
            == opt_text(answer)
}

/// Resolves every author that has a revision with one call of `lookup`, on
/// one of their revisions, and lists the statistics by what was found: by
/// user name where `lookup` gave one, else by author.
pub fn resolve_github_usernames<F: Fn(&str) -> Option<String>>(stats: StatsMap, lookup: F) -> (r:
    StatsMap)
    requires
        stats.wf(),
        forall|commit: &str| call_requires(lookup, (commit,)),
    ensures
        r.wf(),
        exists|ids: IdentityTable| #[trigger]
            answers_of(stats@, lookup, ids) && r@ == rekeyed(stats@, ids),
        total_lines(r@) == total_lines(stats@),
{
    let mut cache = IdentityCache::new();
    let mut i: usize = 0;
    proof {
        stats.lemma_wf();
    }
    while i < stats.len()
        invariant
            stats.wf(),
            stats.keys().no_duplicates(),
            stats.keys().to_set() == stats@.dom(),
            i <= stats.keys().len(),
            forall|commit: &str| call_requires(lookup, (commit,)),
            forall|author: Seq<char>| #[trigger]
                cache@.contains_key(author) <==> (exists|j: int|
                    0 <= j < i && stats.keys()[j] == author) && stats@.contains_key(author)
                    && stats@[author].commits != Set::<Seq<char>>::empty(),
            forall|author: Seq<char>| #[trigger]
                cache@.contains_key(author) ==> answered(stats@[author], lookup, cache@[author]),
        decreases stats.keys().len() - i,
    {
        let author = stats.author_at(i);
        let ghost a = author@;
        let ghost before = cache@;
        assert(stats.keys().to_set().contains(stats.keys()[i as int]));
        match stats.stats_at(i).first_commit() {
            Some(commit) => {
                let answer = lookup(commit.as_str());
                cache.insert(author.clone(), answer);
                proof {
                    assert(answered(stats@[a], lookup, cache@[a]));
                    assert forall|other: Seq<char>| #[trigger]
                        cache@.contains_key(other) <==> (exists|j: int|
                            0 <= j < i + 1 && stats.keys()[j] == other) && stats@.contains_key(
                            other,
                        ) && stats@[other].commits != Set::<Seq<char>>::empty() by {
                        if other != a && before.contains_key(other) {
                            let j = choose|j: int| 0 <= j < i && stats.keys()[j] == other;
                            assert(0 <= j < i + 1 && stats.keys()[j] == other);
                        }
                        if exists|j: int| 0 <= j < i + 1 && stats.keys()[j] == other {
                            let j = choose|j: int| 0 <= j < i + 1 && stats.keys()[j] == other;
                            if j < i {
                                assert(0 <= j < i && stats.keys()[j] == other);
                            }
                        }
                    }
                }
            },
            None => {
                proof {
                    assert forall|other: Seq<char>| #[trigger]
                        cache@.contains_key(other) <==> (exists|j: int|
                            0 <= j < i + 1 && stats.keys()[j] == other) && stats@.contains_key(
                            other,
                        ) && stats@[other].commits != Set::<Seq<char>>::empty() by {
                        if before.contains_key(other) {
                            let j = choose|j: int| 0 <= j < i && stats.keys()[j] == other;
                            assert(0 <= j < i + 1 && stats.keys()[j] == other);
                        }
                        if exists|j: int| 0 <= j < i + 1 && stats.keys()[j] == other {
                            let j = choose|j: int| 0 <= j < i + 1 && stats.keys()[j] == other;
                            if j < i {
                                assert(0 <= j < i && stats.keys()[j] == other);
                            }
                        }
                    }
                }
            },
        }
        i += 1;
    }
    proof {
        assert forall|author: Seq<char>| #[trigger]
            cache@.contains_key(author) <==> stats@.contains_key(author) && stats@[author].commits
                != Set::<Seq<char>>::empty() by {
            if stats@.contains_key(author) {
                assert(stats.keys().to_set().contains(author));
                let j = choose|j: int| 0 <= j < stats.keys().len() && stats.keys()[j] == author;
                assert(0 <= j < i && stats.keys()[j] == author);
            }
        }
        assert(answers_of(stats@, lookup, cache@));
    }
    rekey(stats, &cache)
}

} // verus!
