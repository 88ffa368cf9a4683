//! The statistics kept for one author.

use vstd::prelude::*;
use vstd::seq_lib::seq_to_set_is_finite;
use crate::stats::{combine, no_stats, valid_stats, StatsView};
use crate::text::{lemma_texts_push, texts};

verus! {

/// Line count, latest authorship time and distinct revisions of one author.
pub struct AuthorStats {
    lines: usize,
    last_commit_time: i64,
    commits: Vec<String>,
}

/// The revisions that a line contributes: the one it names, if any.
pub open spec fn commit_set(commit: Option<Seq<char>>) -> Set<Seq<char>> {
    match commit {
        Some(c) => set![c],
        None => Set::empty(),
    }
}

impl View for AuthorStats {
    type V = StatsView;

    closed spec fn view(&self) -> StatsView {
        StatsView {
            lines: self.lines as nat,
            last_commit_time: self.last_commit_time as int,
            commits: texts(self.commits@).to_set(),
        }
    }
}

impl AuthorStats {
    /// No revision is listed twice, and the time is not negative.
    pub closed spec fn wf(&self) -> bool {
        &&& texts(self.commits@).no_duplicates()
        &&& self.last_commit_time >= 0
    }

    /// What well-formed statistics mean for their model.
    pub proof fn lemma_wf(&self)
        requires
            self.wf(),
        ensures
            valid_stats(self@),
            self@.commits.finite(),
    {
        seq_to_set_is_finite(texts(self.commits@));
    }

    /// The statistics of an author of whom nothing has been seen.
    pub fn new() -> (r: Self)
        ensures
            r.wf(),
            r@ == no_stats(),
    {
        let r = AuthorStats { lines: 0, last_commit_time: 0, commits: Vec::new() };
        assert(texts(r.commits@) =~= Seq::<Seq<char>>::empty());
        assert(r@.commits =~= Set::<Seq<char>>::empty());
        r
    }

    /// The number of lines attributed to the author.
    pub fn lines(&self) -> (r: usize)
        ensures
            r == self@.lines,
    {
        self.lines
    }

    /// The latest authorship time among the author's lines.
    pub fn last_commit_time(&self) -> (r: i64)
        ensures
            r == self@.last_commit_time,
    {
        self.last_commit_time
    }

    /// The number of distinct revisions.
    pub fn commit_count(&self) -> (r: usize)
        requires
            self.wf(),
        ensures
            r == self@.commits.len(),
    {
        proof {
            texts(self.commits@).unique_seq_to_set();
        }
        self.commits.len()
    }

    /// Whether a line of the author came from the revision `id`.
    pub fn has_commit(&self, id: &str) -> (r: bool)
        ensures
            r == self@.commits.contains(id@),
    {
        let key: String = id.to_owned();
        self.position_of(&key).is_some()
    }

    fn position_of(&self, id: &String) -> (r: Option<usize>)
        ensures
            match r {
                Some(i) => i < self.commits.len() && self.commits[i as int]@ == id@,
                None => !self@.commits.contains(id@),
            },
            r is Some ==> self@.commits.contains(id@),
    {
        let ghost ids = texts(self.commits@);
        let mut i: usize = 0;
        while i < self.commits.len()
            invariant
                i <= self.commits.len(),
                ids == texts(self.commits@),
                forall|j: int| 0 <= j < i ==> ids[j] != id@,
            decreases self.commits.len() - i,
        {
            if self.commits[i] == *id {
                assert(ids[i as int] == id@);
                return Some(i);
            }
            i += 1;
        }
        None
    }

    /// One of the author's revisions, where there is any.
    pub fn first_commit(&self) -> (r: Option<&String>)
        ensures
            match r {
                Some(c) => self@.commits.contains(c@),
                None => self@.commits == Set::<Seq<char>>::empty(),
            },
    {
        let ghost ids = texts(self.commits@);
        if self.commits.len() > 0 {
            assert(ids[0] == self.commits[0]@);
            Some(&self.commits[0])
        } else {
            assert(ids.to_set() =~= Set::<Seq<char>>::empty());
            None
        }
    }

    /// Adds the revision `id` to the author's revisions.
    pub fn add_commit(&mut self, id: &String)
        requires
            old(self).wf(),
        ensures
            final(self).wf(),
            final(self)@ == (StatsView { commits: old(self)@.commits.insert(id@), ..old(self)@ }),
    {
        if self.position_of(id).is_none() {
            proof {
                lemma_texts_push(self.commits@, *id);
            }
            self.commits.push(id.clone());
        } else {
            assert(self@.commits.insert(id@) =~= self@.commits);
        }
    }

    /// Counts one more line, authored at `time` in the revision `commit`.
    pub fn record_line(&mut self, time: i64, commit: &Option<String>)
        requires
            old(self).wf(),
            old(self)@.lines < usize::MAX,
        ensures
            final(self).wf(),
            final(self)@ == combine(
                old(self)@,
                StatsView {
                    lines: 1,
                    last_commit_time: time as int,
                    commits: commit_set(crate::event::opt_text(*commit)),
                },
            ),
    {
        self.lines = self.lines + 1;
        if time > self.last_commit_time {
            self.last_commit_time = time;
        }
        match commit {
            Some(id) => {
                self.add_commit(id);
                assert(old(self)@.commits.insert(id@) =~= old(self)@.commits.union(set![id@]));
            },
            None => {
                assert(old(self)@.commits =~= old(self)@.commits.union(Set::empty()));
            },
        }
    }

    /// Adds the statistics of `other` to these.
    pub fn absorb(&mut self, other: &AuthorStats)
        requires
            old(self).wf(),
            other.wf(),
            old(self)@.lines + other@.lines <= usize::MAX,
        ensures
            final(self).wf(),
            final(self)@ == combine(old(self)@, other@),
    {
        self.lines = self.lines + other.lines;
        if other.last_commit_time > self.last_commit_time {
            self.last_commit_time = other.last_commit_time;
        }
        let ghost theirs = texts(other.commits@);
        let mut i: usize = 0;
        assert(theirs.take(0).to_set() =~= Set::<Seq<char>>::empty());
        assert(old(self)@.commits.union(Set::empty()) =~= old(self)@.commits);
        while i < other.commits.len()
            invariant
                i <= other.commits.len(),
                theirs == texts(other.commits@),
                self.wf(),
                self.lines == old(self).lines + other.lines,
                self.last_commit_time == combine(old(self)@, other@).last_commit_time,
                self@.commits == old(self)@.commits.union(theirs.take(i as int).to_set()),
            decreases other.commits.len() - i,
        {
            let ghost seen = theirs.take(i as int);
            self.add_commit(&other.commits[i]);
            proof {
                assert(theirs.take(i + 1) =~= seen.push(theirs[i as int]));
                seen.lemma_push_to_set_commute(theirs[i as int]);
                assert(self@.commits =~= old(self)@.commits.union(theirs.take(i + 1).to_set()));
            }
            i += 1;
        }
        assert(theirs.take(i as int) == theirs);
    }
}

impl Default for AuthorStats {
    fn default() -> (r: Self)
        ensures
            r.wf(),
            r@ == no_stats(),
    {
        AuthorStats::new()
    }
}

} // verus!
