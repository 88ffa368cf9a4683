//! The attribution of one line of a file to the revision that last changed it.

use vstd::prelude::*;

verus! {

/// One attributed line: who wrote it, in which revision, and when.
#[derive(Clone, Debug, PartialEq, Eq)]
pub struct AttributionEvent {
    /// The author as the version control system recorded it.
    pub author: String,
    /// The revision that last touched the line, where a header named one.
    pub commit_id: Option<String>,
    /// Seconds since the epoch at which the revision was authored.
    pub author_time: i64,
}

/// The mathematical content of an [`AttributionEvent`].
pub struct EventView {
    pub author: Seq<char>,
    pub commit_id: Option<Seq<char>>,
    pub author_time: int,
}

/// The text of an optional string.
pub open spec fn opt_text(s: Option<String>) -> Option<Seq<char>> {
    match s {
        Some(t) => Some(t@),
        None => None,
    }
}

impl View for AttributionEvent {
    type V = EventView;

    open spec fn view(&self) -> EventView {
        EventView {
            author: self.author@,
            commit_id: opt_text(self.commit_id),
            author_time: self.author_time as int,
        }
    }
}

impl DeepView for AttributionEvent {
    type V = EventView;

    open spec fn deep_view(&self) -> EventView {
        self@
    }
}

} // verus!
