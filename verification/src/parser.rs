//! The parser of line-by-line blame output.
//!
//! The output comes in blocks, one per line of the file. A block holds a
//! header that names the revision, lines of metadata, and last the line's
//! content behind a tab. Metadata that a block leaves out is that of the
//! block before it, so the parser keeps what it has read until it is
//! overwritten.

use vstd::prelude::*;
use crate::decimal::{parse_i64, parse_i64_spec};
use crate::event::{opt_text, AttributionEvent, EventView};
use crate::text::{from_chars, next_line, split_lines_spec, starts_with_at, to_chars};

verus! {

/// The length of a revision identifier.
pub const COMMIT_ID_LEN: usize = 40;

/// Whether `c` is an ASCII hexadecimal digit, in either case.
pub open spec fn is_hex_digit(c: char) -> bool {
    let u = c as int;
    48 <= u <= 57 || 65 <= u <= 70 || 97 <= u <= 102
}

/// Whether `line` opens a block: it begins with a revision identifier.
pub open spec fn is_commit_header(line: Seq<char>) -> bool {
    &&& line.len() >= COMMIT_ID_LEN
    &&& forall|i: int| 0 <= i < COMMIT_ID_LEN ==> is_hex_digit(#[trigger] line[i])
}

/// What a line of blame output says.
pub enum BlameLine {
    /// The block's header, with the revision it names.
    Commit(Seq<char>),
    /// The author of the revision.
    Author(Seq<char>),
    /// The time of authorship; zero where the line gives no readable number.
    AuthorTime(i64),
    /// The content of the attributed line, which closes the block.
    Content,
    /// Anything else.
    Other,
}

/// The time that the text after the `author-time` marker gives.
pub open spec fn time_of(text: Seq<char>) -> i64 {
    match parse_i64_spec(text) {
        Some(t) => t,
        None => 0,
    }
}

/// Reads one line of blame output.
pub open spec fn classify(line: Seq<char>) -> BlameLine {
    if is_commit_header(line) {
        BlameLine::Commit(line.take(COMMIT_ID_LEN as int))
    } else if "author "@.is_prefix_of(line) {
        BlameLine::Author(line.skip("author "@.len() as int))
    } else if "author-time "@.is_prefix_of(line) {
        BlameLine::AuthorTime(time_of(line.skip("author-time "@.len() as int)))
    } else if line.len() > 0 && line[0] == '\t' {
        BlameLine::Content
    } else {
        BlameLine::Other
    }
}

/// What the parser remembers between lines.
pub struct ParserState {
    pub author: Option<Seq<char>>,
    pub time: int,
    pub commit: Option<Seq<char>>,
}

/// The parser's state before any line.
pub open spec fn initial_state() -> ParserState {
    ParserState { author: None, time: 0, commit: None }
}

/// The parser's state after it has read `line` in state `st`.
pub open spec fn advance(st: ParserState, line: Seq<char>) -> ParserState {
    match classify(line) {
        BlameLine::Commit(id) => ParserState { commit: Some(id), ..st },
        BlameLine::Author(name) => ParserState { author: Some(name), ..st },
        BlameLine::AuthorTime(t) => ParserState { time: t as int, ..st },
        _ => st,
    }
}

/// The event that `line` gives rise to when read in state `st`: a content
/// line is attributed to the author last read, if there was one.
pub open spec fn emitted(st: ParserState, line: Seq<char>) -> Option<EventView> {
    if classify(line) is Content && st.author is Some {
        Some(EventView { author: st.author->0, commit_id: st.commit, author_time: st.time })
    } else {
        None
    }
}

/// The parser's state after `lines`.
pub open spec fn state_after(lines: Seq<Seq<char>>) -> ParserState
    decreases lines.len(),
{
    if lines.len() == 0 {
        initial_state()
    } else {
        advance(state_after(lines.drop_last()), lines.last())
    }
}

/// The events that `lines` give rise to, in order.
pub open spec fn events_of(lines: Seq<Seq<char>>) -> Seq<EventView>
    decreases lines.len(),
{
    if lines.len() == 0 {
        Seq::empty()
    } else {
        let before = events_of(lines.drop_last());
        match emitted(state_after(lines.drop_last()), lines.last()) {
            Some(e) => before.push(e),
            None => before,
        }
    }
}

/// The attributed lines that blame output describes.
pub open spec fn parse_spec(text: Seq<char>) -> Seq<EventView> {
    events_of(split_lines_spec(text))
}

/// The number of content lines among `lines`.
pub open spec fn content_lines(lines: Seq<Seq<char>>) -> nat
    decreases lines.len(),
{
    if lines.len() == 0 {
        0
    } else {
        content_lines(lines.drop_last()) + if classify(lines.last()) is Content {
            1nat
        } else {
            0nat
        }
    }
}

/// Whether an author line stands among the first `i` of `lines`.
pub open spec fn author_seen(lines: Seq<Seq<char>>, i: int) -> bool {
    exists|j: int| 0 <= j < i && j < lines.len() && classify(#[trigger] lines[j]) is Author
}

/// The parser knows an author exactly when it has read an author line.
pub proof fn lemma_author_is_kept(lines: Seq<Seq<char>>)
    ensures
        state_after(lines).author is Some <==> author_seen(lines, lines.len() as int),
    decreases lines.len(),
{
    if lines.len() > 0 {
        let shorter = lines.drop_last();
        lemma_author_is_kept(shorter);
        if author_seen(shorter, shorter.len() as int) {
            let j = choose|j: int|
                0 <= j < shorter.len() && classify(#[trigger] shorter[j]) is Author;
            assert(classify(lines[j]) is Author);
        }
        if classify(lines.last()) is Author {
            assert(classify(lines[lines.len() - 1]) is Author);
        }
        if author_seen(lines, lines.len() as int) {
            let j = choose|j: int| 0 <= j < lines.len() && classify(#[trigger] lines[j]) is Author;
            if j < shorter.len() {
                assert(classify(shorter[j]) is Author);
            }
        }
    }
}

/// No more lines are attributed than there are content lines.
pub proof fn lemma_events_at_most_content(lines: Seq<Seq<char>>)
    ensures
        events_of(lines).len() <= content_lines(lines),
    decreases lines.len(),
{
    if lines.len() > 0 {
        lemma_events_at_most_content(lines.drop_last());
    }
}

/// Where an author line stands before every content line, every content
/// line is attributed.
pub proof fn lemma_every_content_line_counted(lines: Seq<Seq<char>>)
    requires
        forall|i: int|
            0 <= i < lines.len() && classify(#[trigger] lines[i]) is Content ==> author_seen(
                lines,
                i,
            ),
    ensures
        events_of(lines).len() == content_lines(lines),
    decreases lines.len(),
{
    if lines.len() > 0 {
        let shorter = lines.drop_last();
        let n = shorter.len() as int;
        assert forall|i: int|
            0 <= i < shorter.len() && classify(#[trigger] shorter[i]) is Content implies author_seen(
            shorter,
            i,
        ) by {
            assert(shorter[i] == lines[i]);
            let j = choose|j: int|
                0 <= j < i && j < lines.len() && classify(#[trigger] lines[j]) is Author;
            assert(classify(shorter[j]) is Author);
        }
        lemma_every_content_line_counted(shorter);
        if classify(lines.last()) is Content {
            assert(classify(lines[n]) is Content);
            let j = choose|j: int|
                0 <= j < n && j < lines.len() && classify(#[trigger] lines[j]) is Author;
            assert(classify(shorter[j]) is Author);
            lemma_author_is_kept(shorter);
        }
    }
}

fn is_hex(c: char) -> (r: bool)
    ensures
        r == is_hex_digit(c),
{
    let u: u32 = c as u32;
    (48 <= u && u <= 57) || (65 <= u && u <= 70) || (97 <= u && u <= 102)
}

fn is_header_at(chars: &Vec<char>, from: usize, to: usize) -> (r: bool)
    requires
        from <= to <= chars.len(),
    ensures
        r == is_commit_header(chars@.subrange(from as int, to as int)),
{
    let ghost line = chars@.subrange(from as int, to as int);
    if to - from < COMMIT_ID_LEN {
        return false;
    }
    let mut i: usize = 0;
    while i < COMMIT_ID_LEN
        invariant
            from <= to <= chars.len(),
            to - from >= COMMIT_ID_LEN,
            i <= COMMIT_ID_LEN,
            line == chars@.subrange(from as int, to as int),
            forall|j: int| 0 <= j < i ==> is_hex_digit(#[trigger] line[j]),
        decreases COMMIT_ID_LEN - i,
    {
        if !is_hex(chars[from + i]) {
            assert(!is_hex_digit(line[i as int]));
            return false;
        }
        i += 1;
    }
    true
}

/// The state of a parser of blame output: the metadata read last.
pub struct BlameParser {
    author: Option<String>,
    time: i64,
    commit: Option<String>,
}

impl View for BlameParser {
    type V = ParserState;

    closed spec fn view(&self) -> ParserState {
        ParserState {
            author: opt_text(self.author),
            time: self.time as int,
            commit: opt_text(self.commit),
        }
    }
}

/// The content of an optional event.
pub open spec fn opt_event(e: Option<AttributionEvent>) -> Option<EventView> {
    match e {
        Some(e) => Some(e@),
        None => None,
    }
}

fn clone_opt(s: &Option<String>) -> (r: Option<String>)
    ensures
        opt_text(r) == opt_text(*s),
{
    match s {
        Some(t) => Some(t.clone()),
        None => None,
    }
}

impl BlameParser {
    /// A parser that has read nothing.
    pub fn new() -> (r: Self)
        ensures
            r@ == initial_state(),
    {
        BlameParser { author: None, time: 0, commit: None }
    }

    /// Reads the line `chars[from..to]` and returns the event that it
    /// completes, if any.
    pub fn feed_range(&mut self, chars: &Vec<char>, from: usize, to: usize) -> (r: Option<
        AttributionEvent,
    >)
        requires
            from <= to <= chars.len(),
        ensures
            final(self)@ == advance(old(self)@, chars@.subrange(from as int, to as int)),
            opt_event(r) == emitted(old(self)@, chars@.subrange(from as int, to as int)),
    {
        let ghost line = chars@.subrange(from as int, to as int);
        proof {
            reveal_strlit("author ");
            reveal_strlit("author-time ");
        }
        if is_header_at(chars, from, to) {
            let id = from_chars(chars, from, from + COMMIT_ID_LEN);
            assert(id@ == line.take(COMMIT_ID_LEN as int));
            self.commit = Some(id);
            None
        } else if starts_with_at(chars, from, to, "author ") {
            let name = from_chars(chars, from + 7, to);
            assert(name@ == line.skip(7));
            self.author = Some(name);
            None
        } else if starts_with_at(chars, from, to, "author-time ") {
            assert(chars@.subrange(from + 12, to as int) == line.skip(12));
            self.time = match parse_i64(chars, from + 12, to) {
                Some(t) => t,
                None => 0,
            };
            None
        } else if from < to && chars[from] == '\t' {
            assert(line[0] == chars@[from as int]);
            match &self.author {
                Some(name) => Some(
                    AttributionEvent {
                        author: name.clone(),
                        commit_id: clone_opt(&self.commit),
                        author_time: self.time,
                    },
                ),
                None => None,
            }
        } else {
            assert(from < to ==> line[0] == chars@[from as int]);
            None
        }
    }

    /// Reads one line and returns the event that it completes, if any.
    pub fn feed_line(&mut self, line: &str) -> (r: Option<AttributionEvent>)
        ensures
            final(self)@ == advance(old(self)@, line@),
            opt_event(r) == emitted(old(self)@, line@),
    {
        let chars = to_chars(line);
        assert(chars@.subrange(0, chars.len() as int) == line@);
        self.feed_range(&chars, 0, chars.len())
    }
}

/// Reads blame output and returns its attributed lines, in order.
pub fn parse_blame(text: &str) -> (events: Vec<AttributionEvent>)
    ensures
        events.deep_view() == parse_spec(text@),
{
    let chars = to_chars(text);
    let mut parser = BlameParser::new();
    let mut events: Vec<AttributionEvent> = Vec::new();
    let mut pos: usize = 0;
    let ghost mut done: Seq<Seq<char>> = Seq::empty();
    proof {
        assert(chars@.skip(0) == chars@);
        assert(events.deep_view() =~= Seq::<EventView>::empty());
    }
    while pos < chars.len()
        invariant
            pos <= chars.len(),
            chars@ == text@,
            split_lines_spec(chars@) == done + split_lines_spec(chars@.skip(pos as int)),
            parser@ == state_after(done),
            events.deep_view() == events_of(done),
        decreases chars.len() - pos,
    {
        let (stop, next) = next_line(&chars, pos);
        let ghost line = chars@.subrange(pos as int, stop as int);
        let ghost before = events.deep_view();
        let emitted = parser.feed_range(&chars, pos, stop);
        match emitted {
            Some(e) => {
                events.push(e);
                assert(events.deep_view() =~= before.push(e@));
            },
            None => {},
        }
        proof {
            assert(done.push(line).drop_last() =~= done);
            assert(done.push(line) + split_lines_spec(chars@.skip(next as int)) =~= done + (seq![
                line,
            ] + split_lines_spec(chars@.skip(next as int))));
            done = done.push(line);
        }
        pos = next;
    }
    proof {
        assert(chars@.skip(pos as int).len() == 0);
        assert(done + Seq::<Seq<char>>::empty() =~= done);
    }
    events
}

} // verus!
