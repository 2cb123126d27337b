//! Markdown-aware chunking.
//!
//! A document is split on headings; each section carries its `heading_path`,
//! the stack of enclosing headings such as `["Configuration", "Executor
//! kinds"]`. A section over the size cap is cut into windows with a small
//! overlap, so that a single long section still yields bounded chunks. A
//! document in another format has no heading structure and is cut by the
//! size window alone, with an empty `heading_path`.

use pulldown_cmark::{Event, Parser, Tag, TagEnd};
use vstd::prelude::*;

use crate::text;

verus! {

/// The largest chunk, in characters.
pub const CHUNK_CHAR_CAP: usize = 1200;

/// How many characters neighbouring windows of one section share.
pub const CHUNK_OVERLAP: usize = 150;

/// How far into a window a break at white space is looked for.
pub const CHUNK_LOOKBACK: usize = CHUNK_CHAR_CAP * 85 / 100;

/// One retrievable unit: text plus where it came from.
#[derive(Debug, Clone, PartialEq, Eq)]
pub struct Chunk {
    /// Stable id: `<relpath>#<ordinal>`.
    pub id: String,
    /// Repository-relative source path.
    pub path: String,
    /// Enclosing headings, outermost first. Empty for a plain document.
    pub heading_path: Vec<String>,
    /// The body.
    pub text: String,
}

/// What a [`Chunk`] holds.
#[verifier::ext_equal]
pub struct ChunkView {
    pub id: Seq<char>,
    pub path: Seq<char>,
    pub heading_path: Seq<Seq<char>>,
    pub text: Seq<char>,
}

impl View for Chunk {
    type V = ChunkView;

    open spec fn view(&self) -> ChunkView {
        ChunkView {
            id: self.id@,
            path: self.path@,
            heading_path: text::texts(self.heading_path@),
            text: self.text@,
        }
    }
}

impl Chunk {
    /// A copy of this chunk.
    pub fn copy(&self) -> (r: Chunk)
        ensures
            r@ == self@,
    {
        Chunk {
            id: self.id.clone(),
            path: self.path.clone(),
            heading_path: text::copy_strings(&self.heading_path),
            text: self.text.clone(),
        }
    }
}

/// The views of a sequence of chunks.
pub open spec fn chunk_views(v: Seq<Chunk>) -> Seq<ChunkView> {
    v.map_values(|c: Chunk| c@)
}

/// A section: its heading stack and its body.
#[derive(Debug, Clone, PartialEq, Eq)]
pub struct Section {
    pub heading_path: Vec<String>,
    pub body: String,
}

/// What a [`Section`] holds.
#[verifier::ext_equal]
pub struct SectionView {
    pub heading_path: Seq<Seq<char>>,
    pub body: Seq<char>,
}

impl View for Section {
    type V = SectionView;

    open spec fn view(&self) -> SectionView {
        SectionView { heading_path: text::texts(self.heading_path@), body: self.body@ }
    }
}

/// The views of a sequence of sections.
pub open spec fn section_views(v: Seq<Section>) -> Seq<SectionView> {
    v.map_values(|s: Section| s@)
}

// ── windows ─────────────────────────────────────────────────────────────────
/// The last place of white space in `s[from..to]`.
pub open spec fn last_white_space(s: Seq<char>, from: int, to: int) -> Option<int>
    decreases to - from,
{
    if to <= from {
        None
    } else if text::white_space(s[to - 1]) {
        Some(to - 1)
    } else {
        last_white_space(s, from, to - 1)
    }
}

/// Where the window that starts at `start` ends: at the end of the text where
/// that is within the cap, else behind the last white space in the final part
/// of the window, else at the cap.
pub open spec fn window_end(s: Seq<char>, start: int) -> int {
    if start + CHUNK_CHAR_CAP >= s.len() {
        s.len() as int
    } else {
        match last_white_space(s, start + CHUNK_LOOKBACK, start + CHUNK_CHAR_CAP) {
            Some(at) => at + 1,
            None => start + CHUNK_CHAR_CAP,
        }
    }
}

/// A place that `last_white_space` finds lies in the range it searches.
pub proof fn lemma_last_white_space(s: Seq<char>, from: int, to: int)
    ensures
        last_white_space(s, from, to) matches Some(at) ==> from <= at < to && text::white_space(s[at]),
    decreases to - from,
{
    if to > from && !text::white_space(s[to - 1]) {
        lemma_last_white_space(s, from, to - 1);
    }
}

/// A window is never longer than the cap, and one that does not reach the end
/// of the text is longer than the overlap.
pub proof fn lemma_window_end(s: Seq<char>, start: int)
    requires
        start < s.len(),
    ensures
        start < window_end(s, start) <= start + CHUNK_CHAR_CAP,
        window_end(s, start) <= s.len(),
        window_end(s, start) < s.len() ==> window_end(s, start) > start + CHUNK_LOOKBACK,
{
    lemma_last_white_space(s, start + CHUNK_LOOKBACK, start + CHUNK_CHAR_CAP);
}

/// The windows from `start` on, each as its first place and the place behind
/// its last. The next one starts before the end of its predecessor by the
/// overlap.
pub open spec fn window_ranges(s: Seq<char>, start: int) -> Seq<(int, int)>
    decreases s.len() - start,
{
    if start >= s.len() {
        Seq::empty()
    } else {
        proof {
            lemma_window_end(s, start);
        }
        let end = window_end(s, start);
        if end >= s.len() {
            seq![(start, end)]
        } else {
            seq![(start, end)] + window_ranges(s, end - CHUNK_OVERLAP)
        }
    }
}

/// The texts of the windows: trimmed, without those that are blank.
pub open spec fn range_texts(s: Seq<char>, ranges: Seq<(int, int)>) -> Seq<Seq<char>> {
    ranges.map_values(|r: (int, int)| text::trimmed(s.subrange(r.0, r.1))).filter(
        |w: Seq<char>| w.len() > 0,
    )
}

/// The windows of a body: the body itself where it is within the cap.
pub open spec fn windows(body: Seq<char>) -> Seq<Seq<char>> {
    if body.len() <= CHUNK_CHAR_CAP {
        seq![body]
    } else {
        range_texts(body, window_ranges(body, 0))
    }
}

proof fn lemma_range_texts_push(s: Seq<char>, ranges: Seq<(int, int)>, r: (int, int))
    ensures
        range_texts(s, ranges.push(r)) == if text::trimmed(s.subrange(r.0, r.1)).len() > 0 {
            range_texts(s, ranges).push(text::trimmed(s.subrange(r.0, r.1)))
        } else {
            range_texts(s, ranges)
        },
{
    let f = |r: (int, int)| text::trimmed(s.subrange(r.0, r.1));
    let keep = |w: Seq<char>| w.len() > 0;
    assert(ranges.push(r).map_values(f) =~= ranges.map_values(f).push(f(r)));
    ranges.map_values(f).lemma_filter_push(f(r), keep);
}

/// Cuts `body` into windows of at most [`CHUNK_CHAR_CAP`] characters that
/// overlap by [`CHUNK_OVERLAP`], breaking at white space near the cap.
pub fn window_text(body: &str) -> (r: Vec<String>)
    ensures
        text::texts(r@) == windows(body@),
{
    let chars = text::chars_of(body);
    let mut out: Vec<String> = Vec::new();
    if chars.len() <= CHUNK_CHAR_CAP {
        out.push(body.to_owned());
        assert(text::texts(out@) =~= windows(body@));
        return out;
    }
    let mut start: usize = 0;
    let ghost mut done: Seq<(int, int)> = Seq::empty();
    assert(done + window_ranges(body@, 0) =~= window_ranges(body@, 0));
    assert(text::texts(out@) =~= range_texts(body@, done)) by {
        reveal(Seq::filter);
        assert(done.map_values(|r: (int, int)| text::trimmed(body@.subrange(r.0, r.1)))
            =~= Seq::empty());
    }
    while start < chars.len()
        invariant
            chars@ == body@,
            chars@.len() > CHUNK_CHAR_CAP,
            start <= chars@.len(),
            text::texts(out@) == range_texts(body@, done),
            done + window_ranges(body@, start as int) == window_ranges(body@, 0),
        decreases chars@.len() - start,
    {
        proof {
            lemma_window_end(body@, start as int);
        }
        let mut end: usize = chars.len();
        if chars.len() - start > CHUNK_CHAR_CAP {
            let lookback = start + CHUNK_LOOKBACK;
            let cap = start + CHUNK_CHAR_CAP;
            let mut at = cap;
            while at > lookback && !text::is_white_space(chars[at - 1])
                invariant
                    chars@ == body@,
                    lookback <= at <= cap < chars@.len(),
                    last_white_space(body@, lookback as int, at as int) == last_white_space(
                        body@,
                        lookback as int,
                        cap as int,
                    ),
                decreases at,
            {
                at = at - 1;
            }
            end = if at > lookback { at } else { cap };
        }
        assert(end == window_end(body@, start as int));
        let window = text::trim_range(&chars, start, end);
        let ghost before = text::texts(out@);
        let ghost rest = window_ranges(body@, end - CHUNK_OVERLAP);
        proof {
            lemma_range_texts_push(body@, done, (start as int, end as int));
            assert(end < body@.len() ==> done + (seq![(start as int, end as int)] + rest)
                =~= done.push((start as int, end as int)) + rest);
            assert(done + seq![(start as int, end as int)] =~= done.push(
                (start as int, end as int),
            ));
            done = done.push((start as int, end as int));
        }
        if !window.as_str().is_empty() {
            out.push(window);
            assert(text::texts(out@) =~= before.push(window@));
        }
        if end >= chars.len() {
            return out;
        }
        start = end - CHUNK_OVERLAP;
    }
    assert(window_ranges(body@, start as int) =~= Seq::empty());
    out
}

proof fn lemma_window_ranges(s: Seq<char>, start: int)
    requires
        0 <= start < s.len(),
    ensures
        ({
            let ranges = window_ranges(s, start);
            &&& ranges.len() > 0
            &&& ranges[0].0 == start
            &&& ranges.last().1 == s.len()
            &&& forall|i: int|
                0 <= i < ranges.len() ==> start <= (#[trigger] ranges[i]).0 < ranges[i].1
                    <= ranges[i].0 + CHUNK_CHAR_CAP && ranges[i].1 <= s.len()
            &&& forall|i: int|
                #![trigger ranges[i]]
                0 < i < ranges.len() ==> ranges[i].0 == ranges[i - 1].1 - CHUNK_OVERLAP
        }),
    decreases s.len() - start,
{
    lemma_window_end(s, start);
    let end = window_end(s, start);
    let ranges = window_ranges(s, start);
    if end < s.len() {
        let next = end - CHUNK_OVERLAP;
        lemma_window_ranges(s, next);
        let rest = window_ranges(s, next);
        assert(ranges =~= seq![(start, end)] + rest);
        assert forall|i: int| 0 <= i < ranges.len() implies start <= (#[trigger] ranges[i]).0
            < ranges[i].1 <= ranges[i].0 + CHUNK_CHAR_CAP && ranges[i].1 <= s.len() by {
            if i > 0 {
                assert(ranges[i] == rest[i - 1]);
            }
        }
        assert forall|i: int| #![trigger ranges[i]] 0 < i < ranges.len() implies ranges[i].0
            == ranges[i - 1].1 - CHUNK_OVERLAP by {
            assert(ranges[i] == rest[i - 1]);
            if i > 1 {
                assert(ranges[i - 1] == rest[i - 2]);
            }
        }
    }
}

/// The windows of a body over the cap start at its beginning, end at its end,
/// are within the cap, and each overlaps its predecessor by
/// [`CHUNK_OVERLAP`] characters.
pub proof fn law_windows_overlap(body: Seq<char>)
    requires
        body.len() > CHUNK_CHAR_CAP,
    ensures
        ({
            let ranges = window_ranges(body, 0);
            &&& ranges.len() > 1
            &&& ranges[0].0 == 0
            &&& ranges.last().1 == body.len()
            &&& forall|i: int|
                0 <= i < ranges.len() ==> 0 <= (#[trigger] ranges[i]).0 < ranges[i].1
                    <= ranges[i].0 + CHUNK_CHAR_CAP && ranges[i].1 <= body.len()
            &&& forall|i: int|
                #![trigger ranges[i]]
                0 < i < ranges.len() ==> ranges[i].0 == ranges[i - 1].1 - CHUNK_OVERLAP
        }),
{
    lemma_window_ranges(body, 0);
    lemma_window_end(body, 0);
}

proof fn lemma_window_cover(s: Seq<char>, start: int, at: int) -> (i: int)
    requires
        0 <= start <= at < s.len(),
    ensures
        0 <= i < window_ranges(s, start).len(),
        window_ranges(s, start)[i].0 <= at < window_ranges(s, start)[i].1,
    decreases s.len() - start,
{
    lemma_window_end(s, start);
    let end = window_end(s, start);
    if at < end {
        0
    } else {
        1 + lemma_window_cover(s, end - CHUNK_OVERLAP, at)
    }
}

/// No text is lost by cutting a body into windows: every character other than
/// white space stands in a window, at its place.
pub proof fn law_windows_cover(body: Seq<char>, at: int) -> (r: (int, int, int))
    requires
        0 <= at < body.len(),
        !text::white_space(body[at]),
    ensures
        ({
            let (w, from, to) = r;
            &&& 0 <= w < windows(body).len()
            &&& 0 <= from <= at < to <= body.len()
            &&& windows(body)[w] == body.subrange(from, to)
        }),
{
    if body.len() <= CHUNK_CHAR_CAP {
        assert(body.subrange(0, body.len() as int) =~= body);
        (0, 0, body.len() as int)
    } else {
        let ranges = window_ranges(body, 0);
        let i = lemma_window_cover(body, 0, at);
        lemma_window_ranges(body, 0);
        let r = ranges[i];
        let part = body.subrange(r.0, r.1);
        let (a, b) = text::lemma_trimmed(part);
        assert(part[at - r.0] == body[at]);
        let all = ranges.map_values(|r: (int, int)| text::trimmed(body.subrange(r.0, r.1)));
        let keep = |w: Seq<char>| w.len() > 0;
        assert(all[i] == text::trimmed(part));
        all.lemma_filter_contains(keep, i);
        let w = windows(body).index_of(all[i]);
        assert(windows(body)[w] =~= body.subrange(r.0 + a, r.0 + b));
        (w, r.0 + a, r.0 + b)
    }
}

/// Every window is within the cap.
pub proof fn law_windows_within_cap(body: Seq<char>, w: int)
    requires
        0 <= w < windows(body).len(),
    ensures
        windows(body)[w].len() <= CHUNK_CHAR_CAP,
{
    if body.len() > CHUNK_CHAR_CAP {
        let ranges = window_ranges(body, 0);
        lemma_window_ranges(body, 0);
        let all = ranges.map_values(|r: (int, int)| text::trimmed(body.subrange(r.0, r.1)));
        let keep = |w: Seq<char>| w.len() > 0;
        assert(all.contains(windows(body)[w])) by {
            all.lemma_filter_contains_rev(keep, windows(body)[w]);
        }
        let i = all.index_of(windows(body)[w]);
        let r = ranges[i];
        let (a, b) = text::lemma_trimmed(body.subrange(r.0, r.1));
    }
}

// ── sections ────────────────────────────────────────────────────────────────
/// What the outline of a document depends on in a markdown event.
#[derive(Debug, Clone, PartialEq, Eq)]
pub enum MarkdownEvent {
    /// A heading of this level opens.
    HeadingStart(u8),
    HeadingEnd,
    Text(String),
    Code(String),
    SoftBreak,
    HardBreak,
    ParagraphEnd,
    ItemEnd,
    CodeBlockEnd,
    /// Any other event.
    Other,
}

/// What a [`MarkdownEvent`] holds.
pub enum MarkdownEventView {
    HeadingStart(int),
    HeadingEnd,
    Text(Seq<char>),
    Code(Seq<char>),
    SoftBreak,
    HardBreak,
    ParagraphEnd,
    ItemEnd,
    CodeBlockEnd,
    Other,
}

impl View for MarkdownEvent {
    type V = MarkdownEventView;

    open spec fn view(&self) -> MarkdownEventView {
        match self {
            MarkdownEvent::HeadingStart(level) => MarkdownEventView::HeadingStart(*level as int),
            MarkdownEvent::HeadingEnd => MarkdownEventView::HeadingEnd,
            MarkdownEvent::Text(t) => MarkdownEventView::Text(t@),
            MarkdownEvent::Code(t) => MarkdownEventView::Code(t@),
            MarkdownEvent::SoftBreak => MarkdownEventView::SoftBreak,
            MarkdownEvent::HardBreak => MarkdownEventView::HardBreak,
            MarkdownEvent::ParagraphEnd => MarkdownEventView::ParagraphEnd,
            MarkdownEvent::ItemEnd => MarkdownEventView::ItemEnd,
            MarkdownEvent::CodeBlockEnd => MarkdownEventView::CodeBlockEnd,
            MarkdownEvent::Other => MarkdownEventView::Other,
        }
    }
}

/// The views of a sequence of events.
pub open spec fn event_views(v: Seq<MarkdownEvent>) -> Seq<MarkdownEventView> {
    v.map_values(|e: MarkdownEvent| e@)
}

/// The events that `pulldown_cmark::Parser::new` yields for a source, without
/// any extension of CommonMark.
pub uninterp spec fn parsed_events(source: Seq<char>) -> Seq<MarkdownEventView>;

/// Runs `pulldown_cmark::Parser::new` over `source` to its end and hands its
/// events out one for one. The contract names them: CommonMark, which takes
/// pages to state, defines them. The level of a heading is the discriminant of
/// `pulldown_cmark::HeadingLevel`, 1 for `H1` to 6 for `H6`.
#[verifier::external_body]
fn markdown_events(source: &str) -> (r: Vec<MarkdownEvent>)
    ensures
        event_views(r@) == parsed_events(source@),
{
    Parser::new(source).map(|event| match event {
        Event::Start(Tag::Heading { level, .. }) => MarkdownEvent::HeadingStart(level as u8),
        Event::End(TagEnd::Heading(_)) => MarkdownEvent::HeadingEnd,
        Event::Text(t) => MarkdownEvent::Text(t.to_string()),
        Event::Code(t) => MarkdownEvent::Code(t.to_string()),
        Event::SoftBreak => MarkdownEvent::SoftBreak,
        Event::HardBreak => MarkdownEvent::HardBreak,
        Event::End(TagEnd::Paragraph) => MarkdownEvent::ParagraphEnd,
        Event::End(TagEnd::Item) => MarkdownEvent::ItemEnd,
        Event::End(TagEnd::CodeBlock) => MarkdownEvent::CodeBlockEnd,
        _ => MarkdownEvent::Other,
    }).collect()
}

/// A document as far as it has been read.
#[verifier::ext_equal]
pub struct Outline {
    /// The sections that are closed.
    pub sections: Seq<SectionView>,
    /// The enclosing headings, outermost first, each with its level.
    pub stack: Seq<(int, Seq<char>)>,
    /// The body read since the last heading.
    pub body: Seq<char>,
    /// Whether a heading is being read.
    pub in_heading: bool,
    /// The level of the heading that was opened last.
    pub level: int,
    /// The text of the heading that was opened last.
    pub title: Seq<char>,
}

/// The titles of a stack of headings.
pub open spec fn titles(stack: Seq<(int, Seq<char>)>) -> Seq<Seq<char>> {
    stack.map_values(|h: (int, Seq<char>)| h.1)
}

/// The headings of `stack` that enclose a heading of this level.
pub open spec fn enclosing(stack: Seq<(int, Seq<char>)>, level: int) -> Seq<(int, Seq<char>)>
    decreases stack.len(),
{
    if stack.len() > 0 && stack.last().0 >= level {
        enclosing(stack.drop_last(), level)
    } else {
        stack
    }
}

impl Outline {
    /// Nothing has been read.
    pub open spec fn start() -> Outline {
        Outline {
            sections: Seq::empty(),
            stack: Seq::empty(),
            body: Seq::empty(),
            in_heading: false,
            level: 0,
            title: Seq::empty(),
        }
    }

    /// Closes the section under the current headings, unless it is blank.
    pub open spec fn close_section(self) -> Outline {
        let body = text::trimmed(self.body);
        Outline {
            sections: if body.len() > 0 {
                self.sections.push(SectionView { heading_path: titles(self.stack), body })
            } else {
                self.sections
            },
            body: Seq::empty(),
            ..self
        }
    }

    /// Reads text, into the heading or the body.
    pub open spec fn read_text(self, t: Seq<char>) -> Outline {
        if self.in_heading {
            Outline { title: self.title + t, ..self }
        } else {
            Outline { body: self.body + t, ..self }
        }
    }

    /// Reads the end of a line; in a heading it has no effect.
    pub open spec fn end_line(self) -> Outline {
        if self.in_heading {
            self
        } else {
            Outline { body: self.body.push('\n'), ..self }
        }
    }

    /// Reads one event. A heading closes the section before it; once read, it
    /// replaces the headings of its own level and below on the stack.
    pub open spec fn read(self, event: MarkdownEventView) -> Outline {
        match event {
            MarkdownEventView::HeadingStart(level) => Outline {
                in_heading: true,
                level,
                title: Seq::empty(),
                ..self.close_section()
            },
            MarkdownEventView::HeadingEnd => Outline {
                in_heading: false,
                stack: enclosing(self.stack, self.level).push(
                    (self.level, text::trimmed(self.title)),
                ),
                ..self
            },
            MarkdownEventView::Text(t) => self.read_text(t),
            MarkdownEventView::Code(t) => self.read_text(t),
            MarkdownEventView::SoftBreak => self.end_line(),
            MarkdownEventView::HardBreak => self.end_line(),
            MarkdownEventView::ParagraphEnd => self.end_line(),
            MarkdownEventView::ItemEnd => self.end_line(),
            MarkdownEventView::CodeBlockEnd => self.end_line(),
            MarkdownEventView::Other => self,
        }
    }
}

/// The document after these events.
pub open spec fn outline(events: Seq<MarkdownEventView>) -> Outline
    decreases events.len(),
{
    if events.len() == 0 {
        Outline::start()
    } else {
        outline(events.drop_last()).read(events.last())
    }
}

/// The sections of a document.
pub open spec fn sections_of(events: Seq<MarkdownEventView>) -> Seq<SectionView> {
    outline(events).close_section().sections
}

/// Reads a document event by event.
struct OutlineReader {
    sections: Vec<Section>,
    stack: Vec<(u8, String)>,
    body: String,
    in_heading: bool,
    level: u8,
    title: String,
}

spec fn stack_view(stack: Seq<(u8, String)>) -> Seq<(int, Seq<char>)> {
    stack.map_values(|h: (u8, String)| (h.0 as int, h.1@))
}

impl View for OutlineReader {
    type V = Outline;

    closed spec fn view(&self) -> Outline {
        Outline {
            sections: section_views(self.sections@),
            stack: stack_view(self.stack@),
            body: self.body@,
            in_heading: self.in_heading,
            level: self.level as int,
            title: self.title@,
        }
    }
}

impl OutlineReader {
    fn new() -> (r: OutlineReader)
        ensures
            r@ == Outline::start(),
    {
        let r = OutlineReader {
            sections: Vec::new(),
            stack: Vec::new(),
            body: String::new(),
            in_heading: false,
            level: 0,
            title: String::new(),
        };
        assert(r@ =~= Outline::start());
        r
    }

    /// The titles of the enclosing headings.
    fn heading_path(&self) -> (r: Vec<String>)
        ensures
            text::texts(r@) == titles(self@.stack),
    {
        let mut path: Vec<String> = Vec::new();
        let mut i: usize = 0;
        let ghost all = titles(stack_view(self.stack@));
        while i < self.stack.len()
            invariant
                i <= self.stack@.len(),
                all == titles(stack_view(self.stack@)),
                text::texts(path@) == all.take(i as int),
            decreases self.stack@.len() - i,
        {
            let ghost before = text::texts(path@);
            path.push(self.stack[i].1.clone());
            assert(text::texts(path@) =~= before.push(all[i as int]));
            assert(all.take(i + 1) =~= all.take(i as int).push(all[i as int]));
            i = i + 1;
        }
        assert(all.take(i as int) =~= all);
        path
    }

    fn close_section(&mut self)
        ensures
            final(self)@ == old(self)@.close_section(),
    {
        let body = text::trim(self.body.as_str());
        if !body.as_str().is_empty() {
            let section = Section { heading_path: self.heading_path(), body };
            let ghost before = section_views(self.sections@);
            self.sections.push(section);
            assert(section_views(self.sections@) =~= before.push(section@));
        }
        self.body = String::new();
        assert(self@ =~= old(self)@.close_section());
    }

    fn read_text(&mut self, t: &str)
        ensures
            final(self)@ == old(self)@.read_text(t@),
    {
        if self.in_heading {
            self.title.append(t);
        } else {
            self.body.append(t);
        }
        assert(self@ =~= old(self)@.read_text(t@));
    }

    fn end_line(&mut self)
        ensures
            final(self)@ == old(self)@.end_line(),
    {
        if !self.in_heading {
            self.body.push('\n');
        }
        assert(self@ =~= old(self)@.end_line());
    }

    fn start_heading(&mut self, level: u8)
        ensures
            final(self)@ == old(self)@.read(MarkdownEventView::HeadingStart(level as int)),
    {
        self.close_section();
        self.in_heading = true;
        self.level = level;
        self.title = String::new();
        assert(self@ =~= old(self)@.read(MarkdownEventView::HeadingStart(level as int)));
    }

    fn end_heading(&mut self)
        ensures
            final(self)@ == old(self)@.read(MarkdownEventView::HeadingEnd),
    {
        let ghost old_stack = self@.stack;
        self.in_heading = false;
        while self.stack.len() > 0 && self.stack[self.stack.len() - 1].0 >= self.level
            invariant
                enclosing(stack_view(self.stack@), self.level as int) == enclosing(
                    old_stack,
                    self.level as int,
                ),
                self@ == (Outline { stack: stack_view(self.stack@), in_heading: false, ..old(self)@ }),
            decreases self.stack@.len(),
        {
            let ghost before = stack_view(self.stack@);
            self.stack.pop();
            assert(stack_view(self.stack@) =~= before.drop_last());
            assert(self@ =~= (Outline {
                stack: stack_view(self.stack@),
                in_heading: false,
                ..old(self)@
            }));
        }
        let title = text::trim(self.title.as_str());
        let ghost before = stack_view(self.stack@);
        self.stack.push((self.level, title));
        assert(stack_view(self.stack@) =~= before.push((self.level as int, title@)));
        assert(self@ =~= old(self)@.read(MarkdownEventView::HeadingEnd));
    }

    fn read(&mut self, event: &MarkdownEvent)
        ensures
            final(self)@ == old(self)@.read(event@),
    {
        match event {
            MarkdownEvent::HeadingStart(level) => self.start_heading(*level),
            MarkdownEvent::HeadingEnd => self.end_heading(),
            MarkdownEvent::Text(t) => self.read_text(t.as_str()),
            MarkdownEvent::Code(t) => self.read_text(t.as_str()),
            MarkdownEvent::SoftBreak => self.end_line(),
            MarkdownEvent::HardBreak => self.end_line(),
            MarkdownEvent::ParagraphEnd => self.end_line(),
            MarkdownEvent::ItemEnd => self.end_line(),
            MarkdownEvent::CodeBlockEnd => self.end_line(),
            MarkdownEvent::Other => {},
        }
    }
}

/// The sections of a document given by its events.
pub fn sections_of_events(events: &Vec<MarkdownEvent>) -> (r: Vec<Section>)
    ensures
        section_views(r@) == sections_of(event_views(events@)),
{
    let mut reader = OutlineReader::new();
    let mut i: usize = 0;
    let ghost all = event_views(events@);
    assert(all.take(0) =~= Seq::empty());
    while i < events.len()
        invariant
            i <= events@.len(),
            all == event_views(events@),
            reader@ == outline(all.take(i as int)),
        decreases events@.len() - i,
    {
        assert(all.take(i + 1).drop_last() =~= all.take(i as int));
        reader.read(&events[i]);
        i = i + 1;
    }
    assert(all.take(i as int) =~= all);
    reader.close_section();
    reader.sections
}

/// The sections of a markdown source: its text under the running stack of
/// headings. A heading closes the section before it and updates the stack.
pub fn parse_sections(source: &str) -> (r: Vec<Section>)
    ensures
        section_views(r@) == sections_of(parsed_events(source@)),
{
    sections_of_events(&markdown_events(source))
}

// ── chunks ──────────────────────────────────────────────────────────────────
/// The id of the chunk with this ordinal in a document.
pub open spec fn chunk_id(relpath: Seq<char>, ordinal: nat) -> Seq<char> {
    relpath.push('#') + text::decimal(ordinal)
}

/// The chunks of a document's sections: one for each window, numbered through
/// the whole document.
pub open spec fn chunks_of(relpath: Seq<char>, sections: Seq<SectionView>) -> Seq<ChunkView>
    decreases sections.len(),
{
    if sections.len() == 0 {
        Seq::empty()
    } else {
        let front = chunks_of(relpath, sections.drop_last());
        let last = sections.last();
        front + Seq::new(
            windows(last.body).len(),
            |i: int|
                ChunkView {
                    id: chunk_id(relpath, (front.len() + i) as nat),
                    path: relpath,
                    heading_path: last.heading_path,
                    text: windows(last.body)[i],
                },
        )
    }
}

/// The chunks of a markdown document.
pub open spec fn markdown_chunks(relpath: Seq<char>, source: Seq<char>) -> Seq<ChunkView> {
    chunks_of(relpath, sections_of(parsed_events(source)))
}

/// The chunks of a document without heading structure.
pub open spec fn plain_chunks(relpath: Seq<char>, source: Seq<char>) -> Seq<ChunkView> {
    chunks_of(relpath, seq![SectionView { heading_path: Seq::empty(), body: source }])
}

/// The part of a path behind its last dot; none for a path without a dot.
pub open spec fn extension(relpath: Seq<char>) -> Option<Seq<char>> {
    let parts = text::pieces(relpath, text::Separator::Char('.'));
    if parts.len() > 1 {
        Some(parts.last())
    } else {
        None
    }
}

/// The extension of a path is what follows its last dot: it holds no dot, and
/// the path ends with a dot and it. A path has none only where it has no dot.
pub proof fn law_extension(relpath: Seq<char>)
    ensures
        extension(relpath) is Some <==> relpath.contains('.'),
        extension(relpath) matches Some(ext) ==> !ext.contains('.') && exists|at: int|
            0 <= at < relpath.len() && relpath[at] == '.' && #[trigger] relpath.skip(at + 1) == ext,
{
    let sep = text::Separator::Char('.');
    let parts = text::pieces(relpath, sep);
    text::lemma_pieces_nonempty(relpath, sep);
    text::law_split_loses_nothing(relpath, '.');
    let last = parts.last();
    assert forall|j: int| 0 <= j < last.len() implies last[j] != '.' by {
        text::lemma_pieces_free(relpath, sep, parts.len() - 1, j);
    }
    if parts.len() > 1 {
        let at = relpath.len() - last.len() - 1;
        assert(relpath.skip(at + 1) =~= last);
        assert(relpath[at] == '.');
    } else {
        assert(relpath == last);
    }
}

/// Whether a path names a markdown file: `.md` or `.mdx` in any case.
pub open spec fn is_markdown(relpath: Seq<char>) -> bool {
    match extension(relpath) {
        Some(ext) => text::ascii_lowered(ext) == seq!['m', 'd'] || text::ascii_lowered(ext)
            == seq!['m', 'd', 'x'],
        None => false,
    }
}

/// The chunks of a file, by the kind that its path names.
pub open spec fn file_chunks(relpath: Seq<char>, source: Seq<char>) -> Seq<ChunkView> {
    if is_markdown(relpath) {
        markdown_chunks(relpath, source)
    } else {
        plain_chunks(relpath, source)
    }
}

/// Turns sections into chunks, cutting those over the size cap into windows.
/// Ids are given in sequence over the whole document.
pub fn windows_to_chunks(relpath: &str, sections: &Vec<Section>) -> (r: Vec<Chunk>)
    ensures
        chunk_views(r@) == chunks_of(relpath@, section_views(sections@)),
{
    let mut chunks: Vec<Chunk> = Vec::new();
    let mut i: usize = 0;
    let ghost all = section_views(sections@);
    assert(chunk_views(chunks@) =~= chunks_of(relpath@, all.take(0)));
    while i < sections.len()
        invariant
            i <= sections@.len(),
            all == section_views(sections@),
            chunk_views(chunks@) == chunks_of(relpath@, all.take(i as int)),
        decreases sections@.len() - i,
    {
        let section = &sections[i];
        let texts = window_text(section.body.as_str());
        let ghost front = chunk_views(chunks@);
        let ghost added = Seq::new(
            windows(section.body@).len(),
            |j: int|
                ChunkView {
                    id: chunk_id(relpath@, (front.len() + j) as nat),
                    path: relpath@,
                    heading_path: section@.heading_path,
                    text: windows(section.body@)[j],
                },
        );
        assert(all.take(i + 1).drop_last() =~= all.take(i as int));
        assert(all.take(i + 1).last() == section@);
        assert(chunks_of(relpath@, all.take(i + 1)) == front + added);
        let mut j: usize = 0;
        assert(front + added.take(0) =~= front);
        while j < texts.len()
            invariant
                j <= texts@.len(),
                text::texts(texts@) == windows(section.body@),
                added == Seq::new(
                    windows(section.body@).len(),
                    |j: int|
                        ChunkView {
                            id: chunk_id(relpath@, (front.len() + j) as nat),
                            path: relpath@,
                            heading_path: section@.heading_path,
                            text: windows(section.body@)[j],
                        },
                ),
                chunk_views(chunks@) == front + added.take(j as int),
            decreases texts@.len() - j,
        {
            let mut id = relpath.to_owned();
            id.push('#');
            text::push_decimal(&mut id, chunks.len());
            let chunk = Chunk {
                id,
                path: relpath.to_owned(),
                heading_path: text::copy_strings(&section.heading_path),
                text: texts[j].clone(),
            };
            let ghost before = chunk_views(chunks@);
            assert(text::texts(texts@)[j as int] == texts@[j as int]@);
            assert(chunks@.len() == chunk_views(chunks@).len());
            assert(chunk@.id == added[j as int].id);
            assert(chunk@ =~= added[j as int]);
            chunks.push(chunk);
            assert(chunk_views(chunks@) =~= before.push(chunk@));
            assert(front + added.take(j + 1) =~= (front + added.take(j as int)).push(
                added[j as int],
            ));
            j = j + 1;
        }
        assert(added.take(j as int) =~= added);
        i = i + 1;
    }
    assert(all.take(i as int) =~= all);
    chunks
}

/// Cuts a markdown document into chunks: split on headings, then windowed to
/// the size cap. `relpath` seeds the chunk ids.
pub fn chunk_markdown(relpath: &str, source: &str) -> (r: Vec<Chunk>)
    ensures
        chunk_views(r@) == markdown_chunks(relpath@, source@),
{
    windows_to_chunks(relpath, &parse_sections(source))
}

/// Cuts a document without heading structure into chunks by the size window.
pub fn chunk_plain(relpath: &str, source: &str) -> (r: Vec<Chunk>)
    ensures
        chunk_views(r@) == plain_chunks(relpath@, source@),
{
    let section = Section { heading_path: Vec::new(), body: source.to_owned() };
    let mut sections: Vec<Section> = Vec::new();
    sections.push(section);
    assert(section@.heading_path =~= Seq::empty());
    assert(section_views(sections@) =~= seq![
        SectionView { heading_path: Seq::empty(), body: source@ },
    ]);
    windows_to_chunks(relpath, &sections)
}

/// Cuts a file into chunks: markdown-aware for `.md` and `.mdx`, plain
/// otherwise, also where the path has no extension.
pub fn chunk_file(relpath: &str, source: &str) -> (r: Vec<Chunk>)
    ensures
        chunk_views(r@) == file_chunks(relpath@, source@),
{
    let parts = text::split(relpath, text::Separator::Char('.'));
    proof {
        text::lemma_pieces_nonempty(relpath@, text::Separator::Char('.'));
        reveal_strlit("md");
        reveal_strlit("mdx");
        assert("md"@ =~= seq!['m', 'd']);
        assert("mdx"@ =~= seq!['m', 'd', 'x']);
    }
    assert(text::texts(parts@).last() == parts@.last()@);
    assert(text::texts(parts@).len() == parts@.len());
    if parts.len() < 2 {
        return chunk_plain(relpath, source);
    }
    let ext = text::to_ascii_lower(parts[parts.len() - 1].as_str());
    if text::text_eq(ext.as_str(), "md") || text::text_eq(ext.as_str(), "mdx") {
        chunk_markdown(relpath, source)
    } else {
        chunk_plain(relpath, source)
    }
}

// ── what holds of every document ────────────────────────────────────────────
/// Whether the levels of a stack of headings grow strictly from the outermost
/// heading in.
pub open spec fn nested(stack: Seq<(int, Seq<char>)>) -> bool {
    forall|i: int, j: int|
        0 <= i < j < stack.len() ==> (#[trigger] stack[i]).0 < (#[trigger] stack[j]).0
}

/// The headings that enclose a heading are those of a smaller level: the ones
/// before the first of its own level or a greater one.
pub proof fn law_enclosing(stack: Seq<(int, Seq<char>)>, level: int)
    requires
        nested(stack),
    ensures
        ({
            let outer = enclosing(stack, level);
            &&& outer == stack.take(outer.len() as int)
            &&& outer.len() <= stack.len()
            &&& forall|i: int| 0 <= i < outer.len() ==> (#[trigger] outer[i]).0 < level
            &&& forall|i: int| outer.len() <= i < stack.len() ==> (#[trigger] stack[i]).0 >= level
        }),
    decreases stack.len(),
{
    if stack.len() > 0 && stack.last().0 >= level {
        law_enclosing(stack.drop_last(), level);
        let outer = enclosing(stack, level);
        assert(outer =~= stack.take(outer.len() as int));
        assert forall|i: int| outer.len() <= i < stack.len() implies (#[trigger] stack[i]).0
            >= level by {
            if i < stack.len() - 1 {
                assert(stack.drop_last()[i] == stack[i]);
            }
        }
    } else {
        assert(stack.take(stack.len() as int) =~= stack);
        if stack.len() > 0 {
            assert forall|i: int| 0 <= i < stack.len() implies (#[trigger] stack[i]).0 < level by {
                if i < stack.len() - 1 {
                    assert(stack[i].0 < stack[stack.len() - 1].0);
                }
            }
        }
    }
}

/// At every place of a document the levels of the enclosing headings grow
/// strictly: a heading never stands under one of its own level or below.
pub proof fn law_headings_nested(events: Seq<MarkdownEventView>)
    ensures
        nested(outline(events).stack),
    decreases events.len(),
{
    if events.len() > 0 {
        law_headings_nested(events.drop_last());
        let before = outline(events.drop_last());
        if events.last() is HeadingEnd {
            law_enclosing(before.stack, before.level);
        }
    }
}

/// No section is blank, and its body has no white space at the ends.
pub proof fn law_sections_trimmed(events: Seq<MarkdownEventView>, i: int)
    requires
        0 <= i < sections_of(events).len(),
    ensures
        sections_of(events)[i].body.len() > 0,
        !text::white_space(sections_of(events)[i].body.first()),
        !text::white_space(sections_of(events)[i].body.last()),
    decreases events.len(),
{
    let before = outline(events);
    if i < before.sections.len() {
        lemma_closed_sections_trimmed(events, i);
    } else {
        let r = text::lemma_trimmed(before.body);
    }
}

proof fn lemma_closed_sections_trimmed(events: Seq<MarkdownEventView>, i: int)
    requires
        0 <= i < outline(events).sections.len(),
    ensures
        outline(events).sections[i].body.len() > 0,
        !text::white_space(outline(events).sections[i].body.first()),
        !text::white_space(outline(events).sections[i].body.last()),
    decreases events.len(),
{
    if events.len() > 0 {
        let before = outline(events.drop_last());
        if i < before.sections.len() {
            lemma_closed_sections_trimmed(events.drop_last(), i);
        } else {
            let r = text::lemma_trimmed(before.body);
        }
    }
}

proof fn lemma_chunk_from(relpath: Seq<char>, sections: Seq<SectionView>, i: int) -> (r: (int, int))
    requires
        0 <= i < chunks_of(relpath, sections).len(),
    ensures
        ({
            let c = chunks_of(relpath, sections)[i];
            let (s, w) = r;
            &&& 0 <= s < sections.len()
            &&& 0 <= w < windows(sections[s].body).len()
            &&& c.id == chunk_id(relpath, i as nat)
            &&& c.path == relpath
            &&& c.heading_path == sections[s].heading_path
            &&& c.text == windows(sections[s].body)[w]
        }),
    decreases sections.len(),
{
    let front = chunks_of(relpath, sections.drop_last());
    if i < front.len() {
        lemma_chunk_from(relpath, sections.drop_last(), i)
    } else {
        (sections.len() - 1, i - front.len())
    }
}

/// Every chunk of a file carries the file's path, the id `<relpath>#<ordinal>`
/// with its own place as the ordinal, and a text within the size cap.
pub proof fn law_file_chunks(relpath: Seq<char>, source: Seq<char>, i: int)
    requires
        0 <= i < file_chunks(relpath, source).len(),
    ensures
        file_chunks(relpath, source)[i].id == chunk_id(relpath, i as nat),
        file_chunks(relpath, source)[i].path == relpath,
        file_chunks(relpath, source)[i].text.len() <= CHUNK_CHAR_CAP,
{
    let sections = if is_markdown(relpath) {
        sections_of(parsed_events(source))
    } else {
        seq![SectionView { heading_path: Seq::empty(), body: source }]
    };
    let (s, w) = lemma_chunk_from(relpath, sections, i);
    law_windows_within_cap(sections[s].body, w);
}

/// A chunk of a document without heading structure has an empty heading path.
pub proof fn law_plain_heading_path(relpath: Seq<char>, source: Seq<char>, i: int)
    requires
        0 <= i < plain_chunks(relpath, source).len(),
    ensures
        plain_chunks(relpath, source)[i].heading_path.len() == 0,
{
    let sections = seq![SectionView { heading_path: Seq::<Seq<char>>::empty(), body: source }];
    let (s, w) = lemma_chunk_from(relpath, sections, i);
}

proof fn lemma_chunk_id(relpath: Seq<char>, n: nat)
    ensures
        chunk_id(relpath, n).len() > relpath.len(),
        chunk_id(relpath, n)[relpath.len() as int] == '#',
        forall|p: int|
            relpath.len() < p < chunk_id(relpath, n).len() ==> #[trigger] chunk_id(relpath, n)[p]
                != '#',
{
    text::lemma_decimal_digits(n);
    let id = chunk_id(relpath, n);
    assert forall|p: int| relpath.len() < p < id.len() implies #[trigger] id[p] != '#' by {
        assert(id[p] == text::decimal(n)[p - relpath.len() - 1]);
    }
}

/// Chunk ids tell documents and ordinals apart: two chunks have the same id
/// only if they are the same chunk of the same file.
pub proof fn law_chunk_ids_distinct(a: Seq<char>, i: nat, b: Seq<char>, j: nat)
    requires
        chunk_id(a, i) == chunk_id(b, j),
    ensures
        a == b,
        i == j,
{
    let id = chunk_id(a, i);
    lemma_chunk_id(a, i);
    lemma_chunk_id(b, j);
    assert(id.take(a.len() as int) =~= a);
    assert(id.take(b.len() as int) =~= b);
    assert(id.skip(a.len() as int + 1) =~= text::decimal(i));
    assert(id.skip(b.len() as int + 1) =~= text::decimal(j));
    text::lemma_decimal_injective(i, j);
}

// ── what the parts mean ─────────────────────────────────────────────────────
/// The view of a chunk holds its fields, and that of a section its own, with
/// all headings of its path.
pub proof fn law_chunk_views(c: Chunk, s: Section)
    ensures
        c@.id == c.id@,
        c@.path == c.path@,
        c@.text == c.text@,
        c@.heading_path.len() == c.heading_path@.len(),
        forall|i: int|
            0 <= i < c.heading_path@.len() ==> #[trigger] c@.heading_path[i] == c.heading_path@[i]@,
        s@.body == s.body@,
        s@.heading_path.len() == s.heading_path@.len(),
        forall|i: int|
            0 <= i < s.heading_path@.len() ==> #[trigger] s@.heading_path[i] == s.heading_path@[i]@,
{
}

/// The views of several chunks, sections or events are those of each, in order.
pub proof fn law_sequence_views(chunks: Seq<Chunk>, sections: Seq<Section>, events: Seq<MarkdownEvent>)
    ensures
        chunk_views(chunks).len() == chunks.len(),
        forall|i: int| 0 <= i < chunks.len() ==> #[trigger] chunk_views(chunks)[i] == chunks[i]@,
        section_views(sections).len() == sections.len(),
        forall|i: int|
            0 <= i < sections.len() ==> #[trigger] section_views(sections)[i] == sections[i]@,
        event_views(events).len() == events.len(),
        forall|i: int| 0 <= i < events.len() ==> #[trigger] event_views(events)[i] == events[i]@,
{
}

/// An event is read as what it is, with its whole text.
pub proof fn law_event_views(e: MarkdownEvent)
    ensures
        e matches MarkdownEvent::HeadingStart(level) ==> e@ == MarkdownEventView::HeadingStart(
            level as int,
        ),
        e matches MarkdownEvent::Text(t) ==> e@ == MarkdownEventView::Text(t@),
        e matches MarkdownEvent::Code(t) ==> e@ == MarkdownEventView::Code(t@),
        e is HeadingEnd <==> e@ is HeadingEnd,
        e is SoftBreak <==> e@ is SoftBreak,
        e is HardBreak <==> e@ is HardBreak,
        e is ParagraphEnd <==> e@ is ParagraphEnd,
        e is ItemEnd <==> e@ is ItemEnd,
        e is CodeBlockEnd <==> e@ is CodeBlockEnd,
        e is Other <==> e@ is Other,
{
}

/// The last white space of a range is white space in it, and none follows; the
/// range has none only where it holds no white space.
pub proof fn law_last_white_space(s: Seq<char>, from: int, to: int)
    ensures
        last_white_space(s, from, to) matches Some(at) ==> from <= at < to && text::white_space(
            s[at],
        ) && forall|i: int| at < i < to ==> !text::white_space(#[trigger] s[i]),
        last_white_space(s, from, to) is None ==> forall|i: int|
            from <= i < to ==> !text::white_space(#[trigger] s[i]),
    decreases to - from,
{
    if to > from && !text::white_space(s[to - 1]) {
        law_last_white_space(s, from, to - 1);
    }
}

/// Whether a window of `s` from `start` rightly ends at `end`: at the end of
/// the text, where 1200 characters reach it; else behind the last white space
/// of the last 180 of 1200 characters, or at their end where these hold none.
pub open spec fn ends_rightly(s: Seq<char>, start: int, end: int) -> bool {
    if start + 1200 >= s.len() {
        end == s.len()
    } else {
        &&& start + 1020 < end <= start + 1200
        &&& forall|i: int| end <= i < start + 1200 ==> !text::white_space(#[trigger] s[i])
        &&& text::white_space(s[end - 1]) || (end == start + 1200 && forall|i: int|
            start + 1020 <= i < end ==> !text::white_space(#[trigger] s[i]))
    }
}

/// Every window ends rightly, and nowhere else could it.
pub proof fn law_window_end(s: Seq<char>, start: int, end: int)
    requires
        0 <= start < s.len(),
    ensures
        ends_rightly(s, start, window_end(s, start)),
        ends_rightly(s, start, end) ==> end == window_end(s, start),
{
    law_last_white_space(s, start + CHUNK_LOOKBACK, start + CHUNK_CHAR_CAP);
    let found = window_end(s, start);
    if ends_rightly(s, start, end) && start + 1200 < s.len() && end != found {
        if end < found {
            assert(!text::white_space(s[found - 1]));
            assert(text::white_space(s[end - 1]));
        } else {
            assert(!text::white_space(s[end - 1]));
            assert(text::white_space(s[found - 1]));
        }
    }
}

/// Whether a window rightly follows another one: that one does not reach the
/// end of the text, and the window starts 150 characters before its end.
pub open spec fn follows(s: Seq<char>, a: (int, int), b: (int, int)) -> bool {
    a.1 < s.len() && b.0 == a.1 - 150
}

/// The windows of a long body: the first starts at its beginning, each ends
/// rightly, each rightly follows the one before it, and the last ends with the
/// body.
pub proof fn law_window_ranges(s: Seq<char>, start: int)
    requires
        0 <= start < s.len(),
    ensures
        ({
            let ranges = window_ranges(s, start);
            &&& ranges.len() > 0
            &&& ranges[0].0 == start
            &&& ranges.last().1 == s.len()
            &&& forall|i: int|
                #![trigger ranges[i]]
                0 <= i < ranges.len() ==> 0 <= ranges[i].0 < s.len() && ends_rightly(
                    s,
                    ranges[i].0,
                    ranges[i].1,
                )
            &&& forall|i: int, j: int|
                #![trigger ranges[i], ranges[j]]
                0 <= i < ranges.len() && j == i + 1 && j < ranges.len() ==> follows(
                    s,
                    ranges[i],
                    ranges[j],
                )
        }),
    decreases s.len() - start,
{
    lemma_window_end(s, start);
    let end = window_end(s, start);
    law_window_end(s, start, end);
    let ranges = window_ranges(s, start);
    if end < s.len() {
        let next = end - CHUNK_OVERLAP;
        law_window_ranges(s, next);
        let rest = window_ranges(s, next);
        assert(ranges =~= seq![(start, end)] + rest);
        assert forall|i: int| #![trigger ranges[i]] 0 <= i < ranges.len() implies 0 <= ranges[i].0
            < s.len() && ends_rightly(s, ranges[i].0, ranges[i].1) by {
            if i > 0 {
                assert(ranges[i] == rest[i - 1]);
            }
        }
        assert forall|i: int, j: int|
            #![trigger ranges[i], ranges[j]]
            0 <= i < ranges.len() && j == i + 1 && j < ranges.len() implies follows(
            s,
            ranges[i],
            ranges[j],
        ) by {
            assert(ranges[j] == rest[j - 1]);
            if i > 0 {
                assert(ranges[i] == rest[i - 1]);
            }
        }
        assert(ranges.last() == rest.last());
    } else {
        assert(ranges =~= seq![(start, end)]);
        assert(ranges[0] == (start, end));
    }
}

/// The texts of ranges are those of the ranges one after another: of a range
/// the text without the white space at its ends, and nothing of a blank one.
pub proof fn law_range_texts(s: Seq<char>, a: Seq<(int, int)>, b: Seq<(int, int)>, r: (int, int))
    ensures
        range_texts(s, a + b) == range_texts(s, a) + range_texts(s, b),
        range_texts(s, Seq::empty()) == Seq::<Seq<char>>::empty(),
        text::trimmed(s.subrange(r.0, r.1)).len() > 0 ==> range_texts(s, seq![r]) == seq![
            text::trimmed(s.subrange(r.0, r.1)),
        ],
        text::trimmed(s.subrange(r.0, r.1)).len() == 0 ==> range_texts(s, seq![r]) == Seq::<
            Seq<char>,
        >::empty(),
{
    let f = |r: (int, int)| text::trimmed(s.subrange(r.0, r.1));
    let keep = |w: Seq<char>| w.len() > 0;
    assert((a + b).map_values(f) =~= a.map_values(f) + b.map_values(f));
    Seq::filter_distributes_over_add(a.map_values(f), b.map_values(f), keep);
    let none = Seq::<(int, int)>::empty();
    reveal(Seq::filter);
    assert(none.map_values(f) =~= Seq::empty());
    assert(range_texts(s, none) =~= Seq::empty());
    lemma_range_texts_push(s, none, r);
    assert(none.push(r) =~= seq![r]);
    assert(range_texts(s, none).push(f(r)) =~= seq![f(r)]);
}

/// A body of up to 1200 characters is its own window; a longer one has the
/// texts of its ranges as windows.
pub proof fn law_windows(body: Seq<char>)
    ensures
        body.len() <= 1200 ==> windows(body) == seq![body],
        body.len() > 1200 ==> windows(body) == range_texts(body, window_ranges(body, 0)),
{
}

/// The id of a chunk is the path, a number sign and the ordinal.
pub proof fn law_chunk_id(relpath: Seq<char>, ordinal: nat)
    ensures
        chunk_id(relpath, ordinal).take(relpath.len() as int) == relpath,
        chunk_id(relpath, ordinal)[relpath.len() as int] == '#',
        chunk_id(relpath, ordinal).skip(relpath.len() as int + 1) == text::decimal(ordinal),
{
    let id = chunk_id(relpath, ordinal);
    assert(id.take(relpath.len() as int) =~= relpath);
    assert(id.skip(relpath.len() as int + 1) =~= text::decimal(ordinal));
}

/// One section more leaves the chunks before it as they are and adds one chunk
/// for each of its windows, in order, with the section's heading path and ids
/// that go on counting. No section gives no chunk.
pub proof fn law_chunks_of_one_more_section(
    relpath: Seq<char>,
    sections: Seq<SectionView>,
    section: SectionView,
)
    ensures
        chunks_of(relpath, Seq::empty()) == Seq::<ChunkView>::empty(),
        ({
            let before = chunks_of(relpath, sections);
            let after = chunks_of(relpath, sections.push(section));
            &&& after.len() == before.len() + windows(section.body).len()
            &&& after.take(before.len() as int) == before
            &&& forall|w: int|
                #![trigger windows(section.body)[w]]
                0 <= w < windows(section.body).len() ==> after[before.len() + w].id == chunk_id(
                    relpath,
                    (before.len() + w) as nat,
                ) && after[before.len() + w].path == relpath && after[before.len() + w].heading_path
                    == section.heading_path && after[before.len() + w].text == windows(
                    section.body,
                )[w]
        }),
{
    assert(sections.push(section).drop_last() =~= sections);
    let before = chunks_of(relpath, sections);
    let after = chunks_of(relpath, sections.push(section));
    assert(after.take(before.len() as int) =~= before);
}

/// Whether one of the chunks has this text and this heading path.
pub open spec fn holds_chunk(
    chunks: Seq<ChunkView>,
    chunk_text: Seq<char>,
    heading_path: Seq<Seq<char>>,
) -> bool {
    exists|i: int|
        0 <= i < chunks.len() && (#[trigger] chunks[i]).text == chunk_text && chunks[i].heading_path
            == heading_path
}

/// The texts of the chunks are the windows of the sections, one after another:
/// every window of every section is the text of a chunk with the section's
/// heading path, and there are as many chunks as windows.
pub proof fn law_every_window_is_a_chunk(relpath: Seq<char>, sections: Seq<SectionView>)
    ensures
        chunks_of(relpath, sections).map_values(|c: ChunkView| c.text) == sections.map_values(
            |s: SectionView| windows(s.body),
        ).flatten(),
        chunks_of(relpath, sections).len() == sections.map_values(
            |s: SectionView| windows(s.body),
        ).flatten().len(),
        forall|s: int, w: int|
            0 <= s < sections.len() && 0 <= w < windows(sections[s].body).len() ==> holds_chunk(
                chunks_of(relpath, sections),
                #[trigger] windows(sections[s].body)[w],
                sections[s].heading_path,
            ),
{
    let texts = |c: ChunkView| c.text;
    let cut = |s: SectionView| windows(s.body);
    sections.map_values(cut).lemma_flatten_and_flatten_alt_are_equivalent();
    lemma_chunk_texts(relpath, sections);
    assert(chunks_of(relpath, sections).map_values(texts).len() == chunks_of(
        relpath,
        sections,
    ).len());
    assert forall|s: int, w: int|
        0 <= s < sections.len() && 0 <= w < windows(sections[s].body).len() implies holds_chunk(
        chunks_of(relpath, sections),
        #[trigger] windows(sections[s].body)[w],
        sections[s].heading_path,
    ) by {
        let i = lemma_window_chunk(relpath, sections, s, w);
        assert(chunks_of(relpath, sections)[i].text == windows(sections[s].body)[w]);
    }
}

proof fn lemma_chunk_texts(relpath: Seq<char>, sections: Seq<SectionView>)
    ensures
        chunks_of(relpath, sections).map_values(|c: ChunkView| c.text) == sections.map_values(
            |s: SectionView| windows(s.body),
        ).flatten_alt(),
    decreases sections.len(),
{
    let texts = |c: ChunkView| c.text;
    let cut = |s: SectionView| windows(s.body);
    let all = sections.map_values(cut);
    if sections.len() == 0 {
        assert(chunks_of(relpath, sections).map_values(texts) =~= all.flatten_alt());
    } else {
        let front = sections.drop_last();
        lemma_chunk_texts(relpath, front);
        assert(all.drop_last() =~= front.map_values(cut));
        assert(all.last() == windows(sections.last().body));
        assert(chunks_of(relpath, sections).map_values(texts) =~= chunks_of(
            relpath,
            front,
        ).map_values(texts) + windows(sections.last().body));
    }
}

/// The place of the chunk that holds a window of a section.
proof fn lemma_window_chunk(relpath: Seq<char>, sections: Seq<SectionView>, s: int, w: int) -> (i: int)
    requires
        0 <= s < sections.len(),
        0 <= w < windows(sections[s].body).len(),
    ensures
        0 <= i < chunks_of(relpath, sections).len(),
        chunks_of(relpath, sections)[i].text == windows(sections[s].body)[w],
        chunks_of(relpath, sections)[i].heading_path == sections[s].heading_path,
    decreases sections.len(),
{
    let front = sections.drop_last();
    if s < front.len() {
        lemma_window_chunk(relpath, front, s, w)
    } else {
        chunks_of(relpath, front).len() + w
    }
}

/// No text of a section is lost: every character of its body other than white
/// space stands in a chunk under its headings.
pub proof fn law_section_text_is_kept(
    relpath: Seq<char>,
    sections: Seq<SectionView>,
    s: int,
    at: int,
) -> (r: (int, int, int))
    requires
        0 <= s < sections.len(),
        0 <= at < sections[s].body.len(),
        !text::white_space(sections[s].body[at]),
    ensures
        ({
            let (i, from, to) = r;
            &&& 0 <= i < chunks_of(relpath, sections).len()
            &&& 0 <= from <= at < to <= sections[s].body.len()
            &&& chunks_of(relpath, sections)[i].text == sections[s].body.subrange(from, to)
            &&& chunks_of(relpath, sections)[i].heading_path == sections[s].heading_path
        }),
{
    let (w, from, to) = law_windows_cover(sections[s].body, at);
    let i = lemma_window_chunk(relpath, sections, s, w);
    (i, from, to)
}

/// No text of a file without heading structure is lost: every character of it
/// other than white space stands in a chunk.
pub proof fn law_plain_text_is_kept(relpath: Seq<char>, source: Seq<char>, at: int) -> (r: (
    int,
    int,
    int,
))
    requires
        !is_markdown(relpath),
        0 <= at < source.len(),
        !text::white_space(source[at]),
    ensures
        ({
            let (i, from, to) = r;
            &&& 0 <= i < file_chunks(relpath, source).len()
            &&& 0 <= from <= at < to <= source.len()
            &&& file_chunks(relpath, source)[i].text == source.subrange(from, to)
        }),
{
    let sections = seq![SectionView { heading_path: Seq::empty(), body: source }];
    law_section_text_is_kept(relpath, sections, 0, at)
}

/// A file is cut as markdown where its path ends in a dot and `md` or `mdx` in
/// any case, whatever stands before the dot; every other file, and so one
/// without a dot, is one section without headings that holds all of it.
pub proof fn law_file_kinds(stem: Seq<char>, ext: Seq<char>, source: Seq<char>)
    requires
        !ext.contains('.'),
    ensures
        ({
            let path = stem.push('.') + ext;
            if text::ascii_lowered(ext) == "md"@ || text::ascii_lowered(ext) == "mdx"@ {
                file_chunks(path, source) == chunks_of(path, sections_of(parsed_events(source)))
            } else {
                file_chunks(path, source) == chunks_of(
                    path,
                    seq![SectionView { heading_path: Seq::empty(), body: source }],
                )
            }
        }),
        file_chunks(ext, source) == chunks_of(
            ext,
            seq![SectionView { heading_path: Seq::empty(), body: source }],
        ),
{
    reveal_strlit("md");
    reveal_strlit("mdx");
    assert("md"@ =~= seq!['m', 'd']);
    assert("mdx"@ =~= seq!['m', 'd', 'x']);
    let sep = text::Separator::Char('.');
    assert forall|i: int| 0 <= i < ext.len() implies !sep.holds(#[trigger] ext[i]) by {
        assert(ext.contains(ext[i]));
    }
    text::law_split_without_separator(ext, sep);
    text::law_split_at_separator(stem, '.', ext, sep);
    text::lemma_pieces_nonempty(stem, sep);
    assert(extension(stem.push('.') + ext) == Some(ext));
    assert(extension(ext) is None);
}

// ── what a document's events come to ────────────────────────────────────────
/// What an event adds to the body of a section: its text, or a newline for a
/// break and the end of a block.
pub open spec fn body_text(e: MarkdownEventView) -> Seq<char> {
    match e {
        MarkdownEventView::Text(t) => t,
        MarkdownEventView::Code(t) => t,
        MarkdownEventView::SoftBreak => seq!['\n'],
        MarkdownEventView::HardBreak => seq!['\n'],
        MarkdownEventView::ParagraphEnd => seq!['\n'],
        MarkdownEventView::ItemEnd => seq!['\n'],
        MarkdownEventView::CodeBlockEnd => seq!['\n'],
        _ => Seq::empty(),
    }
}

/// What an event adds to the title of a heading: its text.
pub open spec fn title_text(e: MarkdownEventView) -> Seq<char> {
    match e {
        MarkdownEventView::Text(t) => t,
        MarkdownEventView::Code(t) => t,
        _ => Seq::empty(),
    }
}

/// The text that events add to a body, one after another.
pub open spec fn body_of(events: Seq<MarkdownEventView>) -> Seq<char> {
    events.map_values(|e: MarkdownEventView| body_text(e)).flatten_alt()
}

/// The text that events add to a title, one after another.
pub open spec fn title_of(events: Seq<MarkdownEventView>) -> Seq<char> {
    events.map_values(|e: MarkdownEventView| title_text(e)).flatten_alt()
}

/// Whether no heading starts or ends among events.
pub open spec fn without_headings(events: Seq<MarkdownEventView>) -> bool {
    forall|i: int|
        0 <= i < events.len() ==> !(#[trigger] events[i] is HeadingStart) && !(events[i] is HeadingEnd)
}

/// Before anything has been read there is no section, no heading and no text.
pub proof fn law_outline_start()
    ensures
        ({
            let o = outline(Seq::empty());
            &&& o.sections.len() == 0
            &&& o.stack.len() == 0
            &&& o.body.len() == 0
            &&& o.title.len() == 0
            &&& !o.in_heading
        }),
{
}

/// Outside a heading, events without headings add their text to the body, and
/// nothing else changes; in a heading they add it to the title.
pub proof fn law_text_is_read(before: Seq<MarkdownEventView>, events: Seq<MarkdownEventView>)
    requires
        without_headings(events),
    ensures
        !outline(before).in_heading ==> outline(before + events) == (Outline {
            body: outline(before).body + body_of(events),
            ..outline(before)
        }),
        outline(before).in_heading ==> outline(before + events) == (Outline {
            title: outline(before).title + title_of(events),
            ..outline(before)
        }),
    decreases events.len(),
{
    let o = outline(before);
    let bodies = |e: MarkdownEventView| body_text(e);
    let titles = |e: MarkdownEventView| title_text(e);
    if events.len() == 0 {
        assert(before + events =~= before);
        assert(o.body + body_of(events) =~= o.body);
        assert(o.title + title_of(events) =~= o.title);
    } else {
        let front = events.drop_last();
        let e = events.last();
        assert(without_headings(front));
        law_text_is_read(before, front);
        assert((before + events).drop_last() =~= before + front);
        assert((before + events).last() == e);
        assert(events.map_values(bodies).drop_last() =~= front.map_values(bodies));
        assert(events.map_values(titles).drop_last() =~= front.map_values(titles));
        assert(body_of(events) =~= body_of(front) + body_text(e));
        assert(title_of(events) =~= title_of(front) + title_text(e));
        assert(!(events[events.len() - 1] is HeadingStart));
        let now = outline(before + front);
        assert(now.body.push('\n') =~= now.body + seq!['\n']);
        assert(!o.in_heading ==> outline(before + events) =~= (Outline {
            body: o.body + body_of(events),
            ..o
        }));
        assert(o.in_heading ==> outline(before + events) =~= (Outline {
            title: o.title + title_of(events),
            ..o
        }));
    }
}

/// The section that is open gives a section of the document where it is not
/// blank: the titles of all enclosing headings, and the body without the white
/// space at its ends.
pub open spec fn closed(o: Outline) -> Seq<SectionView> {
    if text::trimmed(o.body).len() > 0 {
        seq![
            SectionView {
                heading_path: Seq::new(o.stack.len(), |i: int| o.stack[i].1),
                body: text::trimmed(o.body),
            },
        ]
    } else {
        Seq::empty()
    }
}

/// A heading closes the section before it: a section of the document where it
/// is not blank. Nothing of the body or of an earlier title is carried over.
pub proof fn law_heading_starts(before: Seq<MarkdownEventView>, level: int)
    ensures
        outline(before.push(MarkdownEventView::HeadingStart(level))) == (Outline {
            sections: outline(before).sections + closed(outline(before)),
            stack: outline(before).stack,
            body: Seq::empty(),
            in_heading: true,
            level,
            title: Seq::empty(),
        }),
{
    let o = outline(before);
    let events = before.push(MarkdownEventView::HeadingStart(level));
    assert(events.drop_last() =~= before);
    assert(titles(o.stack) =~= Seq::new(o.stack.len(), |i: int| o.stack[i].1));
    assert(outline(events).sections =~= o.sections + closed(o));
}

/// A heading that was read stands innermost, with its title without the white
/// space at its ends, under the headings that enclose it; nothing else changes.
pub proof fn law_heading_ends(before: Seq<MarkdownEventView>)
    ensures
        ({
            let o = outline(before);
            outline(before.push(MarkdownEventView::HeadingEnd)) == (Outline {
                stack: enclosing(o.stack, o.level).push((o.level, text::trimmed(o.title))),
                in_heading: false,
                ..o
            })
        }),
{
    assert(before.push(MarkdownEventView::HeadingEnd).drop_last() =~= before);
}

/// A document has the sections that its headings closed and the one that is
/// open at its end, where that is not blank.
pub proof fn law_sections(events: Seq<MarkdownEventView>)
    ensures
        sections_of(events) == outline(events).sections + closed(outline(events)),
{
    let o = outline(events);
    assert(titles(o.stack) =~= Seq::new(o.stack.len(), |i: int| o.stack[i].1));
    assert(sections_of(events) =~= o.sections + closed(o));
}

proof fn lemma_sections_stay(before: Seq<MarkdownEventView>, events: Seq<MarkdownEventView>)
    ensures
        outline(before).sections.is_prefix_of(outline(before + events).sections),
    decreases events.len(),
{
    if events.len() == 0 {
        assert(before + events =~= before);
    } else {
        lemma_sections_stay(before, events.drop_last());
        assert((before + events).drop_last() =~= before + events.drop_last());
    }
}

/// The events of a whole heading.
pub open spec fn heading_events(level: int, title: Seq<MarkdownEventView>) -> Seq<
    MarkdownEventView,
> {
    seq![MarkdownEventView::HeadingStart(level)] + title + seq![MarkdownEventView::HeadingEnd]
}

/// After a heading the body is empty, the heading is the innermost, and what
/// was read before it is closed.
pub proof fn law_heading(before: Seq<MarkdownEventView>, level: int, title: Seq<MarkdownEventView>)
    requires
        without_headings(title),
    ensures
        outline(before + heading_events(level, title)) == (Outline {
            sections: outline(before).sections + closed(outline(before)),
            stack: enclosing(outline(before).stack, level).push(
                (level, text::trimmed(title_of(title))),
            ),
            body: Seq::empty(),
            in_heading: false,
            level,
            title: title_of(title),
        }),
{
    let start = before.push(MarkdownEventView::HeadingStart(level));
    law_heading_starts(before, level);
    law_text_is_read(start, title);
    law_heading_ends(start + title);
    assert(before + heading_events(level, title) =~= (start + title).push(
        MarkdownEventView::HeadingEnd,
    ));
    assert(Seq::<char>::empty() + title_of(title) =~= title_of(title));
    assert(outline(before + heading_events(level, title)).stack =~= enclosing(
        outline(before).stack,
        level,
    ).push((level, text::trimmed(title_of(title)))));
}

/// The text between a heading and the next one, or the end of the document, is
/// a section of the document where it is not blank: all of it but the white
/// space at its ends, under the heading and those that enclose it.
pub proof fn law_text_stands_under_its_heading(
    before: Seq<MarkdownEventView>,
    level: int,
    title: Seq<MarkdownEventView>,
    events: Seq<MarkdownEventView>,
    after: Seq<MarkdownEventView>,
)
    requires
        without_headings(title),
        without_headings(events),
        after.len() > 0 ==> after[0] is HeadingStart,
        text::trimmed(body_of(events)).len() > 0,
    ensures
        ({
            let document = before + heading_events(level, title) + events + after;
            let outer = enclosing(outline(before).stack, level);
            sections_of(document).contains(
                SectionView {
                    heading_path: Seq::new(outer.len(), |i: int| outer[i].1).push(
                        text::trimmed(title_of(title)),
                    ),
                    body: text::trimmed(body_of(events)),
                },
            )
        }),
{
    let head = before + heading_events(level, title);
    law_heading(before, level, title);
    lemma_text_is_a_section(head, events, after);
    let outer = enclosing(outline(before).stack, level);
    let stack = outline(head).stack;
    assert(Seq::new(stack.len(), |i: int| stack[i].1) =~= Seq::new(
        outer.len(),
        |i: int| outer[i].1,
    ).push(text::trimmed(title_of(title))));
}

/// The text before the first heading, or all of a document without headings,
/// is its first section where it is not blank, under no heading.
pub proof fn law_text_before_headings(
    events: Seq<MarkdownEventView>,
    after: Seq<MarkdownEventView>,
)
    requires
        without_headings(events),
        after.len() > 0 ==> after[0] is HeadingStart,
        text::trimmed(body_of(events)).len() > 0,
    ensures
        sections_of(events + after).len() > 0,
        sections_of(events + after)[0] == (SectionView {
            heading_path: Seq::empty(),
            body: text::trimmed(body_of(events)),
        }),
        after.len() == 0 ==> sections_of(events + after).len() == 1,
{
    let none = Seq::<MarkdownEventView>::empty();
    law_outline_start();
    lemma_text_is_a_section(none, events, after);
    assert(none + events + after =~= events + after);
    let stack = outline(none).stack;
    assert(Seq::new(stack.len(), |i: int| stack[i].1) =~= Seq::empty());
    if after.len() == 0 {
        law_sections(events + after);
        assert(events + after =~= none + events);
        law_text_is_read(none, events);
    }
}

/// A document whose text is blank has no section.
pub proof fn law_blank_document(events: Seq<MarkdownEventView>)
    requires
        without_headings(events),
        text::trimmed(body_of(events)).len() == 0,
    ensures
        sections_of(events).len() == 0,
{
    let none = Seq::<MarkdownEventView>::empty();
    law_outline_start();
    law_text_is_read(none, events);
    assert(none + events =~= events);
    assert(outline(none).body + body_of(events) =~= body_of(events));
}

proof fn lemma_text_is_a_section(
    head: Seq<MarkdownEventView>,
    events: Seq<MarkdownEventView>,
    after: Seq<MarkdownEventView>,
)
    requires
        without_headings(events),
        after.len() > 0 ==> after[0] is HeadingStart,
        text::trimmed(body_of(events)).len() > 0,
        !outline(head).in_heading,
        outline(head).body.len() == 0,
    ensures
        ({
            let sections = sections_of(head + events + after);
            let stack = outline(head).stack;
            let section = SectionView {
                heading_path: Seq::new(stack.len(), |i: int| stack[i].1),
                body: text::trimmed(body_of(events)),
            };
            &&& outline(head).sections.len() < sections.len()
            &&& sections[outline(head).sections.len() as int] == section
            &&& sections.contains(section)
        }),
{
    let o = outline(head);
    let read = head + events;
    let document = read + after;
    law_text_is_read(head, events);
    assert(o.body + body_of(events) =~= body_of(events));
    let n = o.sections.len() as int;
    let section = closed(outline(read))[0];
    let closing = o.sections + closed(outline(read));
    assert(closing[n] == section);
    law_sections(document);
    if after.len() == 0 {
        assert(document =~= read);
        assert(sections_of(document) == closing);
    } else {
        let level = after[0]->HeadingStart_0;
        law_heading_starts(read, level);
        let rest = after.skip(1);
        assert(document =~= read.push(MarkdownEventView::HeadingStart(level)) + rest);
        lemma_sections_stay(read.push(MarkdownEventView::HeadingStart(level)), rest);
        assert(closing.is_prefix_of(outline(document).sections));
        assert(outline(document).sections[n] == closing[n]);
    }
    assert(sections_of(document)[n] == section);
}

/// No text under a heading of a markdown file is lost: every character of it
/// other than white space stands in a chunk, under the heading and those that
/// enclose it.
pub proof fn law_markdown_text_is_kept(
    relpath: Seq<char>,
    source: Seq<char>,
    before: Seq<MarkdownEventView>,
    level: int,
    title: Seq<MarkdownEventView>,
    events: Seq<MarkdownEventView>,
    after: Seq<MarkdownEventView>,
    at: int,
) -> (r: (int, int, int))
    requires
        is_markdown(relpath),
        parsed_events(source) == before + heading_events(level, title) + events + after,
        without_headings(title),
        without_headings(events),
        after.len() > 0 ==> after[0] is HeadingStart,
        0 <= at < body_of(events).len(),
        !text::white_space(body_of(events)[at]),
    ensures
        ({
            let (i, from, to) = r;
            let outer = enclosing(outline(before).stack, level);
            &&& 0 <= i < file_chunks(relpath, source).len()
            &&& 0 <= from <= at < to <= body_of(events).len()
            &&& file_chunks(relpath, source)[i].text == body_of(events).subrange(from, to)
            &&& file_chunks(relpath, source)[i].heading_path == Seq::new(
                outer.len(),
                |i: int| outer[i].1,
            ).push(text::trimmed(title_of(title)))
        }),
{
    let outer = enclosing(outline(before).stack, level);
    let path = Seq::new(outer.len(), |i: int| outer[i].1).push(text::trimmed(title_of(title)));
    let section = SectionView { heading_path: path, body: text::trimmed(body_of(events)) };
    let (a, b) = text::lemma_trimmed(body_of(events));
    law_text_stands_under_its_heading(before, level, title, events, after);
    lemma_trimmed_section_is_kept(relpath, sections_of(parsed_events(source)), section, body_of(events), at)
}

/// No text before the first heading of a markdown file is lost: every character
/// of it other than white space stands in a chunk, under no heading.
pub proof fn law_markdown_start_is_kept(
    relpath: Seq<char>,
    source: Seq<char>,
    events: Seq<MarkdownEventView>,
    after: Seq<MarkdownEventView>,
    at: int,
) -> (r: (int, int, int))
    requires
        is_markdown(relpath),
        parsed_events(source) == events + after,
        without_headings(events),
        after.len() > 0 ==> after[0] is HeadingStart,
        0 <= at < body_of(events).len(),
        !text::white_space(body_of(events)[at]),
    ensures
        ({
            let (i, from, to) = r;
            &&& 0 <= i < file_chunks(relpath, source).len()
            &&& 0 <= from <= at < to <= body_of(events).len()
            &&& file_chunks(relpath, source)[i].text == body_of(events).subrange(from, to)
            &&& file_chunks(relpath, source)[i].heading_path.len() == 0
        }),
{
    let section = SectionView { heading_path: Seq::empty(), body: text::trimmed(body_of(events)) };
    let (a, b) = text::lemma_trimmed(body_of(events));
    law_text_before_headings(events, after);
    let sections = sections_of(parsed_events(source));
    assert(sections.contains(sections[0]));
    lemma_trimmed_section_is_kept(relpath, sections, section, body_of(events), at)
}

proof fn lemma_trimmed_section_is_kept(
    relpath: Seq<char>,
    sections: Seq<SectionView>,
    section: SectionView,
    body: Seq<char>,
    at: int,
) -> (r: (int, int, int))
    requires
        sections.contains(section),
        section.body == text::trimmed(body),
        0 <= at < body.len(),
        !text::white_space(body[at]),
    ensures
        ({
            let (i, from, to) = r;
            &&& 0 <= i < chunks_of(relpath, sections).len()
            &&& 0 <= from <= at < to <= body.len()
            &&& chunks_of(relpath, sections)[i].text == body.subrange(from, to)
            &&& chunks_of(relpath, sections)[i].heading_path == section.heading_path
        }),
{
    let s = sections.index_of(section);
    let (a, b) = text::lemma_trimmed(body);
    assert(section.body[at - a] == body[at]);
    let (i, from, to) = law_section_text_is_kept(relpath, sections, s, at - a);
    assert(section.body.subrange(from, to) =~= body.subrange(a + from, a + to));
    (i, a + from, a + to)
}

} // verus!
