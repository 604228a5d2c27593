//! Grouping ripgrep's lines into candidates, one event at a time.
//!
//! Ripgrep reports matching lines and the lines around them in the order of the
//! file. Consecutive lines of one file form a region; a region that holds a match
//! becomes a candidate. Nothing is read again from the files, so a candidate is
//! always the source that matched.
use vstd::prelude::*;
use vstd::string::*;

use crate::arrangement;
use crate::config::{self, Exclusions, SeenPath};
use crate::search::{self, Candidate, RgText, SearchError, SearchResult};
use crate::text::{self, same, utf8_len};

verus! {

/// The most lines that a candidate has.
pub const MAX_LINES: usize = 120;

/// The most bytes that a candidate's snippet, and a single line, has.
pub const MAX_BYTES: usize = 12_000;

/// What an event of ripgrep reports.
#[derive(Clone, Copy, Debug, PartialEq, Eq, Structural)]
pub enum EventKind {
    /// A line that matches.
    Match,
    /// A line near one that matches.
    Context,
    /// The end of a file.
    End,
}

/// The kind that ripgrep calls by this name; the others are of no interest.
pub open spec fn kind_named(name: Seq<char>) -> Option<EventKind> {
    if name == "match"@ {
        Some(EventKind::Match)
    } else if name == "context"@ {
        Some(EventKind::Context)
    } else if name == "end"@ {
        Some(EventKind::End)
    } else {
        None
    }
}

/// The kind that ripgrep calls by this name; the others are of no interest.
pub fn event_kind(name: &str) -> (kind: Option<EventKind>)
    ensures
        kind == kind_named(name@),
{
    if same(name, "match") {
        Some(EventKind::Match)
    } else if same(name, "context") {
        Some(EventKind::Context)
    } else if same(name, "end") {
        Some(EventKind::End)
    } else {
        None
    }
}

/// A source line: its number, its text with the line end, and whether it matches.
pub ghost struct LineView {
    pub number: usize,
    pub text: Seq<char>,
    pub matched: bool,
}

/// The numbers of the lines that match, in order.
pub open spec fn matched_numbers(lines: Seq<LineView>) -> Seq<usize>
    decreases lines.len(),
{
    if lines.len() == 0 {
        seq![]
    } else if lines.last().matched {
        matched_numbers(lines.drop_last()).push(lines.last().number)
    } else {
        matched_numbers(lines.drop_last())
    }
}

/// The texts of the lines, one after the other.
pub open spec fn joined(lines: Seq<LineView>) -> Seq<char>
    decreases lines.len(),
{
    if lines.len() == 0 {
        seq![]
    } else {
        joined(lines.drop_last()) + lines.last().text
    }
}

/// A stretch of lines of one file.
#[verifier::ext_equal]
pub ghost struct RegionView {
    pub path: Seq<char>,
    pub lines: Seq<LineView>,
}

impl RegionView {
    /// A region without lines.
    pub open spec fn empty() -> RegionView {
        RegionView { path: seq![], lines: seq![] }
    }

    /// Whether a line of the region matches.
    pub open spec fn has_match(self) -> bool {
        matched_numbers(self.lines).len() > 0
    }

    /// The candidate that the region makes.
    pub open spec fn candidate(self) -> search::CandidateView {
        search::CandidateView {
            path: self.path,
            start_line: self.lines[0].number,
            end_line: self.lines.last().number,
            match_lines: matched_numbers(self.lines),
            snippet: joined(self.lines),
        }
    }

    /// Whether the region ends before an event: at the end of the file, in another
    /// file, where lines were left out, and where a limit would be passed.
    pub open spec fn ends_before(
        self,
        kind: EventKind,
        path: Seq<char>,
        number: usize,
        text: Seq<char>,
    ) -> bool {
        &&& self.lines.len() > 0
        &&& {
            ||| kind is End
            ||| path != self.path
            ||| number != self.lines.last().number + 1
            ||| self.lines.len() >= MAX_LINES
            ||| text::byte_len(joined(self.lines)) + text::byte_len(text) > MAX_BYTES
        }
    }

    /// The region with one more line.
    pub open spec fn with_line(self, path: Seq<char>, line: LineView) -> RegionView {
        RegionView {
            path: if self.lines.len() == 0 {
                path
            } else {
                self.path
            },
            lines: self.lines.push(line),
        }
    }

    /// What holds of every region that is being collected.
    pub open spec fn well_formed(self) -> bool {
        &&& self.lines.len() <= MAX_LINES
        &&& text::byte_len(joined(self.lines)) <= MAX_BYTES
        &&& self.lines.len() > 0 ==> self.lines[0].number > 0
        &&& forall|i: int|
            0 <= i < self.lines.len() ==> (#[trigger] self.lines[i]).number == self.lines[0].number
                + i
    }
}

/// An event of ripgrep that reports a line or the end of a file.
pub ghost struct EventView {
    pub kind: EventKind,
    /// The path of the file.
    pub path: Seq<char>,
    /// Whether the file is kept out of the candidates.
    pub excluded: bool,
    /// The number of the line; zero where there is none.
    pub number: usize,
    /// The text of the line, empty where there is none, or why it cannot be had.
    pub text: Result<Seq<char>, search::SearchFailure>,
}

/// Where a collection stands.
#[verifier::ext_equal]
pub ghost struct CollectorView {
    /// The region that the next line may belong to.
    pub open: RegionView,
    /// The candidates so far.
    pub candidates: Seq<search::CandidateView>,
    /// The most candidates that are wanted.
    pub limit: nat,
    /// Whether a candidate over the limit was met; nothing is collected after it.
    pub full: bool,
}

impl CollectorView {
    /// A collection before the first event.
    pub open spec fn start(limit: nat) -> CollectorView {
        CollectorView { open: RegionView::empty(), candidates: seq![], limit, full: false }
    }

    /// The collection after the open region has ended.
    pub open spec fn closed(self) -> CollectorView {
        if !self.open.has_match() {
            CollectorView { open: RegionView::empty(), ..self }
        } else if self.candidates.len() == self.limit {
            CollectorView { open: RegionView::empty(), full: true, ..self }
        } else {
            CollectorView {
                open: RegionView::empty(),
                candidates: self.candidates.push(self.open.candidate()),
                ..self
            }
        }
    }

    /// The collection after an event, and the failure that the event causes, if
    /// any.
    pub open spec fn step(self, event: EventView) -> (CollectorView, Option<search::SearchFailure>) {
        if self.full || event.excluded {
            (self, None)
        } else {
            match event.text {
                Err(failure) => (self, Some(failure)),
                Ok(text) => if text::byte_len(text) > MAX_BYTES {
                    (
                        self,
                        Some(
                            search::SearchFailure::LineTooLong { path: event.path, number: event.number },
                        ),
                    )
                } else {
                    let next = if self.open.ends_before(event.kind, event.path, event.number, text) {
                        self.closed()
                    } else {
                        self
                    };
                    if next.full || event.kind is End {
                        (next, None)
                    } else if event.number == 0 {
                        (next, Some(search::SearchFailure::NoLineNumber))
                    } else {
                        let line = LineView {
                            number: event.number,
                            text,
                            matched: event.kind is Match,
                        };
                        (
                            CollectorView { open: next.open.with_line(event.path, line), ..next },
                            None,
                        )
                    }
                },
            }
        }
    }
}

/// The lines of a region, as they are gathered.
pub struct Region {
    path: String,
    start: usize,
    end: usize,
    matches: Vec<usize>,
    snippet: String,
    lines: Ghost<Seq<LineView>>,
}

impl View for Region {
    type V = RegionView;

    /// The lines that were gathered.
    closed spec fn view(&self) -> RegionView {
        RegionView { path: self.path@, lines: self.lines@ }
    }
}

impl Region {
    /// What is stored is what the gathered lines amount to.
    #[verifier::type_invariant]
    spec fn well_formed(self) -> bool {
        &&& self@.well_formed()
        &&& self.matches@ == matched_numbers(self.lines@)
        &&& self.snippet@ == joined(self.lines@)
        &&& if self.lines@.len() == 0 {
            self.start == 0 && self.path@.len() == 0
        } else {
            self.start == self.lines@[0].number && self.end == self.lines@.last().number
        }
    }

    /// A region without lines.
    pub fn new() -> (region: Region)
        ensures
            region@ == RegionView::empty(),
    {
        proof {
            reveal_with_fuel(vstd::utf8::encode_utf8, 1);
        }
        Region {
            path: String::new(),
            start: 0,
            end: 0,
            matches: Vec::new(),
            snippet: String::new(),
            lines: Ghost(Seq::empty()),
        }
    }

    /// Ends the region: hands out its candidate, if a line of it matches, and
    /// leaves a region without lines.
    pub fn finish(&mut self) -> (candidate: Option<Candidate>)
        ensures
            final(self)@ == RegionView::empty(),
            match candidate {
                Some(candidate) => old(self)@.has_match() && candidate@ == old(self)@.candidate(),
                None => !old(self)@.has_match(),
            },
    {
        let mut region = Region::new();
        std::mem::swap(self, &mut region);
        proof {
            use_type_invariant(&region);
        }
        if region.matches.len() == 0 {
            None
        } else {
            Some(
                Candidate {
                    path: region.path,
                    start_line: region.start,
                    end_line: region.end,
                    match_lines: region.matches,
                    snippet: region.snippet,
                },
            )
        }
    }

    /// Whether the region ends before an event.
    fn ends_before(&self, kind: EventKind, path: &str, number: usize, text: &str) -> (result: bool)
        requires
            text::byte_len(text@) <= MAX_BYTES,
        ensures
            result == self@.ends_before(kind, path@, number, text@),
    {
        proof {
            use_type_invariant(self);
        }
        if self.start == 0 {
            return false;
        }
        assert(self.lines@.last() == self.lines@[self.lines@.len() - 1]);
        kind == EventKind::End || !same(path, self.path.as_str()) || number == 0 || number - 1
            != self.end || self.end - self.start + 1 >= MAX_LINES || utf8_len(self.snippet.as_str())
            + utf8_len(text) > MAX_BYTES
    }

    /// Adds a line to the region.
    fn add_line(&mut self, path: String, number: usize, text: &str, matched: bool)
        requires
            number > 0,
            text::byte_len(text@) <= MAX_BYTES,
            !old(self)@.ends_before(
                if matched {
                    EventKind::Match
                } else {
                    EventKind::Context
                },
                path@,
                number,
                text@,
            ),
        ensures
            final(self)@ == old(self)@.with_line(path@, LineView { number, text: text@, matched }),
    {
        let mut region = Region::new();
        std::mem::swap(self, &mut region);
        proof {
            use_type_invariant(&region);
        }
        let ghost line = LineView { number, text: text@, matched };
        let ghost before = region.lines@;
        proof {
            text::lemma_encode_concat(joined(before), text@);
            assert(before.push(line).drop_last() == before);
            if before.len() == 0 {
                assert(joined(before) + text@ == text@);
            }
        }
        let first = region.start == 0;
        let mut matches = region.matches;
        if matched {
            matches.push(number);
        }
        let mut snippet = region.snippet;
        snippet.append(text);
        *self = Region {
            path: if first {
                path
            } else {
                region.path
            },
            start: if first {
                number
            } else {
                region.start
            },
            end: number,
            matches,
            snippet,
            lines: Ghost(before.push(line)),
        };
    }
}

/// Collects candidates from events, one at a time.
pub struct Collector {
    region: Region,
    candidates: Vec<Candidate>,
    limit: usize,
    full: bool,
}

impl View for Collector {
    type V = CollectorView;

    closed spec fn view(&self) -> CollectorView {
        CollectorView {
            open: self.region@,
            candidates: search::candidate_views(self.candidates@),
            limit: self.limit as nat,
            full: self.full,
        }
    }
}

/// The event that the parts of a report make.
pub open spec fn event_view(
    kind: EventKind,
    path: Seq<char>,
    excluded: bool,
    line_number: Option<usize>,
    lines: Option<RgText>,
) -> EventView {
    EventView {
        kind,
        path,
        excluded,
        number: match line_number {
            Some(number) => number,
            None => 0,
        },
        text: match lines {
            Some(text) => text.decoded(),
            None => Ok(seq![]),
        },
    }
}

impl Collector {
    /// A collector of at most `limit` candidates.
    pub fn new(limit: usize) -> (collector: Collector)
        ensures
            collector@ == CollectorView::start(limit as nat),
    {
        let collector = Collector {
            region: Region::new(),
            candidates: Vec::new(),
            limit,
            full: false,
        };
        assert(collector@ == CollectorView::start(limit as nat));
        collector
    }

    /// Whether a candidate over the limit was met, so that nothing more is needed.
    pub fn is_full(&self) -> (full: bool)
        ensures
            full == self@.full,
    {
        self.full
    }

    /// Ends the open region.
    fn close(&mut self)
        ensures
            final(self)@ == old(self)@.closed(),
    {
        let ghost before = self@;
        match self.region.finish() {
            None => {},
            Some(candidate) => {
                if self.candidates.len() == self.limit {
                    self.full = true;
                } else {
                    self.candidates.push(candidate);
                    assert(search::candidate_views(self.candidates@) == before.candidates.push(
                        candidate@,
                    ));
                }
            },
        }
        assert(self@ == before.closed());
    }

    /// Takes in one event of ripgrep on the file at `path`, which looks like `seen`
    /// from outside. Text of a file that is kept out is not even decoded.
    pub fn accept(
        &mut self,
        excluded: &Exclusions,
        seen: &SeenPath,
        kind: EventKind,
        path: String,
        line_number: Option<usize>,
        lines: Option<RgText>,
    ) -> (result: Result<(), SearchError>)
        ensures
            ({
                let event = event_view(
                    kind,
                    path@,
                    config::is_excluded(excluded@, *seen),
                    line_number,
                    lines,
                );
                let (next, failure) = old(self)@.step(event);
                &&& final(self)@ == next
                &&& match result {
                    Ok(_) => failure is None,
                    Err(error) => failure == Some(error@),
                }
            }),
    {
        if self.full || excluded.contains(seen) {
            return Ok(());
        }
        let number: usize = match line_number {
            Some(number) => number,
            None => 0,
        };
        let text = match lines {
            Some(text) => match text.decode() {
                Ok(text) => text,
                Err(error) => {
                    return Err(error);
                },
            },
            None => String::new(),
        };
        if utf8_len(text.as_str()) > MAX_BYTES {
            return Err(SearchError::LineTooLong { path, number });
        }
        if self.region.ends_before(kind, path.as_str(), number, text.as_str()) {
            self.close();
        }
        if self.full || kind == EventKind::End {
            return Ok(());
        }
        if number == 0 {
            return Err(SearchError::NoLineNumber);
        }
        self.region.add_line(path, number, text.as_str(), kind == EventKind::Match);
        Ok(())
    }

    /// Ends the collection.
    pub fn finish(self) -> (result: SearchResult)
        ensures
            ({
                let end = if self@.full {
                    self@
                } else {
                    self@.closed()
                };
                &&& search::candidate_views(result.candidates@) == end.candidates
                &&& result.truncated == end.full
            }),
    {
        let mut collector = self;
        if !collector.full {
            collector.close();
        }
        SearchResult { candidates: collector.candidates, truncated: collector.full }
    }
}

/// The collection after all the events, or the first failure.
pub open spec fn replay(limit: nat, events: Seq<EventView>) -> Result<CollectorView, search::SearchFailure>
    decreases events.len(),
{
    if events.len() == 0 {
        Ok(CollectorView::start(limit))
    } else {
        match replay(limit, events.drop_last()) {
            Err(failure) => Err(failure),
            Ok(state) => match state.step(events.last()) {
                (next, None) => Ok(next),
                (_, Some(failure)) => Err(failure),
            },
        }
    }
}

/// The candidates that the events yield and whether there were more, or the first
/// failure.
pub open spec fn outcome(limit: nat, events: Seq<EventView>) -> Result<
    (Seq<search::CandidateView>, bool),
    search::SearchFailure,
> {
    match replay(limit, events) {
        Err(failure) => Err(failure),
        Ok(state) => {
            let end = if state.full {
                state
            } else {
                state.closed()
            };
            Ok((end.candidates, end.full))
        },
    }
}

/// A source line and the path of its file.
pub ghost struct SourceLine {
    pub path: Seq<char>,
    pub line: LineView,
}

/// The lines that the events report of files that are not kept out.
pub open spec fn source_lines(events: Seq<EventView>) -> Seq<SourceLine>
    decreases events.len(),
{
    if events.len() == 0 {
        seq![]
    } else {
        let before = source_lines(events.drop_last());
        let event = events.last();
        match event.text {
            Ok(text) if !event.excluded && !(event.kind is End) => before.push(
                SourceLine {
                    path: event.path,
                    line: LineView { number: event.number, text, matched: event.kind is Match },
                },
            ),
            _ => before,
        }
    }
}

/// Whether the lines `from..to` all belong to the file at `path`.
pub open spec fn of_one_file(lines: Seq<SourceLine>, from: int, to: int, path: Seq<char>) -> bool {
    forall|k: int| from <= k < to ==> (#[trigger] lines[k]).path == path
}

/// The region that the lines `from..to` make.
pub open spec fn region_of(
    lines: Seq<SourceLine>,
    from: int,
    to: int,
    path: Seq<char>,
) -> RegionView {
    RegionView { path, lines: Seq::new((to - from) as nat, |k: int| lines[from + k].line) }
}

/// Whether a candidate is made of the lines `from..to`.
pub open spec fn made_of(
    candidate: search::CandidateView,
    lines: Seq<SourceLine>,
    from: int,
    to: int,
) -> bool {
    &&& 0 <= from < to <= lines.len()
    &&& of_one_file(lines, from, to, candidate.path)
    &&& region_of(lines, from, to, candidate.path).well_formed()
    &&& region_of(lines, from, to, candidate.path).has_match()
    &&& candidate == region_of(lines, from, to, candidate.path).candidate()
}

/// Whether a candidate is made of lines that stand together.
pub open spec fn is_verbatim(candidate: search::CandidateView, lines: Seq<SourceLine>) -> bool {
    exists|from: int, to: int| made_of(candidate, lines, from, to)
}

/// A candidate stays made of the same lines when more lines follow.
proof fn lemma_verbatim_extends(candidate: search::CandidateView, lines: Seq<SourceLine>, next: SourceLine)
    requires
        is_verbatim(candidate, lines),
    ensures
        is_verbatim(candidate, lines.push(next)),
{
    let (from, to) = choose|from: int, to: int| made_of(candidate, lines, from, to);
    let more = lines.push(next);
    assert(region_of(more, from, to, candidate.path) == region_of(
        lines,
        from,
        to,
        candidate.path,
    ));
    assert(made_of(candidate, more, from, to));
}

/// What the steps of a collection keep.
spec fn is_sound(state: CollectorView, lines: Seq<SourceLine>) -> bool {
    let size = state.open.lines.len();
    &&& state.candidates.len() <= state.limit
    &&& state.open.well_formed()
    &&& forall|i: int|
        0 <= i < state.candidates.len() ==> is_verbatim(#[trigger] state.candidates[i], lines)
    &&& !state.full ==> {
        &&& size <= lines.len()
        &&& of_one_file(lines, lines.len() - size, lines.len() as int, state.open.path)
        &&& state.open == region_of(
            lines,
            lines.len() - size,
            lines.len() as int,
            state.open.path,
        )
    }
}

/// Ending the open region keeps the invariant.
proof fn lemma_closed(state: CollectorView, lines: Seq<SourceLine>)
    requires
        is_sound(state, lines),
        !state.full,
    ensures
        is_sound(state.closed(), lines),
{
    let next = state.closed();
    lemma_empty();
    assert(next.open =~= region_of(lines, lines.len() as int, lines.len() as int, next.open.path));
    if state.open.has_match() {
        let candidate = state.open.candidate();
        assert(made_of(
            candidate,
            lines,
            lines.len() - state.open.lines.len(),
            lines.len() as int,
        ));
        assert(is_verbatim(candidate, lines));
    }
}

/// A region without lines is well formed.
proof fn lemma_empty()
    ensures
        RegionView::empty().well_formed(),
        !RegionView::empty().has_match(),
{
    reveal_with_fuel(vstd::utf8::encode_utf8, 1);
}

/// Adding a line keeps the region well formed.
proof fn lemma_with_line(region: RegionView, event: EventView, text: Seq<char>, line: LineView)
    requires
        region.well_formed(),
        !region.ends_before(event.kind, event.path, event.number, text),
        text::byte_len(text) <= MAX_BYTES,
        event.number > 0,
        line.number == event.number,
        line.text == text,
    ensures
        region.with_line(event.path, line).well_formed(),
{
    let next = region.with_line(event.path, line);
    assert(next.lines.drop_last() == region.lines);
    text::lemma_encode_concat(joined(region.lines), text);
    if region.lines.len() == 0 {
        assert(joined(region.lines) + text == text);
    }
}

/// The invariant holds after all the events.
proof fn lemma_replay(limit: nat, events: Seq<EventView>)
    requires
        replay(limit, events) is Ok,
    ensures
        is_sound(replay(limit, events)->Ok_0, source_lines(events)),
        replay(limit, events)->Ok_0.limit == limit,
    decreases events.len(),
{
    if events.len() == 0 {
        lemma_empty();
        assert(RegionView::empty() =~= region_of(seq![], 0, 0, seq![]));
    } else {
        lemma_replay(limit, events.drop_last());
        let event = events.last();
        let before = source_lines(events.drop_last());
        let lines = source_lines(events);
        let state = replay(limit, events.drop_last())->Ok_0;
        let next = replay(limit, events)->Ok_0;
        if state.full || event.excluded || event.kind is End {
            if lines != before {
                let added = lines.last();
                assert(lines == before.push(added));
                assert forall|i: int| 0 <= i < state.candidates.len() implies is_verbatim(
                    #[trigger] state.candidates[i],
                    lines,
                ) by {
                    lemma_verbatim_extends(state.candidates[i], before, added);
                }
            }
            if !state.full && !event.excluded {
                lemma_closed(state, before);
            }
        } else {
            let text = event.text->Ok_0;
            let line = LineView { number: event.number, text, matched: event.kind is Match };
            let added = SourceLine { path: event.path, line };
            let middle = if state.open.ends_before(event.kind, event.path, event.number, text) {
                state.closed()
            } else {
                state
            };
            lemma_closed(state, before);
            lemma_empty();
            assert(lines == before.push(added));
            assert forall|i: int| 0 <= i < middle.candidates.len() implies is_verbatim(
                #[trigger] middle.candidates[i],
                lines,
            ) by {
                lemma_verbatim_extends(middle.candidates[i], before, added);
            }
            if !middle.full {
                lemma_with_line(middle.open, event, text, line);
                let size = next.open.lines.len();
                assert(next.open =~= region_of(
                    lines,
                    lines.len() - size,
                    lines.len() as int,
                    next.open.path,
                ));
            }
        }
    }
}

/// Candidates are verbatim: each one is made of lines that ripgrep reported one
/// after the other, of one file, none of it kept out, with consecutive numbers
/// and with a match among them; and there are no more of them than the limit.
pub proof fn law_candidates_are_verbatim(limit: nat, events: Seq<EventView>)
    requires
        outcome(limit, events) is Ok,
    ensures
        ({
            let (candidates, _) = outcome(limit, events)->Ok_0;
            &&& candidates.len() <= limit
            &&& forall|i: int|
                0 <= i < candidates.len() ==> is_verbatim(
                    #[trigger] candidates[i],
                    source_lines(events),
                )
        }),
{
    lemma_replay(limit, events);
    let state = replay(limit, events)->Ok_0;
    if !state.full {
        lemma_closed(state, source_lines(events));
    }
}

/// Candidates are bounded: of at least one line and of at most [`MAX_LINES`], with
/// a snippet of at most [`MAX_BYTES`] bytes; their matching lines, of which there
/// is at least one, ascend and lie between the first and the last line.
pub proof fn law_candidates_are_bounded(limit: nat, events: Seq<EventView>)
    requires
        outcome(limit, events) is Ok,
    ensures
        ({
            let (candidates, _) = outcome(limit, events)->Ok_0;
            forall|i: int| 0 <= i < candidates.len() ==> is_bounded(#[trigger] candidates[i])
        }),
{
    law_candidates_are_verbatim(limit, events);
    let (candidates, _) = outcome(limit, events)->Ok_0;
    let lines = source_lines(events);
    assert forall|i: int| 0 <= i < candidates.len() implies is_bounded(
        #[trigger] candidates[i],
    ) by {
        let (from, to) = choose|from: int, to: int| made_of(candidates[i], lines, from, to);
        let region = region_of(lines, from, to, candidates[i].path);
        lemma_matched_numbers(region.lines, region.lines[0].number as int);
    }
}

/// Whether a candidate keeps to the limits.
pub open spec fn is_bounded(candidate: search::CandidateView) -> bool {
    &&& 1 <= candidate.start_line <= candidate.end_line
    &&& candidate.end_line - candidate.start_line < MAX_LINES
    &&& text::byte_len(candidate.snippet) <= MAX_BYTES
    &&& candidate.match_lines.len() > 0
    &&& forall|k: int|
        0 <= k < candidate.match_lines.len() ==> candidate.start_line
            <= #[trigger] candidate.match_lines[k] <= candidate.end_line
    &&& forall|j: int, k: int|
        0 <= j < k < candidate.match_lines.len() ==> candidate.match_lines[j]
            < candidate.match_lines[k]
}

/// The numbers of matching lines among consecutive ones.
proof fn lemma_matched_numbers(lines: Seq<LineView>, first: int)
    requires
        forall|i: int| 0 <= i < lines.len() ==> (#[trigger] lines[i]).number == first + i,
    ensures
        ({
            let numbers = matched_numbers(lines);
            &&& forall|k: int|
                0 <= k < numbers.len() ==> first <= #[trigger] numbers[k] < first + lines.len()
            &&& forall|j: int, k: int| 0 <= j < k < numbers.len() ==> numbers[j] < numbers[k]
        }),
    decreases lines.len(),
{
    if lines.len() > 0 {
        lemma_matched_numbers(lines.drop_last(), first);
        let before = matched_numbers(lines.drop_last());
        let numbers = matched_numbers(lines);
        let last = lines[lines.len() - 1];
        assert(last.number == first + lines.len() - 1);
        assert forall|k: int| 0 <= k < numbers.len() implies first <= #[trigger] numbers[k] < first
            + lines.len() by {
            if k < before.len() {
                assert(numbers[k] == before[k]);
            }
        }
        assert forall|j: int, k: int| 0 <= j < k < numbers.len() implies numbers[j]
            < numbers[k] by {
            assert(numbers[j] == before[j]);
            if k < before.len() {
                assert(numbers[k] == before[k]);
            }
        }
    }
}

/// A match: the path of the file and the number of the line.
pub ghost struct MatchView {
    pub path: Seq<char>,
    pub number: usize,
}

/// The matches that the events report in files that are not kept out.
pub open spec fn reported_matches(events: Seq<EventView>) -> Seq<MatchView>
    decreases events.len(),
{
    if events.len() == 0 {
        seq![]
    } else {
        let event = events.last();
        if event.kind is Match && !event.excluded {
            reported_matches(events.drop_last()).push(
                MatchView { path: event.path, number: event.number },
            )
        } else {
            reported_matches(events.drop_last())
        }
    }
}

/// The matches with the given numbers in one file.
pub open spec fn matches_in(path: Seq<char>, numbers: Seq<usize>) -> Seq<MatchView> {
    Seq::new(numbers.len(), |i: int| MatchView { path, number: numbers[i] })
}

/// The matches that candidates hold, in their order.
pub open spec fn collected_matches(candidates: Seq<search::CandidateView>) -> Seq<MatchView>
    decreases candidates.len(),
{
    if candidates.len() == 0 {
        seq![]
    } else {
        collected_matches(candidates.drop_last()) + matches_in(
            candidates.last().path,
            candidates.last().match_lines,
        )
    }
}

/// The matches that a collection holds.
spec fn held_matches(state: CollectorView) -> Seq<MatchView> {
    collected_matches(state.candidates) + matches_in(
        state.open.path,
        matched_numbers(state.open.lines),
    )
}

/// Ending a region loses no match.
proof fn lemma_closed_matches(state: CollectorView)
    requires
        !state.full,
        !state.closed().full,
    ensures
        held_matches(state.closed()) == held_matches(state),
{
    let next = state.closed();
    assert(matches_in(next.open.path, matched_numbers(next.open.lines)) =~= seq![]);
    if state.open.has_match() {
        assert(next.candidates.drop_last() == state.candidates);
    } else {
        assert(matches_in(state.open.path, matched_numbers(state.open.lines)) =~= seq![]);
    }
}

/// A collection that is not full holds every match so far.
proof fn lemma_replay_matches(limit: nat, events: Seq<EventView>)
    requires
        replay(limit, events) is Ok,
        !replay(limit, events)->Ok_0.full,
    ensures
        held_matches(replay(limit, events)->Ok_0) == reported_matches(events),
    decreases events.len(),
{
    if events.len() == 0 {
        assert(held_matches(CollectorView::start(limit)) =~= seq![]);
    } else {
        lemma_replay_matches(limit, events.drop_last());
        let event = events.last();
        let state = replay(limit, events.drop_last())->Ok_0;
        let next = replay(limit, events)->Ok_0;
        if !event.excluded {
            let text = event.text->Ok_0;
            let middle = if state.open.ends_before(event.kind, event.path, event.number, text) {
                lemma_closed_matches(state);
                state.closed()
            } else {
                state
            };
            if !(event.kind is End) {
                let line = LineView { number: event.number, text, matched: event.kind is Match };
                assert(next.open.lines.drop_last() == middle.open.lines);
                let old_matches = matches_in(
                    middle.open.path,
                    matched_numbers(middle.open.lines),
                );
                let new_matches = matches_in(next.open.path, matched_numbers(next.open.lines));
                if event.kind is Match {
                    if middle.open.lines.len() > 0 {
                        assert(middle.open.path == event.path);
                    } else {
                        assert(old_matches =~= seq![]);
                    }
                    assert(new_matches =~= old_matches.push(
                        MatchView { path: event.path, number: event.number },
                    ));
                    assert(held_matches(next) =~= held_matches(middle).push(
                        MatchView { path: event.path, number: event.number },
                    ));
                } else {
                    if middle.open.lines.len() == 0 {
                        assert(old_matches =~= seq![]);
                        assert(new_matches =~= seq![]);
                    }
                }
            }
        }
    }
}

/// No match is lost: unless the limit was passed, the candidates hold exactly the
/// matches that ripgrep reported in files that are not kept out, in their order
/// and each of them once.
pub proof fn law_no_match_is_lost(limit: nat, events: Seq<EventView>)
    requires
        outcome(limit, events) is Ok,
        !outcome(limit, events)->Ok_0.1,
    ensures
        collected_matches(outcome(limit, events)->Ok_0.0) == reported_matches(events),
{
    lemma_replay_matches(limit, events);
    let state = replay(limit, events)->Ok_0;
    lemma_closed_matches(state);
    let end = state.closed();
    assert(matches_in(end.open.path, matched_numbers(end.open.lines)) =~= seq![]);
    assert(held_matches(end) =~= collected_matches(end.candidates));
}

/// How a collection with a low limit stands to one with a higher limit.
spec fn is_prefix_state(low: CollectorView, high: CollectorView) -> bool {
    if low.full {
        &&& low.candidates.len() == low.limit
        &&& high.candidates.len() >= low.limit
        &&& low.candidates == high.candidates.take(low.limit as int)
        &&& high.full || high.candidates.len() > low.limit
    } else {
        &&& !high.full
        &&& low.open == high.open
        &&& low.candidates == high.candidates
        &&& low.candidates.len() <= low.limit
    }
}

/// Ending the open region keeps one collection a prefix of the other.
proof fn lemma_prefix_closed(low: CollectorView, high: CollectorView)
    requires
        is_prefix_state(low, high),
        low.limit <= high.limit,
        !high.full,
    ensures
        is_prefix_state(
            if low.full {
                low
            } else {
                low.closed()
            },
            high.closed(),
        ),
{
    assert(high.candidates.take(high.candidates.len() as int) == high.candidates);
    assert(high.closed().candidates.take(high.candidates.len() as int) == high.candidates);
    if low.full {
        assert(high.closed().candidates.take(low.limit as int) == high.candidates.take(
            low.limit as int,
        ));
    }
}

/// The collection with the low limit stays a prefix of the other.
proof fn lemma_prefix(low: nat, high: nat, events: Seq<EventView>)
    requires
        low <= high,
        replay(high, events) is Ok,
    ensures
        replay(low, events) is Ok,
        is_prefix_state(replay(low, events)->Ok_0, replay(high, events)->Ok_0),
        replay(low, events)->Ok_0.limit == low,
        replay(high, events)->Ok_0.limit == high,
    decreases events.len(),
{
    if events.len() > 0 {
        lemma_prefix(low, high, events.drop_last());
        let a = replay(low, events.drop_last())->Ok_0;
        let b = replay(high, events.drop_last())->Ok_0;
        if !b.full {
            lemma_prefix_closed(a, b);
        }
    }
}

/// A limit only cuts off: with a lower limit the same events yield the first of
/// the same candidates, up to the limit, and the result says whether there were
/// more.
pub proof fn law_limit_keeps_a_prefix(low: nat, high: nat, events: Seq<EventView>)
    requires
        low <= high,
        outcome(high, events) is Ok,
    ensures
        outcome(low, events) is Ok,
        ({
            let (all, more) = outcome(high, events)->Ok_0;
            let (some, truncated) = outcome(low, events)->Ok_0;
            &&& truncated == (more || all.len() > low)
            &&& some == all.take(if all.len() < low {
                all.len() as int
            } else {
                low as int
            })
        }),
{
    lemma_prefix(low, high, events);
    let a = replay(low, events)->Ok_0;
    let b = replay(high, events)->Ok_0;
    lemma_replay(high, events);
    if !b.full {
        lemma_prefix_closed(a, b);
        lemma_closed(b, source_lines(events));
    }
    let (all, _) = outcome(high, events)->Ok_0;
    assert(all.take(all.len() as int) == all);
}

/// The events on files that are not kept out.
pub open spec fn visible(events: Seq<EventView>) -> Seq<EventView>
    decreases events.len(),
{
    if events.len() == 0 {
        seq![]
    } else if events.last().excluded {
        visible(events.drop_last())
    } else {
        visible(events.drop_last()).push(events.last())
    }
}

/// Events on files that are kept out change nothing.
proof fn lemma_visible(limit: nat, events: Seq<EventView>)
    ensures
        replay(limit, visible(events)) == replay(limit, events),
    decreases events.len(),
{
    if events.len() > 0 {
        lemma_visible(limit, events.drop_last());
        if !events.last().excluded {
            assert(visible(events).drop_last() == visible(events.drop_last()));
        }
    }
}

/// Files that are kept out leave no trace: the outcome of a search is what it would be
/// if ripgrep had not reported them at all.
pub proof fn law_excluded_files_leave_no_trace(limit: nat, events: Seq<EventView>)
    ensures
        outcome(limit, events) == outcome(limit, visible(events)),
{
    lemma_visible(limit, events);
}

/// Where a source line comes from.
proof fn lemma_source_line(events: Seq<EventView>, k: int) -> (i: int)
    requires
        0 <= k < source_lines(events).len(),
    ensures
        0 <= i < events.len(),
        events[i].path == source_lines(events)[k].path,
        !events[i].excluded,
    decreases events.len(),
{
    let before = source_lines(events.drop_last());
    if k < before.len() {
        lemma_source_line(events.drop_last(), k)
    } else {
        events.len() - 1
    }
}

/// A file that is kept out never becomes a candidate.
pub proof fn law_excluded_files_are_no_candidates(
    limit: nat,
    events: Seq<EventView>,
    path: Seq<char>,
    i: int,
)
    requires
        outcome(limit, events) is Ok,
        forall|k: int|
            0 <= k < events.len() && (#[trigger] events[k]).path == path ==> events[k].excluded,
        0 <= i < outcome(limit, events)->Ok_0.0.len(),
    ensures
        outcome(limit, events)->Ok_0.0[i].path != path,
{
    law_candidates_are_verbatim(limit, events);
    let candidate = outcome(limit, events)->Ok_0.0[i];
    let lines = source_lines(events);
    assert(is_verbatim(candidate, lines));
    let (from, to) = choose|from: int, to: int| made_of(candidate, lines, from, to);
    let k = lemma_source_line(events, from);
    assert(lines[from].path == candidate.path);
}

/// Between adjacent lines of one file a region ends only at its limits: unless it would
/// have too many lines or too many bytes, the next line of the same file joins it.
pub proof fn law_regions_end_only_at_their_limits(
    state: CollectorView,
    event: EventView,
    text: Seq<char>,
)
    requires
        !state.full,
        !event.excluded,
        !(event.kind is End),
        event.text == Ok::<_, search::SearchFailure>(text),
        state.open.lines.len() > 0,
        event.path == state.open.path,
        event.number == state.open.lines.last().number + 1,
        state.open.lines.len() < MAX_LINES,
        text::byte_len(joined(state.open.lines)) + text::byte_len(text) <= MAX_BYTES,
    ensures
        state.step(event) == (
            (CollectorView {
                open: RegionView {
                    path: event.path,
                    lines: state.open.lines.push(
                        LineView { number: event.number, text, matched: event.kind is Match },
                    ),
                },
                ..state
            }),
            None::<search::SearchFailure>,
        ),
{
}

/// Whether the events report lines of one file that follow each other, none of them
/// kept out.
pub open spec fn are_adjacent(events: Seq<EventView>, path: Seq<char>) -> bool {
    forall|i: int|
        0 <= i < events.len() ==> {
            &&& !(#[trigger] events[i]).excluded
            &&& !(events[i].kind is End)
            &&& events[i].path == path
            &&& events[i].text is Ok
            &&& events[i].number == events[0].number + i
            &&& events[i].number > 0
        }
}

/// The lines that events report.
pub open spec fn reported_lines(events: Seq<EventView>) -> Seq<LineView> {
    Seq::new(
        events.len(),
        |i: int|
            LineView {
                number: events[i].number,
                text: events[i].text->Ok_0,
                matched: events[i].kind is Match,
            },
    )
}

/// Adjacent lines within the limits are one open region.
proof fn lemma_adjacent(limit: nat, events: Seq<EventView>, path: Seq<char>)
    requires
        are_adjacent(events, path),
        0 < events.len() <= MAX_LINES,
        text::byte_len(joined(reported_lines(events))) <= MAX_BYTES,
    ensures
        replay(limit, events) == Ok::<_, search::SearchFailure>(
            CollectorView {
                open: RegionView { path, lines: reported_lines(events) },
                ..CollectorView::start(limit)
            },
        ),
    decreases events.len(),
{
    let rest = events.drop_last();
    let event = events.last();
    let lines = reported_lines(events);
    assert(lines.drop_last() =~= reported_lines(rest));
    assert(event == events[events.len() - 1]);
    text::lemma_encode_concat(joined(reported_lines(rest)), event.text->Ok_0);
    assert forall|i: int| 0 <= i < rest.len() implies {
        &&& !(#[trigger] rest[i]).excluded
        &&& !(rest[i].kind is End)
        &&& rest[i].path == path
        &&& rest[i].text is Ok
        &&& rest[i].number == rest[0].number + i
        &&& rest[i].number > 0
    } by {
        assert(rest[i] == events[i] && rest[0] == events[0]);
    }
    if rest.len() > 0 {
        lemma_adjacent(limit, rest, path);
        assert(rest.last() == events[events.len() - 2]);
        assert(reported_lines(rest).push(lines.last()) =~= lines);
    } else {
        assert(rest =~= seq![]);
        assert(seq![lines[0]] =~= lines);
        assert(Seq::<LineView>::empty().push(lines.last()) =~= lines);
    }
}

/// Adjacent lines of one file make one candidate: as long as they are within the limits
/// and one of them matches, they are neither divided nor cut.
pub proof fn law_adjacent_lines_make_one_candidate(
    limit: nat,
    events: Seq<EventView>,
    path: Seq<char>,
)
    requires
        limit > 0,
        are_adjacent(events, path),
        events.len() <= MAX_LINES,
        text::byte_len(joined(reported_lines(events))) <= MAX_BYTES,
        matched_numbers(reported_lines(events)).len() > 0,
    ensures
        outcome(limit, events) == Ok::<_, search::SearchFailure>(
            (seq![RegionView { path, lines: reported_lines(events) }.candidate()], false),
        ),
{
    lemma_adjacent(limit, events, path);
    let candidate = RegionView { path, lines: reported_lines(events) }.candidate();
    assert(Seq::<search::CandidateView>::empty().push(candidate) =~= seq![candidate]);
}

/// The texts of lines.
pub open spec fn line_texts(lines: Seq<LineView>) -> Seq<Seq<char>> {
    Seq::new(lines.len(), |k: int| lines[k].text)
}

/// A snippet leaves nothing out and adds nothing.
proof fn lemma_joined_texts(lines: Seq<LineView>)
    ensures
        joined(lines) == arrangement::joined(line_texts(lines)),
    decreases lines.len(),
{
    if lines.len() > 0 {
        lemma_joined_texts(lines.drop_last());
        assert(line_texts(lines).drop_last() =~= line_texts(lines.drop_last()));
    }
}

/// The lines that match are the numbers listed, none left out and none added.
proof fn lemma_matched(lines: Seq<LineView>, number: usize)
    ensures
        matched_numbers(lines).contains(number) <==> exists|k: int|
            0 <= k < lines.len() && #[trigger] lines[k].matched && lines[k].number == number,
        matched_numbers(lines).len() > 0 <==> exists|k: int|
            0 <= k < lines.len() && #[trigger] lines[k].matched,
    decreases lines.len(),
{
    if lines.len() > 0 {
        let rest = lines.drop_last();
        let last = lines.len() - 1;
        lemma_matched(rest, number);
        let (few, all) = (matched_numbers(rest), matched_numbers(lines));
        if few.contains(number) {
            let i = choose|i: int| 0 <= i < few.len() && few[i] == number;
            assert(all[i] == number);
            let k = choose|k: int|
                0 <= k < rest.len() && #[trigger] rest[k].matched && rest[k].number == number;
            assert(lines[k].matched);
        }
        if few.len() > 0 {
            let k = choose|k: int| 0 <= k < rest.len() && #[trigger] rest[k].matched;
            assert(lines[k].matched);
        }
        if lines[last].matched {
            assert(all[few.len() as int] == lines[last].number);
        }
        if exists|k: int|
            0 <= k < lines.len() && #[trigger] lines[k].matched && lines[k].number == number {
            let k = choose|k: int|
                0 <= k < lines.len() && #[trigger] lines[k].matched && lines[k].number == number;
            if k < last {
                assert(rest[k].matched);
            }
        }
        if exists|k: int| 0 <= k < lines.len() && #[trigger] lines[k].matched {
            let k = choose|k: int| 0 <= k < lines.len() && #[trigger] lines[k].matched;
            if k < last {
                assert(rest[k].matched);
            }
        }
        if all.contains(number) {
            let i = choose|i: int| 0 <= i < all.len() && all[i] == number;
            if i < few.len() {
                assert(few[i] == number);
            }
        }
    }
}

/// The numbers of matching lines come in the order of the lines, one for each.
pub proof fn law_match_lines_follow_the_lines(a: Seq<LineView>, b: Seq<LineView>, line: LineView)
    ensures
        matched_numbers(Seq::<LineView>::empty()) == Seq::<usize>::empty(),
        matched_numbers(seq![line]) == if line.matched {
            seq![line.number]
        } else {
            seq![]
        },
        matched_numbers(a + b) == matched_numbers(a) + matched_numbers(b),
    decreases b.len(),
{
    assert(matched_numbers(Seq::<LineView>::empty()) =~= Seq::<usize>::empty());
    assert(seq![line].drop_last() =~= Seq::<LineView>::empty());
    assert(Seq::<usize>::empty().push(line.number) =~= seq![line.number]);
    if b.len() == 0 {
        assert(a + b =~= a);
        assert(matched_numbers(a) + matched_numbers(b) =~= matched_numbers(a));
    } else {
        law_match_lines_follow_the_lines(a, b.drop_last(), line);
        assert((a + b).drop_last() =~= a + b.drop_last());
        assert(matched_numbers(a + b) =~= matched_numbers(a) + matched_numbers(b));
    }
}

/// Whether a candidate holds exactly these lines of the file at `path`: their first and
/// last number, all their text in order, and the numbers of those that match.
pub open spec fn holds_exactly(
    candidate: search::CandidateView,
    path: Seq<char>,
    lines: Seq<LineView>,
) -> bool {
    &&& lines.len() > 0
    &&& candidate.path == path
    &&& candidate.start_line == lines[0].number
    &&& candidate.end_line == lines[lines.len() - 1].number
    &&& candidate.snippet == arrangement::joined(line_texts(lines))
    &&& forall|number: usize| #[trigger]
        candidate.match_lines.contains(number) <==> exists|k: int|
            0 <= k < lines.len() && #[trigger] lines[k].matched && lines[k].number == number
}

/// A region becomes a candidate that holds exactly its lines.
proof fn lemma_region_candidate(region: RegionView)
    requires
        region.lines.len() > 0,
    ensures
        holds_exactly(region.candidate(), region.path, region.lines),
{
    lemma_joined_texts(region.lines);
    assert forall|number: usize| #[trigger]
        region.candidate().match_lines.contains(number) <==> exists|k: int|
            0 <= k < region.lines.len() && #[trigger] region.lines[k].matched
                && region.lines[k].number == number by {
        lemma_matched(region.lines, number);
    }
}

/// The snippet of a candidate is the source, character by character: it is as long as
/// the texts of all its lines together, and each character of line `k` stands at its
/// place in the line, after the texts of all the lines before it.
pub proof fn law_snippets_are_the_source(
    candidate: search::CandidateView,
    path: Seq<char>,
    lines: Seq<LineView>,
    k: int,
    j: int,
)
    requires
        holds_exactly(candidate, path, lines),
        0 <= k < lines.len(),
        0 <= j < lines[k].text.len(),
    ensures
        ({
            let lengths = Seq::new(lines.len(), |i: int| lines[i].text.len());
            let place = arrangement::sum(lengths.take(k)) + j;
            &&& candidate.snippet.len() == arrangement::sum(lengths)
            &&& place < candidate.snippet.len()
            &&& candidate.snippet[place] == lines[k].text[j]
        }),
{
    let texts = line_texts(lines);
    let lengths = Seq::new(lines.len(), |i: int| lines[i].text.len());
    assert(arrangement::lengths(texts) =~= lengths);
    arrangement::law_joined_length(texts);
    arrangement::law_joined_in_place(texts, k, j);
}

/// Every candidate of a search is a stretch of reported lines of one file, with
/// consecutive numbers, and holds exactly those lines; it has at most 120 lines and
/// 12,000 bytes.
pub proof fn law_candidates_hold_exactly_their_lines(limit: nat, events: Seq<EventView>, i: int) -> (
    stretch: (int, int))
    requires
        outcome(limit, events) is Ok,
        0 <= i < outcome(limit, events)->Ok_0.0.len(),
    ensures
        ({
            let candidate = outcome(limit, events)->Ok_0.0[i];
            let reported = source_lines(events);
            let (from, to) = stretch;
            let lines = Seq::new((to - from) as nat, |k: int| reported[from + k].line);
            &&& 0 <= from < to <= reported.len()
            &&& to - from <= 120
            &&& text::byte_len(candidate.snippet) <= 12_000
            &&& holds_exactly(candidate, reported[from].path, lines)
            &&& forall|k: int|
                from <= k < to ==> (#[trigger] reported[k]).path == reported[from].path
                    && reported[k].line.number == reported[from].line.number + (k - from)
            &&& exists|k: int| from <= k < to && (#[trigger] reported[k]).line.matched
        }),
{
    law_candidates_are_verbatim(limit, events);
    let candidate = outcome(limit, events)->Ok_0.0[i];
    let reported = source_lines(events);
    assert(is_verbatim(candidate, reported));
    let (from, to) = choose|from: int, to: int| made_of(candidate, reported, from, to);
    let region = region_of(reported, from, to, candidate.path);
    let lines = Seq::new((to - from) as nat, |k: int| reported[from + k].line);
    assert(region.lines == lines);
    assert(reported[from].path == candidate.path);
    lemma_region_candidate(region);
    lemma_matched(lines, 0);
    assert forall|k: int| from <= k < to implies (#[trigger] reported[k]).path
        == reported[from].path && reported[k].line.number == reported[from].line.number + (k
        - from) by {
        assert(lines[k - from] == reported[k].line);
        assert(region.lines[k - from].number == region.lines[0].number + (k - from));
    }
    let m = choose|m: int| 0 <= m < lines.len() && #[trigger] lines[m].matched;
    assert(reported[from + m].line.matched);
    (from, to)
}

/// Whether an event reports a line of a file that is not kept out.
pub open spec fn is_line(event: EventView) -> bool {
    !event.excluded && !(event.kind is End) && event.text is Ok
}

/// The reported lines are those of the events, in their order, each of them once: the
/// result lists, for each line, the event that reports it.
pub proof fn law_reported_lines_are_those_of_the_events(events: Seq<EventView>) -> (at: Seq<int>)
    ensures
        at.len() == source_lines(events).len(),
        forall|k: int, l: int| 0 <= k < l < at.len() ==> at[k] < at[l],
        forall|k: int|
            0 <= k < at.len() ==> {
                let event = events[#[trigger] at[k]];
                let reported = source_lines(events)[k];
                &&& 0 <= at[k] < events.len()
                &&& is_line(event)
                &&& reported.path == event.path
                &&& reported.line.number == event.number
                &&& event.text == Ok::<_, search::SearchFailure>(reported.line.text)
                &&& reported.line.matched == (event.kind is Match)
            },
        forall|i: int|
            0 <= i < events.len() && is_line(#[trigger] events[i]) ==> at.contains(i),
    decreases events.len(),
{
    if events.len() == 0 {
        Seq::empty()
    } else {
        let rest = events.drop_last();
        let last = events.len() - 1;
        let before = law_reported_lines_are_those_of_the_events(rest);
        let at = if is_line(events[last]) {
            before.push(last)
        } else {
            before
        };
        assert forall|k: int| 0 <= k < at.len() implies {
            let event = events[#[trigger] at[k]];
            let reported = source_lines(events)[k];
            &&& 0 <= at[k] < events.len()
            &&& is_line(event)
            &&& reported.path == event.path
            &&& reported.line.number == event.number
            &&& event.text == Ok::<_, search::SearchFailure>(reported.line.text)
            &&& reported.line.matched == (event.kind is Match)
        } by {
            if k < before.len() {
                assert(at[k] == before[k]);
                assert(rest[before[k]] == events[at[k]]);
                assert(source_lines(events)[k] == source_lines(rest)[k]);
            }
        }
        assert forall|i: int| 0 <= i < events.len() && is_line(
            #[trigger] events[i],
        ) implies at.contains(i) by {
            if i < last {
                assert(is_line(rest[i]));
                let k = choose|k: int| 0 <= k < before.len() && before[k] == i;
                assert(at[k] == i);
            } else {
                assert(at[before.len() as int] == i);
            }
        }
        at
    }
}

/// A match that was reported is among the reported matches.
proof fn lemma_reported_match(events: Seq<EventView>, i: int)
    requires
        0 <= i < events.len(),
        events[i].kind is Match,
        !events[i].excluded,
    ensures
        reported_matches(events).contains(
            MatchView { path: events[i].path, number: events[i].number },
        ),
    decreases events.len(),
{
    let found = MatchView { path: events[i].path, number: events[i].number };
    let all = reported_matches(events);
    if i < events.len() - 1 {
        let rest = events.drop_last();
        lemma_reported_match(rest, i);
        let few = reported_matches(rest);
        let k = choose|k: int| 0 <= k < few.len() && few[k] == found;
        assert(all[k] == found);
    } else {
        assert(all[all.len() - 1] == found);
    }
}

/// A match that candidates hold is in one of them.
proof fn lemma_collected_match(candidates: Seq<search::CandidateView>, found: MatchView) -> (i: int)
    requires
        collected_matches(candidates).contains(found),
    ensures
        0 <= i < candidates.len(),
        candidates[i].path == found.path,
        candidates[i].match_lines.contains(found.number),
    decreases candidates.len(),
{
    let all = collected_matches(candidates);
    let k = choose|k: int| 0 <= k < all.len() && all[k] == found;
    let rest = candidates.drop_last();
    let few = collected_matches(rest);
    if k < few.len() {
        assert(few[k] == found);
        lemma_collected_match(rest, found)
    } else {
        let last = candidates[candidates.len() - 1];
        assert(last.match_lines[k - few.len()] == found.number);
        candidates.len() - 1
    }
}

/// Every reported match is found again: unless the limit was passed, some candidate of
/// the same file lists the number of the line that matched.
pub proof fn law_every_match_is_in_a_candidate(limit: nat, events: Seq<EventView>, i: int) -> (c: int)
    requires
        outcome(limit, events) is Ok,
        !outcome(limit, events)->Ok_0.1,
        0 <= i < events.len(),
        events[i].kind is Match,
        !events[i].excluded,
    ensures
        ({
            let candidates = outcome(limit, events)->Ok_0.0;
            &&& 0 <= c < candidates.len()
            &&& candidates[c].path == events[i].path
            &&& candidates[c].match_lines.contains(events[i].number)
        }),
{
    law_no_match_is_lost(limit, events);
    lemma_reported_match(events, i);
    lemma_collected_match(
        outcome(limit, events)->Ok_0.0,
        MatchView { path: events[i].path, number: events[i].number },
    )
}

/// The number of bytes of lines.
pub open spec fn bytes_of(lines: Seq<LineView>) -> nat {
    text::byte_len(arrangement::joined(line_texts(lines)))
}

/// Adjacent lines of one file make one candidate, which holds exactly those lines, as
/// long as there are at most 120 of them with at most 12,000 bytes and one matches.
pub proof fn law_one_stretch_is_one_candidate(limit: nat, events: Seq<EventView>, path: Seq<char>)
    requires
        limit > 0,
        are_adjacent(events, path),
        events.len() <= 120,
        bytes_of(reported_lines(events)) <= 12_000,
        exists|i: int| 0 <= i < events.len() && (#[trigger] events[i]).kind is Match,
    ensures
        outcome(limit, events) is Ok,
        outcome(limit, events)->Ok_0.0.len() == 1,
        !outcome(limit, events)->Ok_0.1,
        holds_exactly(outcome(limit, events)->Ok_0.0[0], path, reported_lines(events)),
{
    let lines = reported_lines(events);
    let i = choose|i: int| 0 <= i < events.len() && (#[trigger] events[i]).kind is Match;
    assert(lines[i].matched);
    lemma_matched(lines, 0);
    lemma_joined_texts(lines);
    law_adjacent_lines_make_one_candidate(limit, events, path);
    lemma_region_candidate(RegionView { path, lines });
}

/// Where a region ends, the next one begins with the very line that ended it, and the
/// region that ended becomes a candidate if a line of it matches.
pub proof fn law_a_boundary_loses_no_line(state: CollectorView, event: EventView, text: Seq<char>)
    requires
        !state.full,
        is_line(event),
        event.text == Ok::<_, search::SearchFailure>(text),
        event.number > 0,
        text::byte_len(text) <= 12_000,
        state.open.lines.len() > 0,
        state.candidates.len() < state.limit,
        ({
            ||| event.path != state.open.path
            ||| event.number != state.open.lines[state.open.lines.len() - 1].number + 1
            ||| state.open.lines.len() >= 120
            ||| bytes_of(state.open.lines) + text::byte_len(text) > 12_000
        }),
    ensures
        ({
            let (next, failure) = state.step(event);
            let line = LineView { number: event.number, text, matched: event.kind is Match };
            &&& failure is None
            &&& !next.full
            &&& next.limit == state.limit
            &&& next.open.path == event.path
            &&& next.open.lines == seq![line]
            &&& if exists|k: int|
                0 <= k < state.open.lines.len() && #[trigger] state.open.lines[k].matched {
                &&& next.candidates.len() == state.candidates.len() + 1
                &&& next.candidates.drop_last() == state.candidates
                &&& holds_exactly(
                    next.candidates[state.candidates.len() as int],
                    state.open.path,
                    state.open.lines,
                )
            } else {
                next.candidates == state.candidates
            }
        }),
{
    lemma_joined_texts(state.open.lines);
    lemma_matched(state.open.lines, 0);
    lemma_region_candidate(state.open);
    let line = LineView { number: event.number, text, matched: event.kind is Match };
    assert(Seq::<LineView>::empty().push(line) =~= seq![line]);
    let next = state.step(event).0;
    if next.candidates.len() > state.candidates.len() {
        assert(next.candidates.drop_last() =~= state.candidates);
    }
}

/// What fails a search, and what does not: nothing once the limit was passed, and
/// nothing of a file that is kept out; else a text that cannot be read, a line of more
/// than 12,000 bytes, and a line without its number, in this order.
pub proof fn law_what_fails_a_search(state: CollectorView, event: EventView)
    ensures
        state.full || event.excluded ==> state.step(event) == (
            state,
            None::<search::SearchFailure>,
        ),
        !state.full && !event.excluded ==> match event.text {
            Err(failure) => state.step(event).1 == Some(failure),
            Ok(text) => if text::byte_len(text) > 12_000 {
                state.step(event).1 == Some(
                    search::SearchFailure::LineTooLong { path: event.path, number: event.number },
                )
            } else if event.kind is End || event.number > 0 {
                state.step(event).1 is None
            } else if state.candidates.len() < state.limit {
                state.step(event).1 == Some(search::SearchFailure::NoLineNumber)
            } else {
                true
            },
        },
{
}

/// The end of a file ends the region: what comes after it starts anew.
pub proof fn law_the_end_of_a_file_ends_the_region(state: CollectorView, event: EventView)
    requires
        !state.full,
        !event.excluded,
        event.kind is End,
        event.text == Ok::<Seq<char>, search::SearchFailure>(Seq::<char>::empty()),
        state.candidates.len() < state.limit,
    ensures
        ({
            let (next, failure) = state.step(event);
            &&& failure is None
            &&& !next.full
            &&& next.open.lines.len() == 0
            &&& if exists|k: int|
                0 <= k < state.open.lines.len() && #[trigger] state.open.lines[k].matched {
                &&& next.candidates.len() == state.candidates.len() + 1
                &&& next.candidates.drop_last() == state.candidates
                &&& holds_exactly(
                    next.candidates[state.candidates.len() as int],
                    state.open.path,
                    state.open.lines,
                )
            } else {
                next.candidates == state.candidates
            }
        }),
{
    reveal_with_fuel(vstd::utf8::encode_utf8, 1);
    lemma_matched(state.open.lines, 0);
    if state.open.lines.len() > 0 {
        lemma_region_candidate(state.open);
    }
    let next = state.step(event).0;
    if next.candidates.len() > state.candidates.len() {
        assert(next.candidates.drop_last() =~= state.candidates);
    }
}

/// What a collection holds that ends with a line: the line is the last of the open
/// region.
proof fn lemma_last_line(limit: nat, events: Seq<EventView>)
    requires
        replay(limit, events) is Ok,
        !replay(limit, events)->Ok_0.full,
        events.len() > 0,
        !events.last().excluded,
    ensures
        ({
            let state = replay(limit, events)->Ok_0;
            if events.last().kind is End {
                state.open == RegionView::empty() || state.open.lines.len() == 0
            } else {
                &&& state.open.lines.len() > 0
                &&& state.open.path == events.last().path
                &&& state.open.lines.last().number == events.last().number
            }
        }),
{
}

/// More events never take a candidate back, and never make a full collection less full.
proof fn lemma_more_events(limit: nat, events: Seq<EventView>)
    requires
        events.len() > 0,
        replay(limit, events) is Ok,
        !replay(limit, events)->Ok_0.full,
        !replay(limit, events)->Ok_0.closed().full,
    ensures
        replay(limit, events.drop_last()) is Ok,
        ({
            let before = replay(limit, events.drop_last())->Ok_0;
            &&& !before.full
            &&& !before.closed().full
            &&& before.closed().candidates.len() <= replay(
                limit,
                events,
            )->Ok_0.closed().candidates.len()
        }),
{
    let before = replay(limit, events.drop_last())->Ok_0;
    let after = replay(limit, events)->Ok_0;
    if after.open.lines.len() == before.open.lines.len() + 1 && before.open.lines.len() > 0 {
        assert(after.open.lines.drop_last() =~= before.open.lines);
    }
}

/// Events that begin a region of their own collect what they collect by themselves.
proof fn lemma_separate(limit: nat, a: Seq<EventView>, b: Seq<EventView>)
    requires
        replay(limit, a) is Ok,
        !replay(limit, a)->Ok_0.full,
        !replay(limit, a)->Ok_0.closed().full,
        replay(limit, b) is Ok,
        !replay(limit, b)->Ok_0.full,
        !replay(limit, b)->Ok_0.closed().full,
        replay(limit, a)->Ok_0.closed().candidates.len() + replay(
            limit,
            b,
        )->Ok_0.closed().candidates.len() <= limit,
        b.len() > 0,
        is_line(b[0]),
        a.len() > 0 ==> !a.last().excluded && (a.last().kind is End || a.last().path != b[0].path
            || a.last().number + 1 != b[0].number),
    ensures
        ({
            let x = replay(limit, a)->Ok_0.closed();
            let y = replay(limit, b)->Ok_0;
            &&& replay(limit, a + b) is Ok
            &&& replay(limit, a + b)->Ok_0.open == y.open
            &&& replay(limit, a + b)->Ok_0.candidates == x.candidates + y.candidates
            &&& replay(limit, a + b)->Ok_0.limit == limit
            &&& !replay(limit, a + b)->Ok_0.full
        }),
    decreases b.len(),
{
    let x = replay(limit, a)->Ok_0.closed();
    let y = replay(limit, b)->Ok_0;
    assert((a + b).drop_last() =~= a + b.drop_last());
    assert((a + b).last() == b.last());
    lemma_replay(limit, a);
    lemma_replay(limit, b);
    if b.len() == 1 {
        assert(b.drop_last() =~= Seq::<EventView>::empty());
        assert(a + b.drop_last() =~= a);
        if a.len() > 0 {
            lemma_last_line(limit, a);
        }
        lemma_empty();
        assert(x.candidates + y.candidates =~= x.candidates);
    } else {
        lemma_more_events(limit, b);
        let rest = b.drop_last();
        assert(rest[0] == b[0]);
        lemma_separate(limit, a, rest);
        let z = replay(limit, rest)->Ok_0;
        lemma_replay(limit, rest);
        assert(replay(limit, a + b)->Ok_0.candidates =~= x.candidates + y.candidates);
    }
}

/// Stretches of lines are collected one by one: where the lines of `b` do not go on from
/// the last event of `a`, the candidates of both together are those of `a` and then
/// those of `b`.
pub proof fn law_stretches_are_collected_one_by_one(
    limit: nat,
    a: Seq<EventView>,
    b: Seq<EventView>,
)
    requires
        outcome(limit, a) is Ok,
        !outcome(limit, a)->Ok_0.1,
        outcome(limit, b) is Ok,
        !outcome(limit, b)->Ok_0.1,
        outcome(limit, a)->Ok_0.0.len() + outcome(limit, b)->Ok_0.0.len() <= limit,
        b.len() > 0,
        is_line(b[0]),
        a.len() > 0 ==> !a.last().excluded && (a.last().kind is End || a.last().path != b[0].path
            || a.last().number + 1 != b[0].number),
    ensures
        outcome(limit, a + b) == Ok::<_, search::SearchFailure>(
            (outcome(limit, a)->Ok_0.0 + outcome(limit, b)->Ok_0.0, false),
        ),
{
    lemma_separate(limit, a, b);
    lemma_replay(limit, a);
    lemma_replay(limit, b);
    let x = replay(limit, a)->Ok_0.closed();
    let y = replay(limit, b)->Ok_0;
    assert(x.candidates + y.closed().candidates =~= if y.open.has_match() {
        (x.candidates + y.candidates).push(y.open.candidate())
    } else {
        x.candidates + y.candidates
    });
}

/// The source of a candidate, character by character: there is a stretch of reported
/// lines such that the snippet is as long as the texts of those lines together, and
/// character `j` of line `k` stands in it after the texts of all the lines before, and
/// then `j` characters on.
pub proof fn law_every_character_is_in_its_place(
    limit: nat,
    events: Seq<EventView>,
    i: int,
    k: int,
    j: int,
) -> (stretch: (int, int))
    requires
        outcome(limit, events) is Ok,
        0 <= i < outcome(limit, events)->Ok_0.0.len(),
    ensures
        ({
            let candidate = outcome(limit, events)->Ok_0.0[i];
            let reported = source_lines(events);
            let (from, to) = stretch;
            let lengths = Seq::new((to - from) as nat, |n: int| reported[from + n].line.text.len());
            let place = arrangement::sum(lengths.take(k)) + j;
            &&& 0 <= from < to <= reported.len()
            &&& candidate.path == reported[from].path
            &&& candidate.start_line == reported[from].line.number
            &&& candidate.end_line == reported[to - 1].line.number
            &&& candidate.end_line - candidate.start_line == to - from - 1
            &&& candidate.snippet.len() == arrangement::sum(lengths)
            &&& 0 <= k < to - from && 0 <= j < reported[from + k].line.text.len() ==> {
                &&& place < candidate.snippet.len()
                &&& candidate.snippet[place] == reported[from + k].line.text[j]
            }
        }),
{
    let (from, to) = law_candidates_hold_exactly_their_lines(limit, events, i);
    let candidate = outcome(limit, events)->Ok_0.0[i];
    let reported = source_lines(events);
    let lines = Seq::new((to - from) as nat, |n: int| reported[from + n].line);
    let lengths = Seq::new((to - from) as nat, |n: int| reported[from + n].line.text.len());
    assert(arrangement::lengths(line_texts(lines)) =~= lengths);
    arrangement::law_joined_length(line_texts(lines));
    if 0 <= k < to - from && 0 <= j < reported[from + k].line.text.len() {
        arrangement::law_joined_in_place(line_texts(lines), k, j);
    }
    assert(reported[to - 1].line.number == reported[from].line.number + (to - 1 - from));
    (from, to)
}

/// A report is taken as it is: its kind, its path, its line number, which is zero where
/// there is none, and its text, which is empty where there is none.
pub proof fn law_reports_are_taken_as_they_are(
    kind: EventKind,
    path: Seq<char>,
    excluded: bool,
    number: usize,
    text: RgText,
)
    ensures
        ({
            let event = event_view(kind, path, excluded, Some(number), Some(text));
            &&& event.kind == kind
            &&& event.path == path
            &&& event.excluded == excluded
            &&& event.number == number
            &&& event.text == text.decoded()
        }),
        event_view(kind, path, excluded, None, Some(text)).number == 0,
        event_view(kind, path, excluded, None, Some(text)).text == text.decoded(),
        event_view(kind, path, excluded, Some(number), None).text == Ok::<
            Seq<char>,
            search::SearchFailure,
        >(Seq::<char>::empty()),
{
}

/// Of ripgrep's events three kinds are of interest, by their exact names, and no others.
pub proof fn law_kinds_of_events(name: Seq<char>)
    ensures
        kind_named(name) == Some(EventKind::Match) <==> name == "match"@,
        kind_named(name) == Some(EventKind::Context) <==> name == "context"@,
        kind_named(name) == Some(EventKind::End) <==> name == "end"@,
        kind_named(name) is None <==> name != "match"@ && name != "context"@ && name != "end"@,
{
    reveal_strlit("match");
    assert("match"@.len() == 5);
    reveal_strlit("context");
    assert("context"@.len() == 7);
    reveal_strlit("end");
    assert("end"@.len() == 3);
}

} // verus!
