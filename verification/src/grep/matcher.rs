//! The search engine: compiling a pattern, finding its occurrences in a block, and walking a
//! text block by block.

use vstd::prelude::*;

verus! {

/// An opaque compiled pattern of the search engine.
#[verifier::external_type_specification]
#[verifier::external_body]
pub struct ExRegexMatcher(grep_regex::RegexMatcher);

/// An opaque searcher.
#[verifier::external_type_specification]
#[verifier::external_body]
pub struct ExSearcher(grep_searcher::Searcher);

/// An opaque matched block.
#[verifier::external_type_specification]
#[verifier::external_body]
pub struct ExSinkMatch<'a>(grep_searcher::SinkMatch<'a>);

/// An opaque context line.
#[verifier::external_type_specification]
#[verifier::external_body]
pub struct ExSinkContext<'a>(grep_searcher::SinkContext<'a>);

/// An opaque input or output error.
#[verifier::external_type_specification]
#[verifier::external_body]
pub struct ExIoError(std::io::Error);

/// How a context line relates to the matches around it.
#[derive(Clone, Copy, Debug, PartialEq, Eq, Structural)]
pub enum ContextKind {
    Before,
    After,
    Other,
}

/// What a searcher reports, in the order of the text.
#[derive(Debug)]
#[allow(inconsistent_fields)]
pub enum SearchEvent {
    /// A block with at least one match: a line, or several lines of a multiline match.
    Matched { offset: u64, line: Option<u64>, bytes: Vec<u8> },
    /// A line around a match.
    Context { offset: u64, line: Option<u64>, bytes: Vec<u8>, kind: ContextKind },
    /// Lines are left out here.
    Break,
}

/// The mathematical value of a [`SearchEvent`].
pub enum EventSpec {
    Matched { offset: u64, line: Option<u64>, bytes: Seq<u8> },
    Context { offset: u64, line: Option<u64>, bytes: Seq<u8>, kind: ContextKind },
    Break,
}

impl View for SearchEvent {
    type V = EventSpec;

    open spec fn view(&self) -> EventSpec {
        match self {
            SearchEvent::Matched { offset, line, bytes } => EventSpec::Matched {
                offset: *offset,
                line: *line,
                bytes: bytes@,
            },
            SearchEvent::Context { offset, line, bytes, kind } => EventSpec::Context {
                offset: *offset,
                line: *line,
                bytes: bytes@,
                kind: *kind,
            },
            SearchEvent::Break => EventSpec::Break,
        }
    }
}

/// The events as mathematical values.
pub open spec fn event_views(events: Seq<SearchEvent>) -> Seq<EventSpec> {
    events.map(|i: int, event: SearchEvent| event@)
}

/// Why a text could not be searched.
#[derive(Debug)]
pub struct SearchFault {
    /// The text turned out to be malformed.
    pub invalid_data: bool,
    pub message: String,
}

/// The mathematical value of a [`SearchFault`].
pub struct FaultSpec {
    pub invalid_data: bool,
    pub message: Seq<char>,
}

impl View for SearchFault {
    type V = FaultSpec;

    open spec fn view(&self) -> FaultSpec {
        FaultSpec { invalid_data: self.invalid_data, message: self.message@ }
    }
}

/// What a pattern was compiled from.
pub struct MatcherSpec {
    pub pattern: Seq<char>,
    pub case_insensitive: bool,
    pub multiline: bool,
}

/// What a compiled pattern was compiled from.
pub uninterp spec fn matcher_source(matcher: grep_regex::RegexMatcher) -> MatcherSpec;

/// The message with which a pattern is refused; `None` for one that compiles.
pub uninterp spec fn matcher_rejection(
    pattern: Seq<char>,
    case_insensitive: bool,
    multiline: bool,
) -> Option<Seq<char>>;

/// Where the successive occurrences in a block begin and end.
pub uninterp spec fn matcher_occurrences(
    pattern: Seq<char>,
    case_insensitive: bool,
    multiline: bool,
    bytes: Seq<u8>,
) -> Seq<(usize, usize)>;

/// What a walk over a text reported, and what broke it off.
#[derive(Debug)]
pub struct Walk {
    /// What was reported, up to the fault where there is one.
    pub events: Vec<SearchEvent>,
    pub fault: Option<SearchFault>,
}

/// What a walk reported as contracts speak of it.
pub struct WalkSpec {
    pub events: Seq<EventSpec>,
    pub fault: Option<FaultSpec>,
}

impl View for Walk {
    type V = WalkSpec;

    open spec fn view(&self) -> WalkSpec {
        WalkSpec {
            events: event_views(self.events@),
            fault: match self.fault {
                Some(fault) => Some(fault@),
                None => None,
            },
        }
    }
}

/// What walking a text in memory reports.
pub uninterp spec fn memory_events(
    pattern: Seq<char>,
    case_insensitive: bool,
    multiline: bool,
    before: nat,
    after: nat,
    heap_limit: nat,
    bytes: Seq<u8>,
) -> WalkSpec;

/// What walking a text through a buffer of limited size reports.
pub uninterp spec fn stream_events(
    pattern: Seq<char>,
    case_insensitive: bool,
    multiline: bool,
    before: nat,
    after: nat,
    heap_limit: nat,
    bytes: Seq<u8>,
) -> WalkSpec;

/// Whether occurrences lie in a block of this length, one behind the other.
pub open spec fn occurrences_in_order(found: Seq<(usize, usize)>, len: int) -> bool {
    &&& forall|i: int|
        0 <= i < found.len() ==> (#[trigger] found[i]).0 <= found[i].1 && found[i].1 <= len
    &&& forall|i: int, j: int|
        0 <= i < j < found.len() ==> (#[trigger] found[i]).1 <= (#[trigger] found[j]).0
}

/// `RegexMatcherBuilder::build` for matches inside one line, with `^` and `$` at line ends and
/// `\r\n` as a line end.
#[verifier::external_body]
fn compile_lines(pattern: &str, case_insensitive: bool) -> (result: Result<
    grep_regex::RegexMatcher,
    String,
>)
    ensures
        match result {
            Ok(matcher) => {
                &&& matcher_rejection(pattern@, case_insensitive, false) is None
                &&& matcher_source(matcher) == (MatcherSpec {
                    pattern: pattern@,
                    case_insensitive,
                    multiline: false,
                })
            },
            Err(message) => matcher_rejection(pattern@, case_insensitive, false) == Some(message@),
        },
{
    let mut builder = grep_regex::RegexMatcherBuilder::new();
    builder.case_insensitive(case_insensitive).multi_line(true).crlf(true);
    builder.build(pattern).map_err(|error| error.to_string())
}

/// `RegexMatcherBuilder::build` for matches that may span lines: as for one line, but `.`
/// matches line feeds and no byte ends a match.
#[verifier::external_body]
fn compile_multiline(pattern: &str, case_insensitive: bool) -> (result: Result<
    grep_regex::RegexMatcher,
    String,
>)
    ensures
        match result {
            Ok(matcher) => {
                &&& matcher_rejection(pattern@, case_insensitive, true) is None
                &&& matcher_source(matcher) == (MatcherSpec {
                    pattern: pattern@,
                    case_insensitive,
                    multiline: true,
                })
            },
            Err(message) => matcher_rejection(pattern@, case_insensitive, true) == Some(message@),
        },
{
    let mut builder = grep_regex::RegexMatcherBuilder::new();
    builder.case_insensitive(case_insensitive).multi_line(true).crlf(true);
    builder.dot_matches_new_line(true).line_terminator(None);
    builder.build(pattern).map_err(|error| error.to_string())
}

/// `Matcher::find_iter`: the successive occurrences in a block, which do not overlap.
#[verifier::external_body]
fn find_occurrences(matcher: &grep_regex::RegexMatcher, bytes: &[u8]) -> (found: Vec<
    (usize, usize),
>)
    ensures
        found@ == matcher_occurrences(
            matcher_source(*matcher).pattern,
            matcher_source(*matcher).case_insensitive,
            matcher_source(*matcher).multiline,
            bytes@,
        ),
        occurrences_in_order(found@, bytes@.len() as int),
{
    let mut found: Vec<(usize, usize)> = Vec::new();
    let collect = |occurrence: grep_matcher::Match| {
        found.push((occurrence.start(), occurrence.end()));
        true
    };
    let _ = grep_matcher::Matcher::find_iter(matcher, bytes, collect);
    found
}

/// The events of one walk over a text.
struct EventLog {
    events: Vec<SearchEvent>,
}

impl grep_searcher::Sink for EventLog {
    type Error = std::io::Error;

    #[verifier::external_body]
    fn matched(
        &mut self,
        searcher: &grep_searcher::Searcher,
        block: &grep_searcher::SinkMatch<'_>,
    ) -> Result<bool, std::io::Error> {
        self.events.push(
            SearchEvent::Matched {
                offset: block.absolute_byte_offset(),
                line: block.line_number(),
                bytes: block.bytes().to_vec(),
            },
        );
        Ok(true)
    }

    #[verifier::external_body]
    fn context(
        &mut self,
        searcher: &grep_searcher::Searcher,
        line: &grep_searcher::SinkContext<'_>,
    ) -> Result<bool, std::io::Error> {
        let kind = match line.kind() {
            grep_searcher::SinkContextKind::Before => ContextKind::Before,
            grep_searcher::SinkContextKind::After => ContextKind::After,
            grep_searcher::SinkContextKind::Other => ContextKind::Other,
        };
        let (offset, number) = (line.absolute_byte_offset(), line.line_number());
        let bytes = line.bytes().to_vec();
        self.events.push(SearchEvent::Context { offset, line: number, bytes, kind });
        Ok(true)
    }

    fn context_break(&mut self, searcher: &grep_searcher::Searcher) -> Result<bool, std::io::Error> {
        self.events.push(SearchEvent::Break);
        Ok(true)
    }
}

/// `Searcher::search_slice` with line numbers, `\r\n` line ends and a limit on its buffer: what a
/// walk over a text in memory reports to a sink that never stops it, and what breaks it off.
#[verifier::external_body]
fn walk_memory(
    matcher: &grep_regex::RegexMatcher,
    multiline: bool,
    before: usize,
    after: usize,
    heap_limit: usize,
    bytes: &[u8],
) -> (walk: Walk)
    requires
        multiline == matcher_source(*matcher).multiline,
    ensures
        walk@ == memory_events(
            matcher_source(*matcher).pattern,
            matcher_source(*matcher).case_insensitive,
            multiline,
            before as nat,
            after as nat,
            heap_limit as nat,
            bytes@,
        ),
{
    let mut log = EventLog { events: Vec::new() };
    let mut builder = grep_searcher::SearcherBuilder::new();
    builder.line_number(true).line_terminator(grep_matcher::LineTerminator::crlf());
    builder.multi_line(multiline).before_context(before).after_context(after);
    let mut searcher = builder.heap_limit(Some(heap_limit)).build();
    let fault = match searcher.search_slice(matcher, bytes, &mut log) {
        Ok(()) => None,
        Err(error) => Some(
            SearchFault {
                invalid_data: error.kind() == std::io::ErrorKind::InvalidData,
                message: error.to_string(),
            },
        ),
    };
    Walk { events: log.events, fault }
}

/// `Searcher::search_reader` with line numbers, `\r\n` line ends and a limit on its buffer: what
/// a walk over a text that is read piece by piece reports to a sink that never stops it, and what
/// breaks it off.
#[verifier::external_body]
fn walk_stream(
    matcher: &grep_regex::RegexMatcher,
    multiline: bool,
    before: usize,
    after: usize,
    heap_limit: usize,
    bytes: &[u8],
) -> (walk: Walk)
    requires
        multiline == matcher_source(*matcher).multiline,
    ensures
        walk@ == stream_events(
            matcher_source(*matcher).pattern,
            matcher_source(*matcher).case_insensitive,
            multiline,
            before as nat,
            after as nat,
            heap_limit as nat,
            bytes@,
        ),
{
    let mut log = EventLog { events: Vec::new() };
    let mut builder = grep_searcher::SearcherBuilder::new();
    builder.line_number(true).line_terminator(grep_matcher::LineTerminator::crlf());
    builder.multi_line(multiline).before_context(before).after_context(after);
    let mut searcher = builder.heap_limit(Some(heap_limit)).build();
    let fault = match searcher.search_reader(matcher, bytes, &mut log) {
        Ok(()) => None,
        Err(error) => Some(
            SearchFault {
                invalid_data: error.kind() == std::io::ErrorKind::InvalidData,
                message: error.to_string(),
            },
        ),
    };
    Walk { events: log.events, fault }
}

/// A compiled pattern.
pub struct GrepMatcher {
    matcher: grep_regex::RegexMatcher,
    multiline: bool,
}

impl GrepMatcher {
    /// What the pattern was compiled from.
    pub closed spec fn source(&self) -> MatcherSpec {
        matcher_source(self.matcher)
    }

    /// Whether what is kept of the pattern is what it was compiled from.
    pub closed spec fn wf(&self) -> bool {
        self.multiline == matcher_source(self.matcher).multiline
    }

    /// Compiles a pattern, or hands out the message with which it is refused.
    pub fn build(pattern: &str, case_insensitive: bool, multiline: bool) -> (result: Result<
        Self,
        String,
    >)
        ensures
            match result {
                Ok(matcher) => {
                    &&& matcher_rejection(pattern@, case_insensitive, multiline) is None
                    &&& matcher.wf()
                    &&& matcher.source() == (MatcherSpec {
                        pattern: pattern@,
                        case_insensitive,
                        multiline,
                    })
                },
                Err(message) => matcher_rejection(pattern@, case_insensitive, multiline) == Some(
                    message@,
                ),
            },
    {
        let compiled = if multiline {
            compile_multiline(pattern, case_insensitive)
        } else {
            compile_lines(pattern, case_insensitive)
        };
        match compiled {
            Ok(matcher) => Ok(GrepMatcher { matcher, multiline }),
            Err(message) => Err(message),
        }
    }

    /// Whether matches may span lines.
    pub fn is_multiline(&self) -> (multiline: bool)
        requires
            self.wf(),
        ensures
            multiline == self.source().multiline,
    {
        self.multiline
    }

    /// The occurrences in a block.
    pub open spec fn found_in(&self, bytes: Seq<u8>) -> Seq<(usize, usize)> {
        matcher_occurrences(
            self.source().pattern,
            self.source().case_insensitive,
            self.source().multiline,
            bytes,
        )
    }

    /// Finds the occurrences in a block.
    pub fn occurrences(&self, bytes: &[u8]) -> (found: Vec<(usize, usize)>)
        ensures
            found@ == self.found_in(bytes@),
            occurrences_in_order(found@, bytes@.len() as int),
    {
        find_occurrences(&self.matcher, bytes)
    }

    /// What a walk over a text reports: one that is held in memory is walked there, another one
    /// through a buffer.
    pub open spec fn walked(
        &self,
        before: nat,
        after: nat,
        in_memory: bool,
        heap_limit: nat,
        bytes: Seq<u8>,
    ) -> WalkSpec {
        if in_memory {
            memory_events(
                self.source().pattern,
                self.source().case_insensitive,
                self.source().multiline,
                before,
                after,
                heap_limit,
                bytes,
            )
        } else {
            stream_events(
                self.source().pattern,
                self.source().case_insensitive,
                self.source().multiline,
                before,
                after,
                heap_limit,
                bytes,
            )
        }
    }

    /// Walks over a text.
    pub fn walk(
        &self,
        before: usize,
        after: usize,
        in_memory: bool,
        heap_limit: usize,
        bytes: &[u8],
    ) -> (walk: Walk)
        requires
            self.wf(),
        ensures
            walk@ == self.walked(
                before as nat,
                after as nat,
                in_memory,
                heap_limit as nat,
                bytes@,
            ),
    {
        if in_memory {
            walk_memory(&self.matcher, self.multiline, before, after, heap_limit, bytes)
        } else {
            walk_stream(&self.matcher, self.multiline, before, after, heap_limit, bytes)
        }
    }
}

} // verus!
