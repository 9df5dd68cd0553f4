//! Searching one text under a plan.

use crate::grep::capture;
use crate::grep::capture::{
    Block, CaptureRules, CaptureState, ContentPayload, ContentSink, ContentView,
};
use crate::grep::matcher;
use crate::grep::matcher::{EventSpec, GrepMatcher, SearchEvent, SearchFault, Walk, WalkSpec};
use crate::grep::plan;
use crate::grep::plan::{GrepSearchPlan, SEARCH_HEAP_LIMIT_BYTES};
use crate::grep::sink::{
    CountSink, ExistsSink, SinkControl, SinkFault, SinkInterrupt, SinkMetrics,
};
use crate::operation::{WorkCheckpoint, WorkStop};
use vstd::prelude::*;
use vstd::string::*;

verus! {

/// What a search of one text found out so far.
pub enum PlanSink {
    Exists(ExistsSink),
    Count(CountSink),
    Content(ContentSink),
}

/// The mathematical value of a [`PlanSink`].
pub enum PlanState {
    Exists(ExistsSink),
    Count(CountSink),
    Content(CaptureRules, CaptureState),
}

impl View for PlanSink {
    type V = PlanState;

    open spec fn view(&self) -> PlanState {
        match self {
            PlanSink::Exists(sink) => PlanState::Exists(*sink),
            PlanSink::Count(sink) => PlanState::Count(*sink),
            PlanSink::Content(sink) => PlanState::Content(sink.rules(), sink@),
        }
    }
}

/// The state in which a search under a plan begins.
pub open spec fn begun(plan: GrepSearchPlan) -> PlanState {
    match plan {
        GrepSearchPlan::Exists => PlanState::Exists(
            ExistsSink { control: SinkControl::fresh(), matched: false },
        ),
        GrepSearchPlan::Count => PlanState::Count(
            CountSink { control: SinkControl::fresh(), occurrence_total: 0 },
        ),
        GrepSearchPlan::ContentLine(spec) => PlanState::Content(
            CaptureRules { by_occurrence: false, spec },
            CaptureState::fresh(),
        ),
        GrepSearchPlan::ContentOccurrence(spec) => PlanState::Content(
            CaptureRules { by_occurrence: true, spec },
            CaptureState::fresh(),
        ),
    }
}

/// What one event does: the state afterwards, and whether to go on.
pub open spec fn event_step(matcher: GrepMatcher, state: PlanState, event: EventSpec) -> Result<
    (PlanState, bool),
    SinkFault,
> {
    match state {
        PlanState::Exists(sink) => match event {
            EventSpec::Matched { bytes, .. } => {
                let after = sink.after(bytes, matcher.found_in(bytes));
                Ok((PlanState::Exists(after), !after.matched))
            },
            _ => Ok((state, true)),
        },
        PlanState::Count(sink) => match event {
            EventSpec::Matched { bytes, .. } => match sink.after(bytes, matcher.found_in(bytes)) {
                Ok(after) => Ok((PlanState::Count(after), true)),
                Err(fault) => Err(fault),
            },
            _ => Ok((state, true)),
        },
        PlanState::Content(rules, content) => match event {
            EventSpec::Matched { offset, line, bytes } => {
                let block = Block { bytes, base: offset, first: plan::or_else(line, 1) };
                match capture::block_step(rules, block, content, matcher.found_in(bytes)) {
                    Ok((after, goes_on)) => Ok((PlanState::Content(rules, after), goes_on)),
                    Err(fault) => Err(fault),
                }
            },
            EventSpec::Context { offset, line, bytes, kind } => match capture::context_step(
                rules,
                content,
                bytes,
                offset,
                line,
                kind,
            ) {
                Ok(after) => Ok((PlanState::Content(rules, after), true)),
                Err(fault) => Err(fault),
            },
            EventSpec::Break => Ok((PlanState::Content(rules, capture::gap_step(content)), true)),
        },
    }
}

/// What a series of events does, up to the one that ends the search.
pub open spec fn event_steps(
    matcher: GrepMatcher,
    state: PlanState,
    events: Seq<EventSpec>,
) -> Result<(PlanState, bool), SinkFault>
    decreases events.len(),
{
    if events.len() == 0 {
        Ok((state, true))
    } else {
        match event_steps(matcher, state, events.drop_last()) {
            Err(fault) => Err(fault),
            Ok((state, goes_on)) => if goes_on {
                event_step(matcher, state, events.last())
            } else {
                Ok((state, false))
            },
        }
    }
}

/// An end of a search stays the end.
proof fn ended_search_stays(
    matcher: GrepMatcher,
    state: PlanState,
    events: Seq<EventSpec>,
    count: int,
)
    requires
        0 <= count <= events.len(),
        match event_steps(matcher, state, events.take(count)) {
            Ok((_, goes_on)) => !goes_on,
            Err(_) => true,
        },
    ensures
        event_steps(matcher, state, events) == event_steps(matcher, state, events.take(count)),
    decreases events.len(),
{
    if count == events.len() {
        assert(events.take(count) =~= events);
    } else {
        assert(events.drop_last().take(count) =~= events.take(count));
        ended_search_stays(matcher, state, events.drop_last(), count);
    }
}

/// Every state of a search under a content plan is sound: exactly the entries of its window are
/// selected and kept, within the limit of the capture.
pub proof fn search_stays_sound(
    matcher: GrepMatcher,
    rules: CaptureRules,
    state: CaptureState,
    events: Seq<EventSpec>,
)
    requires
        capture::sound(rules, state),
    ensures
        event_steps(matcher, PlanState::Content(rules, state), events) matches Ok((after, _)) ==> {
            &&& after matches PlanState::Content(kept, content)
            &&& kept == rules
            &&& capture::sound(rules, content)
        },
    decreases events.len(),
{
    if events.len() > 0 {
        search_stays_sound(matcher, rules, state, events.drop_last());
        if let Ok((PlanState::Content(_, content), true)) = event_steps(
            matcher,
            PlanState::Content(rules, state),
            events.drop_last(),
        ) {
            match events.last() {
                EventSpec::Matched { offset, line, bytes } => {
                    let block = Block { bytes, base: offset, first: plan::or_else(line, 1) };
                    let found = matcher.found_in(bytes);
                    if capture::block_step(rules, block, content, found) is Ok {
                        capture::block_stays_sound(rules, block, content, found);
                    }
                },
                EventSpec::Context { offset, line, bytes, kind } => {
                    if capture::context_step(rules, content, bytes, offset, line, kind) is Ok {
                        capture::context_stays_sound(rules, content, bytes, offset, line, kind);
                    }
                },
                EventSpec::Break => {
                    capture::gap_stays_sound(rules, content);
                },
            }
        }
    }
}

/// What one file contributes to a page.
#[derive(Debug)]
pub struct FileResult {
    pub path: String,
    pub payload: FilePayload,
}

/// What was found in a file.
#[derive(Debug)]
pub enum FilePayload {
    Exists,
    Count(usize),
    Content(ContentPayload),
}

/// The mathematical value of a [`FilePayload`].
pub enum PayloadSpec {
    Exists,
    Count(usize),
    Content(ContentView),
}

/// The mathematical value of a [`FileResult`].
pub struct FileSpec {
    pub path: Seq<char>,
    pub payload: PayloadSpec,
}

impl View for FileResult {
    type V = FileSpec;

    open spec fn view(&self) -> FileSpec {
        FileSpec {
            path: self.path@,
            payload: match &self.payload {
                FilePayload::Exists => PayloadSpec::Exists,
                FilePayload::Count(total) => PayloadSpec::Count(*total),
                FilePayload::Content(content) => PayloadSpec::Content(content@),
            },
        }
    }
}

impl FileSpec {
    /// How many occurrences the file has.
    pub open spec fn total(self) -> usize {
        match self.payload {
            PayloadSpec::Exists => 1,
            PayloadSpec::Count(total) => total,
            PayloadSpec::Content(content) => content.occurrence_total,
        }
    }

    /// How many entries the file has.
    pub open spec fn entry_total(self) -> nat {
        match self.payload {
            PayloadSpec::Content(content) => content.entries.len(),
            _ => 0,
        }
    }

    /// The file with only some of its entries.
    pub open spec fn trimmed(self, start: int, end: int) -> Self {
        match self.payload {
            PayloadSpec::Content(content) => FileSpec {
                payload: PayloadSpec::Content(
                    ContentView { entries: content.entries.subrange(start, end), ..content },
                ),
                ..self
            },
            _ => self,
        }
    }
}

impl FileResult {
    /// How many occurrences the file has; one when only that it has any is known.
    pub fn occurrence_count(&self) -> (count: usize)
        ensures
            count == self@.total(),
    {
        match &self.payload {
            FilePayload::Exists => 1,
            FilePayload::Count(total) => *total,
            FilePayload::Content(content) => content.occurrence_total,
        }
    }

    /// How many entries the file has.
    pub fn entry_count(&self) -> (count: usize)
        ensures
            count == self@.entry_total(),
    {
        match &self.payload {
            FilePayload::Content(content) => content.entries.len(),
            _ => 0,
        }
    }

    /// Leaves only the entries from `start` up to `end`.
    pub fn trim_entries(self, start: usize, end: usize) -> (result: Self)
        requires
            start <= end <= self@.entry_total(),
        ensures
            result@ == self@.trimmed(start as int, end as int),
    {
        match self.payload {
            FilePayload::Content(content) => {
                let entries = vstd::slice::slice_to_vec(
                    vstd::slice::slice_subrange(content.entries.as_slice(), start, end),
                );
                let kept = ContentPayload {
                    lines: content.lines,
                    occurrences: content.occurrences,
                    entries,
                    occurrence_total: content.occurrence_total,
                    total_lines: content.total_lines,
                    has_trailing_newline: content.has_trailing_newline,
                    text: content.text,
                };
                FileResult { path: self.path, payload: FilePayload::Content(kept) }
            },
            payload => FileResult { path: self.path, payload },
        }
    }
}

/// What a search of one text came to.
pub struct SinkOutput {
    pub result: Option<FileResult>,
    pub entries_seen: usize,
}

/// The mathematical value of a [`SinkOutput`].
pub struct OutputSpec {
    pub result: Option<FileSpec>,
    pub entries_seen: usize,
}

/// A file result as a mathematical value.
pub open spec fn file_view(result: Option<FileResult>) -> Option<FileSpec> {
    match result {
        Some(result) => Some(result@),
        None => None,
    }
}

impl View for SinkOutput {
    type V = OutputSpec;

    open spec fn view(&self) -> OutputSpec {
        OutputSpec { result: file_view(self.result), entries_seen: self.entries_seen }
    }
}

impl PlanState {
    /// What the search came to: a file without a match or without a selected entry has no
    /// result.
    pub open spec fn output(
        self,
        path: Seq<char>,
        total_lines: usize,
        has_trailing_newline: bool,
        text: Seq<u8>,
    ) -> OutputSpec {
        match self {
            PlanState::Exists(sink) => if sink.matched {
                OutputSpec {
                    result: Some(FileSpec { path, payload: PayloadSpec::Exists }),
                    entries_seen: 1,
                }
            } else {
                OutputSpec { result: None, entries_seen: 0 }
            },
            PlanState::Count(sink) => if sink.occurrence_total > 0 {
                OutputSpec {
                    result: Some(
                        FileSpec { path, payload: PayloadSpec::Count(sink.occurrence_total) },
                    ),
                    entries_seen: 1,
                }
            } else {
                OutputSpec { result: None, entries_seen: 0 }
            },
            PlanState::Content(_, state) => OutputSpec {
                result: if state.entries.len() > 0 {
                    Some(
                        FileSpec {
                            path,
                            payload: PayloadSpec::Content(
                                ContentView {
                                    lines: state.lines,
                                    occurrences: state.occurrences,
                                    entries: state.entries,
                                    occurrence_total: state.occurrence_total,
                                    total_lines,
                                    has_trailing_newline,
                                    text,
                                },
                            ),
                        },
                    )
                } else {
                    None
                },
                entries_seen: state.entries_seen,
            },
        }
    }
}

impl PlanSink {
    /// Whether the state is usable.
    pub open spec fn wf(&self) -> bool {
        match self {
            PlanSink::Content(sink) => sink.wf(),
            _ => true,
        }
    }

    /// Nothing found yet.
    pub fn new(plan: GrepSearchPlan) -> (sink: Self)
        ensures
            sink.wf(),
            sink@ == begun(plan),
    {
        match plan {
            GrepSearchPlan::Exists => PlanSink::Exists(
                ExistsSink { control: SinkControl::new(), matched: false },
            ),
            GrepSearchPlan::Count => PlanSink::Count(
                CountSink { control: SinkControl::new(), occurrence_total: 0 },
            ),
            GrepSearchPlan::ContentLine(spec) => PlanSink::Content(
                ContentSink::new(CaptureRules { by_occurrence: false, spec }),
            ),
            GrepSearchPlan::ContentOccurrence(spec) => PlanSink::Content(
                ContentSink::new(CaptureRules { by_occurrence: true, spec }),
            ),
        }
    }

    /// Takes one event in and tells whether to go on.
    pub fn accept<W: WorkCheckpoint>(
        &mut self,
        matcher: &GrepMatcher,
        event: &SearchEvent,
        work: &W,
    ) -> (result: Result<bool, SinkInterrupt>)
        requires
            old(self).wf(),
        ensures
            final(self).wf(),
            match result {
                Ok(goes_on) => event_step(*matcher, old(self)@, event@) == Ok::<
                    (PlanState, bool),
                    SinkFault,
                >((final(self)@, goes_on)),
                Err(SinkInterrupt::Stopped(stop)) => work.stops_with(stop) && !work.never_stops(),
                Err(SinkInterrupt::Fault(fault)) => event_step(*matcher, old(self)@, event@)
                    == Err::<(PlanState, bool), SinkFault>(fault),
            },
    {
        match self {
            PlanSink::Exists(sink) => match event {
                SearchEvent::Matched { bytes, .. } => sink.matched(matcher, bytes.as_slice(), work),
                _ => Ok(true),
            },
            PlanSink::Count(sink) => match event {
                SearchEvent::Matched { bytes, .. } => sink.matched(matcher, bytes.as_slice(), work),
                _ => Ok(true),
            },
            PlanSink::Content(sink) => match event {
                SearchEvent::Matched { offset, line, bytes } => sink.matched(
                    matcher,
                    bytes.as_slice(),
                    *offset,
                    *line,
                    work,
                ),
                SearchEvent::Context { offset, line, bytes, kind } => sink.context(
                    bytes.as_slice(),
                    *offset,
                    *line,
                    *kind,
                    work,
                ),
                SearchEvent::Break => sink.context_break(work),
            },
        }
    }

    /// How much work was done.
    pub fn metrics(&self) -> (metrics: SinkMetrics)
        ensures
            metrics == match self@ {
                PlanState::Exists(sink) => sink.control.metrics,
                PlanState::Count(sink) => sink.control.metrics,
                PlanState::Content(_, state) => state.control.metrics,
            },
    {
        match self {
            PlanSink::Exists(sink) => sink.control.metrics,
            PlanSink::Count(sink) => sink.control.metrics,
            PlanSink::Content(sink) => sink.control().metrics,
        }
    }

    /// What the search came to.
    pub fn into_output(
        self,
        path: String,
        total_lines: usize,
        has_trailing_newline: bool,
        text: Vec<u8>,
    ) -> (output: SinkOutput)
        ensures
            output@ == self@.output(path@, total_lines, has_trailing_newline, text@),
    {
        match self {
            PlanSink::Exists(sink) => if sink.matched {
                SinkOutput {
                    result: Some(FileResult { path, payload: FilePayload::Exists }),
                    entries_seen: 1,
                }
            } else {
                SinkOutput { result: None, entries_seen: 0 }
            },
            PlanSink::Count(sink) => if sink.occurrence_total > 0 {
                SinkOutput {
                    result: Some(
                        FileResult { path, payload: FilePayload::Count(sink.occurrence_total) },
                    ),
                    entries_seen: 1,
                }
            } else {
                SinkOutput { result: None, entries_seen: 0 }
            },
            PlanSink::Content(sink) => {
                let entries_seen = sink.entries_seen();
                let content = sink.into_payload(text, total_lines, has_trailing_newline);
                let result = if content.entries.len() > 0 {
                    Some(FileResult { path, payload: FilePayload::Content(content) })
                } else {
                    None
                };
                SinkOutput { result, entries_seen }
            },
        }
    }
}

/// Whether a result is of the form that a plan asks for: a content plan gives captured content,
/// every entry of which stands for something.
pub open spec fn fits_plan(plan: GrepSearchPlan, result: Option<FileSpec>) -> bool {
    plan.captured() is Some && result is Some ==> {
        &&& result->Some_0.payload matches PayloadSpec::Content(content)
        &&& capture::all_known(content.occurrences, content.entries)
    }
}

/// What a search under a plan comes to has the form that the plan asks for.
pub proof fn output_fits_plan(
    matcher: GrepMatcher,
    plan: GrepSearchPlan,
    events: Seq<EventSpec>,
    path: Seq<char>,
    total_lines: usize,
    has_trailing_newline: bool,
    text: Seq<u8>,
)
    ensures
        event_steps(matcher, begun(plan), events) matches Ok((state, _)) ==> fits_plan(
            plan,
            state.output(path, total_lines, has_trailing_newline, text).result,
        ),
{
    if let PlanState::Content(rules, state) = begun(plan) {
        capture::fresh_is_sound(rules);
        search_stays_sound(matcher, rules, state, events);
    }
}

/// Why a text could not be searched to the end.
#[derive(Debug)]
pub enum GrepSinkError {
    /// The text could not be walked over.
    Io(SearchFault),
    /// The walk reported something unusable.
    Search(String),
    /// The search was told to stop.
    Stopped(WorkStop),
    /// What was captured exceeds its limit.
    CaptureOverflow,
    /// A count is past the last number.
    CountOverflow,
}

/// The words for a position past the last number.
pub open spec fn offset_words() -> Seq<char> {
    "ripgrep reported a byte offset that overflowed the search source"@
}

impl GrepSinkError {
    /// Whether this is the error for a fault.
    pub open spec fn reports(&self, fault: SinkFault) -> bool {
        match fault {
            SinkFault::OffsetOverflow => self matches GrepSinkError::Search(message) && message@
                == offset_words(),
            SinkFault::CaptureOverflow => self is CaptureOverflow,
            SinkFault::CountOverflow => self is CountOverflow,
        }
    }

    /// The error in words.
    pub open spec fn written(&self) -> Seq<char> {
        match self {
            GrepSinkError::Io(fault) => fault.message@,
            GrepSinkError::Search(message) => message@,
            GrepSinkError::Stopped(WorkStop::RequestCancelled) => "request cancelled"@,
            GrepSinkError::Stopped(WorkStop::EpochRetired) => "search epoch retired"@,
            GrepSinkError::CaptureOverflow => "grep capture limit exceeded"@,
            GrepSinkError::CountOverflow => "grep occurrence count overflowed"@,
        }
    }

    /// The error in words.
    pub fn message(&self) -> (message: String)
        ensures
            message@ == self.written(),
    {
        match self {
            GrepSinkError::Io(fault) => fault.message.as_str().to_owned(),
            GrepSinkError::Search(message) => message.as_str().to_owned(),
            GrepSinkError::Stopped(WorkStop::RequestCancelled) => "request cancelled".to_owned(),
            GrepSinkError::Stopped(WorkStop::EpochRetired) => "search epoch retired".to_owned(),
            GrepSinkError::CaptureOverflow => "grep capture limit exceeded".to_owned(),
            GrepSinkError::CountOverflow => "grep occurrence count overflowed".to_owned(),
        }
    }
}

/// What a search under a plan reports of a text.
pub open spec fn walk_of(
    matcher: GrepMatcher,
    plan: GrepSearchPlan,
    in_memory: bool,
    text: Seq<u8>,
) -> WalkSpec {
    matcher.walked(
        plan.before() as nat,
        plan.after() as nat,
        in_memory,
        SEARCH_HEAP_LIMIT_BYTES as nat,
        text,
    )
}

/// Searches a text under a plan. What breaks the walk off counts only where the search had not ended
/// before.
pub fn search_text<W: WorkCheckpoint>(
    matcher: &GrepMatcher,
    plan: GrepSearchPlan,
    in_memory: bool,
    text: &[u8],
    work: &W,
) -> (result: Result<PlanSink, GrepSinkError>)
    requires
        matcher.wf(),
    ensures
        ({
            let walk = walk_of(*matcher, plan, in_memory, text@);
            match result {
                Ok(sink) => event_steps(*matcher, begun(plan), walk.events) matches Ok(
                    (state, goes_on),
                ) && state == sink@ && (goes_on ==> walk.fault is None),
                Err(GrepSinkError::Stopped(stop)) => work.stops_with(stop) && !work.never_stops(),
                Err(GrepSinkError::Io(reported)) => event_steps(
                    *matcher,
                    begun(plan),
                    walk.events,
                ) matches Ok((_, goes_on)) && goes_on && walk.fault == Some(reported@),
                Err(error) => event_steps(*matcher, begun(plan), walk.events) matches Err(fault)
                    && error.reports(fault),
            }
        }),
{
    let mut sink = PlanSink::new(plan);
    let Walk { events, fault } = matcher.walk(
        plan.before_context(),
        plan.after_context(),
        in_memory,
        SEARCH_HEAP_LIMIT_BYTES,
        text,
    );
    let ghost seen = matcher::event_views(events@);
    let mut goes_on = true;
    let mut index: usize = 0;
    assert(seen.take(0) =~= Seq::<EventSpec>::empty());
    while index < events.len() && goes_on
        invariant
            index <= events.len(),
            seen == matcher::event_views(events@),
            walk_of(*matcher, plan, in_memory, text@).events == seen,
            sink.wf(),
            event_steps(*matcher, begun(plan), seen.take(index as int)) == Ok::<
                (PlanState, bool),
                SinkFault,
            >((sink@, goes_on)),
        decreases events.len() - index,
    {
        proof {
            assert(seen.take(index + 1).drop_last() =~= seen.take(index as int));
            assert(seen.take(index + 1).last() == events@[index as int]@);
        }
        match sink.accept(matcher, &events[index], work) {
            Ok(more) => {
                goes_on = more;
            },
            Err(SinkInterrupt::Stopped(stop)) => {
                return Err(GrepSinkError::Stopped(stop));
            },
            Err(SinkInterrupt::Fault(fault)) => {
                proof {
                    ended_search_stays(*matcher, begun(plan), seen, index + 1);
                }
                return Err(
                    match fault {
                        SinkFault::OffsetOverflow => GrepSinkError::Search(
                            "ripgrep reported a byte offset that overflowed the search source".to_owned(),
                        ),
                        SinkFault::CaptureOverflow => GrepSinkError::CaptureOverflow,
                        SinkFault::CountOverflow => GrepSinkError::CountOverflow,
                    },
                );
            },
        }
        index += 1;
    }
    proof {
        if goes_on {
            assert(seen.take(index as int) =~= seen);
        } else {
            ended_search_stays(*matcher, begun(plan), seen, index as int);
        }
    }
    if goes_on {
        if let Some(fault) = fault {
            return Err(GrepSinkError::Io(fault));
        }
    }
    Ok(sink)
}

} // verus!
