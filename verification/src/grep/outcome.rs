//! Searching one candidate: from its captured bytes to a result, a reason to skip it, or a
//! failure.

use crate::encoding::detect::{DetectedSpec, OriginSpec};
use crate::encoding::pipeline;
use crate::encoding::pipeline::{
    validate_snapshot_encoding, DecisionSpec, EncodingDecision, ValidatedFileEncoding,
};
use crate::encoding::rejection;
use crate::encoding::rejection::{EncodingRejection, RejectionSpec};
use crate::grep::matcher::{FaultSpec, GrepMatcher, SearchFault};
use crate::grep::plan::GrepSearchPlan;
use crate::grep::search;
use crate::grep::search::{search_text, FileResult, FileSpec, GrepSinkError};
use crate::grep::sink::SinkFault;
use crate::operation::{WorkCheckpoint, WorkStage, WorkStop};
use crate::ordered_window::OrderedError;
use crate::snapshot::capture::{CaptureDisposition, CaptureFailure, MEMORY_SNAPSHOT_LIMIT};
use crate::text;
use crate::text::{chars_of, contains_text, lower_chars, starts_with_text, string_of};
use vstd::prelude::*;
use vstd::slice::slice_subrange;
use vstd::string::*;
use vstd::utf8::*;

verus! {

/// Why a candidate is left out of a search over many files.
#[derive(Debug)]
pub enum CandidateSkip {
    /// Its encoding is not accepted.
    Encoding(EncodingRejection),
    /// It changed while it was read.
    ChangedWhileSearched,
    /// It could not be searched.
    SearchFailure { reason: String, single_file_message: String },
}

/// The mathematical value of a [`CandidateSkip`].
pub enum SkipSpec {
    Encoding(RejectionSpec),
    ChangedWhileSearched,
    SearchFailure { reason: Seq<char>, message: Seq<char> },
}

impl View for CandidateSkip {
    type V = SkipSpec;

    open spec fn view(&self) -> SkipSpec {
        match self {
            CandidateSkip::Encoding(rejection) => SkipSpec::Encoding(rejection@),
            CandidateSkip::ChangedWhileSearched => SkipSpec::ChangedWhileSearched,
            CandidateSkip::SearchFailure { reason, single_file_message } => SkipSpec::SearchFailure {
                reason: reason@,
                message: single_file_message@,
            },
        }
    }
}

impl SkipSpec {
    /// The reason in a list of skipped files.
    pub open spec fn reason(self) -> Seq<char> {
        match self {
            SkipSpec::Encoding(found) => rejection::rejection_reason(found),
            SkipSpec::ChangedWhileSearched => "changed while being searched"@,
            SkipSpec::SearchFailure { reason, .. } => reason,
        }
    }

    /// The message when the candidate was the only one.
    pub open spec fn message(self, path: Seq<char>) -> Seq<char> {
        match self {
            SkipSpec::Encoding(found) => rejection::rejection_message(found, path),
            SkipSpec::ChangedWhileSearched => "File changed while it was being searched: "@ + path
                + ". Retry the grep request."@,
            SkipSpec::SearchFailure { message, .. } => message,
        }
    }
}

impl CandidateSkip {
    /// The reason in a list of skipped files.
    pub fn reason(&self) -> (reason: String)
        ensures
            reason@ == self@.reason(),
    {
        match self {
            CandidateSkip::Encoding(rejection) => rejection.skip_reason(),
            CandidateSkip::ChangedWhileSearched => "changed while being searched".to_owned(),
            CandidateSkip::SearchFailure { reason, .. } => reason.as_str().to_owned(),
        }
    }

    /// The message when the candidate was the only one.
    pub fn single_file_message(&self, path: &str) -> (message: String)
        ensures
            message@ == self@.message(path@),
    {
        match self {
            CandidateSkip::Encoding(rejection) => rejection.message(path),
            CandidateSkip::ChangedWhileSearched => {
                let mut message = "File changed while it was being searched: ".to_owned();
                message.append(path);
                message.append(". Retry the grep request.");
                message
            },
            CandidateSkip::SearchFailure { single_file_message, .. } =>
                single_file_message.as_str().to_owned(),
        }
    }
}

/// Why the search of a candidate failed.
#[derive(Debug)]
pub enum SearchFailure {
    /// What was captured exceeds its limit; a narrower window may fit.
    CaptureOverflow,
    Cancelled,
    EpochRetired,
    /// The candidate alone is at fault.
    Candidate(CandidateSkip),
    /// Nothing can go on.
    Fatal(String),
}

/// The mathematical value of a [`SearchFailure`].
pub enum FailureSpec {
    CaptureOverflow,
    Cancelled,
    EpochRetired,
    Candidate(SkipSpec),
    Fatal(Seq<char>),
}

impl View for SearchFailure {
    type V = FailureSpec;

    open spec fn view(&self) -> FailureSpec {
        match self {
            SearchFailure::CaptureOverflow => FailureSpec::CaptureOverflow,
            SearchFailure::Cancelled => FailureSpec::Cancelled,
            SearchFailure::EpochRetired => FailureSpec::EpochRetired,
            SearchFailure::Candidate(skip) => FailureSpec::Candidate(skip@),
            SearchFailure::Fatal(message) => FailureSpec::Fatal(message@),
        }
    }
}

/// The message for a snapshot that could not be made or read.
pub open spec fn snapshot_message(path: Seq<char>, error: Seq<char>) -> Seq<char> {
    "Cannot create a stable search snapshot for "@ + path + ": "@ + error
        + ". Free temporary-disk space or retry after the file stops changing."@
}

/// The message for a snapshot that could not be made or read.
pub fn stable_snapshot_error(path: &str, error: &str) -> (message: String)
    ensures
        message@ == snapshot_message(path@, error@),
{
    let mut message = "Cannot create a stable search snapshot for ".to_owned();
    message.append(path);
    message.append(": ");
    message.append(error);
    message.append(". Free temporary-disk space or retry after the file stops changing.");
    message
}

/// The begin of the messages for a file that could not be searched.
pub open spec fn search_prefix(path: Seq<char>) -> Seq<char> {
    "Cannot search file "@ + path + ": "@
}

fn search_message(path: &str, rest: &str) -> (message: String)
    ensures
        message@ == search_prefix(path@) + rest@,
{
    let mut message = "Cannot search file ".to_owned();
    message.append(path);
    message.append(": ");
    message.append(rest);
    message
}

/// The message for captured content past its limit.
pub open spec fn capture_limit_message(path: Seq<char>) -> Seq<char> {
    search_prefix(path)
        + "matching content and context exceed the 64 MiB safety limit. Narrow the pattern or reduce context."@
}

/// The message for captured content past its limit.
pub fn capture_limit_error(path: &str) -> (message: String)
    ensures
        message@ == capture_limit_message(path@),
{
    search_message(
        path,
        "matching content and context exceed the 64 MiB safety limit. Narrow the pattern or reduce context.",
    )
}

/// Whether an error speaks of the limit of a buffer.
pub open spec fn names_limit(error: Seq<char>) -> bool {
    text::contains_text_spec(text::lowered(error), "heap limit"@) || text::contains_text_spec(
        text::lowered(error),
        "allocation limit"@,
    )
}

/// Whether an error speaks of the limit of a buffer.
pub fn is_limit_error(error: &str) -> (limit: bool)
    ensures
        limit == names_limit(error@),
{
    let lower = string_of(lower_chars(chars_of(error).as_slice()).as_slice());
    contains_text(lower.as_str(), "heap limit") || contains_text(lower.as_str(), "allocation limit")
}

/// Where the first sentence of a text ends: before a full stop that a space follows, or at the
/// end.
pub open spec fn sentence_end(chars: Seq<char>, from: int) -> int
    decreases chars.len() - from,
{
    if from < 0 || from + 1 >= chars.len() {
        chars.len() as int
    } else if chars[from] == '.' && chars[from + 1] == ' ' {
        from
    } else {
        sentence_end(chars, from + 1)
    }
}

/// A text without the full stops at its end.
pub open spec fn without_stops(chars: Seq<char>) -> Seq<char>
    decreases chars.len(),
{
    if chars.len() > 0 && chars.last() == '.' {
        without_stops(chars.drop_last())
    } else {
        chars
    }
}

/// What a message says beyond the words that it begins with.
pub open spec fn remainder(path: Seq<char>, message: Seq<char>) -> Seq<char> {
    let search = search_prefix(path);
    let snapshot = "Cannot create a stable search snapshot for "@ + path + ": "@;
    if text::occurs_at(message, search, 0) {
        message.skip(search.len() as int)
    } else if text::occurs_at(message, snapshot, 0) {
        message.skip(snapshot.len() as int)
    } else {
        message
    }
}

/// The reason that a message gives: its first sentence, beyond the words it begins with.
pub open spec fn short_reason(path: Seq<char>, message: Seq<char>) -> Seq<char> {
    let rest = remainder(path, message);
    without_stops(rest.take(sentence_end(rest, 0)))
}

/// A failure of the candidate alone.
pub open spec fn candidate_failed(path: Seq<char>, message: Seq<char>) -> FailureSpec {
    FailureSpec::Candidate(
        SkipSpec::SearchFailure { reason: short_reason(path, message), message },
    )
}

proof fn sentence_end_bounds(chars: Seq<char>, from: int)
    requires
        0 <= from <= chars.len(),
    ensures
        from <= sentence_end(chars, from) <= chars.len(),
    decreases chars.len() - from,
{
    if from + 1 < chars.len() && !(chars[from] == '.' && chars[from + 1] == ' ') {
        sentence_end_bounds(chars, from + 1);
    }
}

fn first_sentence(chars: &[char]) -> (reason: String)
    ensures
        reason@ == without_stops(chars@.take(sentence_end(chars@, 0))),
{
    let mut end: usize = 0;
    proof {
        sentence_end_bounds(chars@, 0);
    }
    while end < chars.len() && !(end + 1 < chars.len() && chars[end] == '.' && chars[end + 1]
        == ' ')
        invariant
            end <= chars.len(),
            sentence_end(chars@, 0) == sentence_end(chars@, end as int),
        decreases chars.len() - end,
    {
        end += 1;
    }
    let ghost sentence = chars@.take(end as int);
    assert(sentence_end(chars@, end as int) == end);
    let mut kept: usize = end;
    assert(chars@.take(kept as int) =~= sentence);
    while kept > 0 && chars[kept - 1] == '.'
        invariant
            kept <= end <= chars.len(),
            without_stops(sentence) == without_stops(chars@.take(kept as int)),
        decreases kept,
    {
        assert(chars@.take(kept as int).drop_last() =~= chars@.take(kept - 1));
        kept -= 1;
    }
    let part = slice_subrange(chars, 0, kept);
    assert(part@ =~= chars@.take(kept as int));
    string_of(part)
}

/// A failure of the candidate alone, with the reason that its message gives.
pub fn candidate_failure(path: &str, message: String) -> (failure: SearchFailure)
    ensures
        failure@ == candidate_failed(path@, message@),
{
    let search = search_message(path, "");
    proof {
        reveal_strlit("");
        assert(search@ =~= search_prefix(path@));
    }
    let mut snapshot = "Cannot create a stable search snapshot for ".to_owned();
    snapshot.append(path);
    snapshot.append(": ");
    let chars = chars_of(message.as_str());
    let skipped: usize = if starts_with_text(message.as_str(), search.as_str()) {
        search.as_str().unicode_len()
    } else if starts_with_text(message.as_str(), snapshot.as_str()) {
        snapshot.as_str().unicode_len()
    } else {
        0
    };
    let rest = slice_subrange(chars.as_slice(), skipped, chars.len());
    assert(rest@ =~= remainder(path@, message@));
    let reason = first_sentence(rest);
    SearchFailure::Candidate(
        CandidateSkip::SearchFailure { reason, single_file_message: message },
    )
}

/// The skip of a candidate whose captured content exceeds its limit.
pub fn capture_overflow_skip(path: &str) -> (skip: CandidateSkip)
    ensures
        skip@ == (SkipSpec::SearchFailure {
            reason: "matching content and context exceed the 64 MiB safety limit"@,
            message: capture_limit_message(path@),
        }),
{
    CandidateSkip::SearchFailure {
        reason: "matching content and context exceed the 64 MiB safety limit".to_owned(),
        single_file_message: capture_limit_error(path),
    }
}

impl FailureSpec {
    /// The message for a failure that ends the search.
    pub open spec fn message(self, path: Seq<char>) -> Seq<char> {
        match self {
            FailureSpec::CaptureOverflow => capture_limit_message(path),
            FailureSpec::Cancelled | FailureSpec::EpochRetired => "Request cancelled."@,
            FailureSpec::Candidate(skip) => skip.message(path),
            FailureSpec::Fatal(message) => message,
        }
    }
}

/// The message for a failure that ends the search. Retired work never reports one.
pub fn failure_message(path: &str, failure: &SearchFailure) -> (message: String)
    requires
        !(failure@ is EpochRetired),
    ensures
        message@ == failure@.message(path@),
{
    match failure {
        SearchFailure::CaptureOverflow => capture_limit_error(path),
        SearchFailure::Cancelled | SearchFailure::EpochRetired => "Request cancelled.".to_owned(),
        SearchFailure::Candidate(skip) => skip.single_file_message(path),
        SearchFailure::Fatal(message) => message.as_str().to_owned(),
    }
}

/// The failure of a candidate whose worker panicked.
pub fn panicked(path: &str) -> (failure: SearchFailure)
    ensures
        failure@ == FailureSpec::Fatal(
            "Search worker panicked while processing "@ + path@ + "."@,
        ),
{
    let mut message = "Search worker panicked while processing ".to_owned();
    message.append(path);
    message.append(".");
    SearchFailure::Fatal(message)
}

/// The message for an ordered search that cannot go on.
pub fn ordered_error_message(error: OrderedError) -> (message: String)
    ensures
        message@ == match error {
            OrderedError::Cancelled => "Request cancelled."@,
            OrderedError::GenerationOverflow =>
                "Cannot continue ordered search because its generation counter overflowed."@,
        },
{
    match error {
        OrderedError::Cancelled => "Request cancelled.".to_owned(),
        OrderedError::GenerationOverflow =>
            "Cannot continue ordered search because its generation counter overflowed.".to_owned(),
    }
}

/// What the search of one candidate came to.
pub struct SearchOutcome {
    pub result: Option<FileResult>,
    pub entries_seen: usize,
    pub skip: Option<CandidateSkip>,
    pub transcoding_note: Option<String>,
    pub used_fallback: bool,
}

/// The mathematical value of a [`SearchOutcome`].
pub struct OutcomeSpec {
    pub result: Option<FileSpec>,
    pub entries_seen: usize,
    pub skip: Option<SkipSpec>,
    pub transcoding_note: Option<Seq<char>>,
    pub used_fallback: bool,
}

impl View for SearchOutcome {
    type V = OutcomeSpec;

    open spec fn view(&self) -> OutcomeSpec {
        OutcomeSpec {
            result: search::file_view(self.result),
            entries_seen: self.entries_seen,
            skip: match self.skip {
                Some(skip) => Some(skip@),
                None => None,
            },
            transcoding_note: match self.transcoding_note {
                Some(note) => Some(note@),
                None => None,
            },
            used_fallback: self.used_fallback,
        }
    }
}

/// Nothing found, nothing to report.
pub open spec fn nothing() -> OutcomeSpec {
    OutcomeSpec {
        result: None,
        entries_seen: 0,
        skip: None,
        transcoding_note: None,
        used_fallback: false,
    }
}

/// A candidate that is skipped.
pub open spec fn skipped(skip: SkipSpec) -> OutcomeSpec {
    OutcomeSpec { skip: Some(skip), ..nothing() }
}

fn without_result(skip: Option<CandidateSkip>) -> (outcome: SearchOutcome)
    ensures
        outcome@ == (OutcomeSpec {
            skip: match skip {
                Some(skip) => Some(skip@),
                None => None,
            },
            ..nothing()
        }),
{
    SearchOutcome {
        result: None,
        entries_seen: 0,
        skip,
        transcoding_note: None,
        used_fallback: false,
    }
}

/// The note that discloses a transcoding.
pub open spec fn transcoding(detected: DetectedSpec, warning: bool) -> Option<Seq<char>> {
    match detected.source_encoding {
        None => None,
        Some(encoding) => Some(
            match detected.origin {
                OriginSpec::Explicit(_) => if warning {
                    "(Note: decoded from "@ + encoding
                        + " as requested; output is UTF-8. Warning: the raw bytes are also valid UTF-8 — if this looks garbled, retry with encoding=\"utf-8\" or omit encoding.)"@
                } else {
                    "(Note: decoded from "@ + encoding + " as requested; output is UTF-8.)"@
                },
                _ => "(Note: decoded from "@ + encoding + "; output is UTF-8.)"@,
            },
        ),
    }
}

/// The rejection of content that does not decode as it was accepted.
pub open spec fn malformed(detected: DetectedSpec) -> RejectionSpec {
    match detected.origin {
        OriginSpec::Explicit(encoding) => RejectionSpec::ExplicitMalformed(encoding),
        OriginSpec::Bom(encoding) => RejectionSpec::BomMismatch(encoding),
        OriginSpec::Automatic => RejectionSpec::Undecodable,
    }
}

/// The UTF-8 text of a content.
pub open spec fn utf8_text(content: Seq<u8>, detected: DetectedSpec) -> Seq<u8> {
    if detected.charset is Utf8 {
        content.skip(detected.bom_len as int)
    } else {
        encode_utf8(pipeline::decoded_content(content, detected)->Some_0)
    }
}

/// Whether a text is searched in memory: as its snapshot is held, or, where matches of a transcoded
/// text are captured, by its own length.
pub open spec fn walked_in_memory(
    plan: GrepSearchPlan,
    content: Seq<u8>,
    detected: DetectedSpec,
) -> bool {
    if plan.captured() is Some && !(detected.charset is Utf8) {
        utf8_text(content, detected).len() <= MEMORY_SNAPSHOT_LIMIT
    } else {
        content.len() <= MEMORY_SNAPSHOT_LIMIT
    }
}

/// The failure of a walk over a text.
pub open spec fn walk_failed(path: Seq<char>, detected: DetectedSpec, fault: FaultSpec) -> FailureSpec {
    candidate_failed(
        path,
        if fault.invalid_data {
            rejection::rejection_message(malformed(detected), path)
        } else if names_limit(fault.message) {
            search_prefix(path)
                + "a line or multiline buffer exceeds the 64 MiB safety limit. Narrow the path or search without multiline."@
        } else {
            snapshot_message(path, fault.message)
        },
    )
}

/// The failure of keeping what was found.
pub open spec fn keeping_failed(path: Seq<char>, fault: SinkFault) -> FailureSpec {
    match fault {
        SinkFault::CaptureOverflow => FailureSpec::CaptureOverflow,
        SinkFault::CountOverflow => candidate_failed(
            path,
            search_prefix(path) + "the occurrence count overflowed."@,
        ),
        SinkFault::OffsetOverflow => candidate_failed(
            path,
            search_prefix(path) + search::offset_words(),
        ),
    }
}

/// What the search of an accepted text comes to.
pub open spec fn text_searched(
    path: Seq<char>,
    content: Seq<u8>,
    matcher: GrepMatcher,
    plan: GrepSearchPlan,
    decision: DecisionSpec,
    used_fallback: bool,
) -> Result<OutcomeSpec, FailureSpec> {
    match decision {
        DecisionSpec::Text { detected, total_lines, has_trailing_newline, warning } => {
            let text = utf8_text(content, detected);
            let in_memory = walked_in_memory(plan, content, detected);
            let walk = search::walk_of(matcher, plan, in_memory, text);
            match search::event_steps(matcher, search::begun(plan), walk.events) {
                Err(fault) => Err(keeping_failed(path, fault)),
                Ok((state, goes_on)) => if goes_on && walk.fault is Some {
                    Err(walk_failed(path, detected, walk.fault->Some_0))
                } else {
                    let output = state.output(
                        path,
                        total_lines as usize,
                        has_trailing_newline,
                        text,
                    );
                    Ok(
                        OutcomeSpec {
                            result: output.result,
                            entries_seen: output.entries_seen,
                            skip: None,
                            transcoding_note: if used_fallback {
                                None
                            } else {
                                transcoding(detected, warning)
                            },
                            used_fallback,
                        },
                    )
                },
            }
        },
        _ => Ok(nothing()),
    }
}

/// What the search of an accepted text comes to has the form that its plan asks for.
proof fn text_fits_plan(
    path: Seq<char>,
    content: Seq<u8>,
    matcher: GrepMatcher,
    plan: GrepSearchPlan,
    decision: DecisionSpec,
    used_fallback: bool,
)
    ensures
        text_searched(path, content, matcher, plan, decision, used_fallback) matches Ok(outcome)
            ==> search::fits_plan(plan, outcome.result),
{
    if let DecisionSpec::Text { detected, total_lines, has_trailing_newline, .. } = decision {
        let text = utf8_text(content, detected);
        let in_memory = walked_in_memory(plan, content, detected);
        search::output_fits_plan(
            matcher,
            plan,
            search::walk_of(matcher, plan, in_memory, text).events,
            path,
            total_lines as usize,
            has_trailing_newline,
            text,
        );
    }
}

/// What the search of a candidate comes to has the form that its plan asks for.
pub proof fn candidate_fits_plan(
    path: Seq<char>,
    capture: Result<CaptureDisposition, CaptureFailure<String>>,
    content: Seq<u8>,
    matcher: GrepMatcher,
    plan: GrepSearchPlan,
    explicit: Option<Seq<char>>,
    fallback: Option<Seq<char>>,
)
    ensures
        candidate_searched(path, capture, content, matcher, plan, explicit, fallback) matches Ok(
            outcome,
        ) ==> search::fits_plan(plan, outcome.result),
{
    text_fits_plan(path, content, matcher, plan, pipeline::classify(content, explicit), false);
    text_fits_plan(path, content, matcher, plan, pipeline::classify(content, fallback), true);
}

/// What the search of a captured content comes to: a content in no accepted encoding gets a
/// second chance under the fallback, unless the request named an encoding or a byte order mark
/// is contradicted.
pub open spec fn content_searched(
    path: Seq<char>,
    content: Seq<u8>,
    matcher: GrepMatcher,
    plan: GrepSearchPlan,
    explicit: Option<Seq<char>>,
    fallback: Option<Seq<char>>,
) -> Result<OutcomeSpec, FailureSpec> {
    let decision = pipeline::classify(content, explicit);
    match decision {
        DecisionSpec::Text { .. } => text_searched(path, content, matcher, plan, decision, false),
        DecisionSpec::Binary => Ok(nothing()),
        DecisionSpec::Rejected(found) => {
            if explicit is None && !(found is BomMismatch) && fallback is Some && (
            pipeline::classify(content, fallback) is Text) {
                text_searched(
                    path,
                    content,
                    matcher,
                    plan,
                    pipeline::classify(content, fallback),
                    true,
                )
            } else {
                Ok(skipped(SkipSpec::Encoding(found)))
            }
        },
    }
}

/// Whether a failure only tells that the work was stopped.
pub open spec fn stopped(failure: FailureSpec) -> bool {
    failure is Cancelled || failure is EpochRetired
}

/// Whether a failure tells that the work was stopped, for a reason that a check of it may give.
pub open spec fn stopped_by<W: WorkCheckpoint>(work: &W, failure: FailureSpec) -> bool {
    match failure {
        FailureSpec::Cancelled => work.stops_with(WorkStop::RequestCancelled),
        FailureSpec::EpochRetired => work.stops_with(WorkStop::EpochRetired),
        _ => false,
    }
}

/// The failure that a stop stands for.
pub fn stop_failure(stop: WorkStop) -> (failure: SearchFailure)
    ensures
        failure@ == match stop {
            WorkStop::RequestCancelled => FailureSpec::Cancelled,
            WorkStop::EpochRetired => FailureSpec::EpochRetired,
        },
{
    match stop {
        WorkStop::RequestCancelled => SearchFailure::Cancelled,
        WorkStop::EpochRetired => SearchFailure::EpochRetired,
    }
}

fn walk_failure(path: &str, validated: &ValidatedFileEncoding, fault: &SearchFault) -> (failure:
    SearchFailure)
    ensures
        failure@ == walk_failed(path@, validated.detected@, fault@),
{
    let message = if fault.invalid_data {
        validated.malformed_rejection().message(path)
    } else if is_limit_error(fault.message.as_str()) {
        search_message(
            path,
            "a line or multiline buffer exceeds the 64 MiB safety limit. Narrow the path or search without multiline.",
        )
    } else {
        stable_snapshot_error(path, fault.message.as_str())
    };
    candidate_failure(path, message)
}

fn search_validated<W: WorkCheckpoint>(
    path: &str,
    content: &[u8],
    matcher: &GrepMatcher,
    plan: GrepSearchPlan,
    validated: &ValidatedFileEncoding,
    used_fallback: bool,
    Ghost(explicit): Ghost<Option<Seq<char>>>,
    work: &W,
) -> (result: Result<SearchOutcome, SearchFailure>)
    requires
        matcher.wf(),
        pipeline::classify(content@, explicit) == (DecisionSpec::Text {
            detected: validated.detected@,
            total_lines: validated.total_lines as nat,
            has_trailing_newline: validated.has_trailing_newline,
            warning: validated.explicit_utf8_warning,
        }),
    ensures
        ({
            let searched = text_searched(
                path@,
                content@,
                *matcher,
                plan,
                pipeline::classify(content@, explicit),
                used_fallback,
            );
            match result {
                Ok(outcome) => searched == Ok::<OutcomeSpec, FailureSpec>(outcome@),
                Err(failure) => searched == Err::<OutcomeSpec, FailureSpec>(failure@) || (stopped_by(
                    work,
                    failure@,
                ) && !work.never_stops()),
            }
        }),
{
    proof {
        pipeline::text_decision_decodes(content@, explicit);
    }
    let transcoding_note = if used_fallback {
        None
    } else {
        validated.transcoding_note()
    };
    let text = match validated.decode_for_search(content) {
        Some(text) => text,
        None => Vec::new(),
    };
    assert(text@ == utf8_text(content@, validated.detected@));
    if let Err(stop) = work.check_work(WorkStage::BeforeRegexSearch) {
        return Err(stop_failure(stop));
    }
    let captures = plan.content_multiline().is_some();
    let in_memory = if captures && validated.utf8_snapshot_start().is_none() {
        text.len() <= MEMORY_SNAPSHOT_LIMIT
    } else {
        content.len() <= MEMORY_SNAPSHOT_LIMIT
    };
    let sink = match search_text(matcher, plan, in_memory, text.as_slice(), work) {
        Ok(sink) => sink,
        Err(GrepSinkError::Stopped(stop)) => {
            return Err(stop_failure(stop));
        },
        Err(GrepSinkError::CaptureOverflow) => {
            return Err(SearchFailure::CaptureOverflow);
        },
        Err(GrepSinkError::CountOverflow) => {
            return Err(
                candidate_failure(path, search_message(path, "the occurrence count overflowed.")),
            );
        },
        Err(GrepSinkError::Search(message)) => {
            return Err(candidate_failure(path, search_message(path, message.as_str())));
        },
        Err(GrepSinkError::Io(fault)) => {
            return Err(walk_failure(path, validated, &fault));
        },
    };
    if let Err(stop) = work.check_stop() {
        return Err(stop_failure(stop));
    }
    let output = sink.into_output(
        path.to_owned(),
        validated.total_lines,
        validated.has_trailing_newline,
        text,
    );
    Ok(
        SearchOutcome {
            result: output.result,
            entries_seen: output.entries_seen,
            skip: None,
            transcoding_note,
            used_fallback,
        },
    )
}

/// Searches a captured content.
pub fn search_content<W: WorkCheckpoint>(
    path: &str,
    content: &[u8],
    matcher: &GrepMatcher,
    plan: GrepSearchPlan,
    explicit: Option<&str>,
    fallback: Option<&str>,
    work: &W,
) -> (result: Result<SearchOutcome, SearchFailure>)
    requires
        matcher.wf(),
    ensures
        ({
            let searched = content_searched(
                path@,
                content@,
                *matcher,
                plan,
                pipeline::str_view(explicit),
                pipeline::str_view(fallback),
            );
            match result {
                Ok(outcome) => searched == Ok::<OutcomeSpec, FailureSpec>(outcome@),
                Err(failure) => searched == Err::<OutcomeSpec, FailureSpec>(failure@) || (stopped_by(
                    work,
                    failure@,
                ) && !work.never_stops()),
            }
        }),
        work.always_stops() ==> (result matches Err(failure) && stopped(failure@)),
{
    let decision = match validate_snapshot_encoding(content, explicit, work) {
        Ok(decision) => decision,
        Err(stop) => {
            return Err(stop_failure(stop));
        },
    };
    match decision {
        EncodingDecision::Text(validated) => search_validated(
            path,
            content,
            matcher,
            plan,
            &validated,
            false,
            Ghost(pipeline::str_view(explicit)),
            work,
        ),
        EncodingDecision::Binary => Ok(without_result(None)),
        EncodingDecision::Rejected(rejection) => {
            if let Some(label) = fallback {
                let contradicted = match &rejection {
                    EncodingRejection::BomMismatch { .. } => true,
                    _ => false,
                };
                if explicit.is_none() && !contradicted {
                    match validate_snapshot_encoding(content, Some(label), work) {
                        Ok(EncodingDecision::Text(validated)) => {
                            return search_validated(
                                path,
                                content,
                                matcher,
                                plan,
                                &validated,
                                true,
                                Ghost(pipeline::str_view(fallback)),
                                work,
                            );
                        },
                        Ok(_) => {},
                        Err(stop) => {
                            return Err(stop_failure(stop));
                        },
                    }
                }
            }
            Ok(without_result(Some(CandidateSkip::Encoding(rejection))))
        },
    }
}

/// What the search of a candidate comes to, given what became of capturing it.
pub open spec fn candidate_searched(
    path: Seq<char>,
    capture: Result<CaptureDisposition, CaptureFailure<String>>,
    content: Seq<u8>,
    matcher: GrepMatcher,
    plan: GrepSearchPlan,
    explicit: Option<Seq<char>>,
    fallback: Option<Seq<char>>,
) -> Result<OutcomeSpec, FailureSpec> {
    match capture {
        Ok(CaptureDisposition::Searchable(_)) => content_searched(
            path,
            content,
            matcher,
            plan,
            explicit,
            fallback,
        ),
        Ok(CaptureDisposition::BinarySkipped(_)) => Ok(nothing()),
        Ok(CaptureDisposition::EncodingRejected { rejection, .. }) => Ok(
            skipped(SkipSpec::Encoding(rejection@)),
        ),
        Ok(CaptureDisposition::FileChanged) => Ok(skipped(SkipSpec::ChangedWhileSearched)),
        Err(CaptureFailure::Cancelled) => Err(FailureSpec::Cancelled),
        Err(CaptureFailure::EpochRetired) => Err(FailureSpec::EpochRetired),
        Err(CaptureFailure::InvalidEncoding(rejection)) => Err(
            candidate_failed(path, rejection::rejection_message(rejection@, path)),
        ),
        Err(CaptureFailure::Io(message)) => Err(candidate_failed(path, message@)),
        Err(CaptureFailure::Snapshot(error)) => Err(
            candidate_failed(path, snapshot_message(path, error@)),
        ),
    }
}

/// Searches a candidate. `capture` is what became of capturing it; a failure to read it carries
/// its message, a failure to store it the words of its error. `content` is what a searchable
/// snapshot holds.
pub fn search_candidate<W: WorkCheckpoint>(
    path: &str,
    capture: Result<CaptureDisposition, CaptureFailure<String>>,
    content: &[u8],
    matcher: &GrepMatcher,
    plan: GrepSearchPlan,
    explicit: Option<&str>,
    fallback: Option<&str>,
    work: &W,
) -> (result: Result<SearchOutcome, SearchFailure>)
    requires
        matcher.wf(),
    ensures
        ({
            let searched = candidate_searched(
                path@,
                capture,
                content@,
                *matcher,
                plan,
                pipeline::str_view(explicit),
                pipeline::str_view(fallback),
            );
            match result {
                Ok(outcome) => searched == Ok::<OutcomeSpec, FailureSpec>(outcome@),
                Err(failure) => searched == Err::<OutcomeSpec, FailureSpec>(failure@) || (stopped_by(
                    work,
                    failure@,
                ) && !work.never_stops()),
            }
        }),
        result matches Ok(outcome) ==> search::fits_plan(plan, outcome@.result),
{
    proof {
        candidate_fits_plan(
            path@,
            capture,
            content@,
            *matcher,
            plan,
            pipeline::str_view(explicit),
            pipeline::str_view(fallback),
        );
    }
    match capture {
        Ok(CaptureDisposition::Searchable(_)) => search_content(
            path,
            content,
            matcher,
            plan,
            explicit,
            fallback,
            work,
        ),
        Ok(CaptureDisposition::BinarySkipped(_)) => Ok(without_result(None)),
        Ok(CaptureDisposition::EncodingRejected { rejection, .. }) => Ok(
            without_result(Some(CandidateSkip::Encoding(rejection))),
        ),
        Ok(CaptureDisposition::FileChanged) => Ok(
            without_result(Some(CandidateSkip::ChangedWhileSearched)),
        ),
        Err(CaptureFailure::Cancelled) => Err(SearchFailure::Cancelled),
        Err(CaptureFailure::EpochRetired) => Err(SearchFailure::EpochRetired),
        Err(CaptureFailure::InvalidEncoding(rejection)) => {
            let message = rejection.message(path);
            Err(candidate_failure(path, message))
        },
        Err(CaptureFailure::Io(message)) => Err(candidate_failure(path, message)),
        Err(CaptureFailure::Snapshot(error)) => {
            let message = stable_snapshot_error(path, error.as_str());
            Err(candidate_failure(path, message))
        },
    }
}

/// The outcome of a worker: a stop is no outcome.
pub fn for_work(result: Result<SearchOutcome, SearchFailure>) -> (work: Result<
    Result<SearchOutcome, SearchFailure>,
    WorkStop,
>)
    ensures
        match result {
            Err(SearchFailure::Cancelled) => work == Err::<
                Result<SearchOutcome, SearchFailure>,
                WorkStop,
            >(WorkStop::RequestCancelled),
            Err(SearchFailure::EpochRetired) => work == Err::<
                Result<SearchOutcome, SearchFailure>,
                WorkStop,
            >(WorkStop::EpochRetired),
            _ => work == Ok::<Result<SearchOutcome, SearchFailure>, WorkStop>(result),
        },
{
    match result {
        Err(SearchFailure::Cancelled) => Err(WorkStop::RequestCancelled),
        Err(SearchFailure::EpochRetired) => Err(WorkStop::EpochRetired),
        outcome => Ok(outcome),
    }
}

} // verus!
