//! The entries of a walk: which of them match, and what is shown of those.

use crate::glob::request::{GlobOutputMode, SortMode};
use crate::operation::{WorkCheckpoint, WorkStage, WorkStop};
use crate::queue::into_queue;
use crate::text;
use crate::text::decimal_text;
use vstd::prelude::*;
use vstd::string::*;

verus! {

/// What kind an entry of a walk is.
#[derive(Clone, Copy, Debug, PartialEq, Eq, Structural)]
pub enum EntryKind {
    File,
    Link,
    Other,
}

/// What to do with an entry of a walk.
#[derive(Clone, Copy, Debug, PartialEq, Eq, Structural)]
pub enum EntryStep {
    /// Leave it out.
    Skip,
    /// Take it as it is.
    Take,
    /// Ask for its metadata, following links or not.
    Stat { follow: bool },
}

/// What to do with an entry of a walk. A plain file that is only listed needs no metadata.
pub open spec fn step_of_entry(
    kind: EntryKind,
    matched: bool,
    sort: SortMode,
    output_mode: GlobOutputMode,
) -> EntryStep {
    if kind == EntryKind::Other || !matched {
        EntryStep::Skip
    } else if kind == EntryKind::File && sort == SortMode::Path && output_mode
        == GlobOutputMode::Paths {
        EntryStep::Take
    } else {
        EntryStep::Stat { follow: kind == EntryKind::Link }
    }
}

/// Decides what to do with an entry of a walk.
pub fn entry_step(
    kind: EntryKind,
    matched: bool,
    sort: SortMode,
    output_mode: GlobOutputMode,
) -> (step: EntryStep)
    ensures
        step == step_of_entry(kind, matched, sort, output_mode),
{
    if kind == EntryKind::Other || !matched {
        EntryStep::Skip
    } else if kind == EntryKind::File && sort == SortMode::Path && output_mode
        == GlobOutputMode::Paths {
        EntryStep::Take
    } else {
        EntryStep::Stat { follow: kind == EntryKind::Link }
    }
}

/// A time of modification, as its distance from the begin of 1970.
#[derive(Clone, Copy, Debug, PartialEq, Eq, Structural)]
pub struct ModifiedTime {
    /// It lies before 1970.
    pub earlier: bool,
    pub seconds: u64,
    pub nanoseconds: u32,
}

impl ModifiedTime {
    /// Nanoseconds since the begin of 1970.
    pub open spec fn unix_nanos(self) -> int {
        let distance = self.seconds * 1000000000 + self.nanoseconds;
        if self.earlier {
            -distance
        } else {
            distance
        }
    }

    /// Nanoseconds since the begin of 1970.
    pub fn to_unix_nanos(self) -> (nanos: i128)
        ensures
            nanos == self.unix_nanos(),
    {
        let distance: i128 = self.seconds as i128 * 1000000000 + self.nanoseconds as i128;
        if self.earlier {
            -distance
        } else {
            distance
        }
    }
}

/// An opaque moment, told at some distance from UTC.
#[verifier::external_type_specification]
#[verifier::external_body]
pub struct ExOffsetDateTime(time::OffsetDateTime);

/// The nanoseconds since the begin of 1970 at which a moment lies.
pub uninterp spec fn moment_nanos(moment: time::OffsetDateTime) -> int;

/// The seconds by which the clock that a moment is told on is ahead of UTC.
pub uninterp spec fn moment_offset(moment: time::OffsetDateTime) -> int;

/// The words with which a number of nanoseconds is refused as a moment; `None` for one in range.
pub uninterp spec fn moment_rejection(nanos: int) -> Option<Seq<char>>;

/// How a moment is written under a description on a clock at some distance from UTC, or the words
/// with which that fails.
pub uninterp spec fn moment_text(nanos: int, offset: int, description: Seq<char>) -> Result<
    Seq<char>,
    Seq<char>,
>;

/// A text as a JSON string, or the words with which that fails.
pub uninterp spec fn json_text(text: Seq<char>) -> Result<Seq<char>, Seq<char>>;

/// `OffsetDateTime::from_unix_timestamp_nanos`: the moment so many nanoseconds after the begin of
/// 1970, told in UTC, or an error for one out of range.
#[verifier::external_body]
fn moment_at(nanos: i128) -> (result: Result<time::OffsetDateTime, String>)
    ensures
        match result {
            Ok(moment) => moment_rejection(nanos as int) is None && moment_nanos(moment) == nanos
                && moment_offset(moment) == 0,
            Err(words) => moment_rejection(nanos as int) == Some(words@),
        },
{
    time::OffsetDateTime::from_unix_timestamp_nanos(nanos).map_err(|error| error.to_string())
}

/// `OffsetDateTime::format` under a description that `format_description::parse_borrowed` reads:
/// what is written depends on the instant, the distance from UTC and the description.
#[verifier::external_body]
fn write_moment(moment: time::OffsetDateTime, description: &str) -> (result: Result<
    String,
    String,
>)
    ensures
        match result {
            Ok(written) => moment_text(
                moment_nanos(moment),
                moment_offset(moment),
                description@,
            ) == Ok::<
                Seq<char>,
                Seq<char>,
            >(written@),
            Err(words) => moment_text(
                moment_nanos(moment),
                moment_offset(moment),
                description@,
            ) == Err::<
                Seq<char>,
                Seq<char>,
            >(words@),
        },
{
    let items = time::format_description::parse_borrowed::<1>(description)
        .map_err(|error| error.to_string())?;
    moment.format(&items).map_err(|error| error.to_string())
}

/// `serde_json::to_string` of a string.
#[verifier::external_body]
fn json_string(text: &str) -> (result: Result<String, String>)
    ensures
        match result {
            Ok(written) => json_text(text@) == Ok::<Seq<char>, Seq<char>>(written@),
            Err(words) => json_text(text@) == Err::<Seq<char>, Seq<char>>(words@),
        },
{
    serde_json::to_string(text).map_err(|error| error.to_string())
}

/// How times of modification are written.
pub open spec fn utc_description() -> Seq<char> {
    "[year]-[month]-[day]T[hour]:[minute]:[second].[subsecond digits:9]Z"@
}

/// A time of modification in writing, or the message of the error.
pub open spec fn modified_utc(nanos: int) -> Result<Seq<char>, Seq<char>> {
    match moment_rejection(nanos) {
        Some(words) => Err("file modification time is out of range: "@ + words),
        None => match moment_text(nanos, 0, utc_description()) {
            Ok(written) => Ok(written),
            Err(words) => Err("cannot format file modification time: "@ + words),
        },
    }
}

/// Writes a time of modification.
pub fn format_modified_utc(modified: ModifiedTime) -> (result: Result<String, String>)
    ensures
        match result {
            Ok(written) => modified_utc(modified.unix_nanos()) == Ok::<Seq<char>, Seq<char>>(
                written@,
            ),
            Err(message) => modified_utc(modified.unix_nanos()) == Err::<Seq<char>, Seq<char>>(
                message@,
            ),
        },
{
    match moment_at(modified.to_unix_nanos()) {
        Ok(moment) => match write_moment(
            moment,
            "[year]-[month]-[day]T[hour]:[minute]:[second].[subsecond digits:9]Z",
        ) {
            Ok(written) => Ok(written),
            Err(words) => {
                let mut message = "cannot format file modification time: ".to_owned();
                message.append(words.as_str());
                Err(message)
            },
        },
        Err(words) => {
            let mut message = "file modification time is out of range: ".to_owned();
            message.append(words.as_str());
            Err(message)
        },
    }
}

/// The details of a file as one JSON object, given its parts as JSON strings.
pub open spec fn details_object(path: Seq<char>, bytes: u64, modified: Seq<char>) -> Seq<char> {
    "{\"path\":"@ + path + ",\"bytes\":"@ + text::decimal(bytes as nat) + ",\"modified\":"@
        + modified + "}"@
}

/// Puts the details of a file together as one JSON object.
pub fn write_details(path: &str, bytes: u64, modified: &str) -> (written: String)
    ensures
        written@ == details_object(path@, bytes, modified@),
{
    let mut written = "{\"path\":".to_owned();
    written.append(path);
    written.append(",\"bytes\":");
    written.append(decimal_text(bytes).as_str());
    written.append(",\"modified\":");
    written.append(modified);
    written.append("}");
    written
}

/// The details of a file, or the message of the error.
pub open spec fn match_details(
    path: Seq<char>,
    bytes: Option<u64>,
    modified: Option<ModifiedTime>,
) -> Result<Seq<char>, Seq<char>> {
    match bytes {
        None => Err("glob detail metadata is missing the file size"@),
        Some(bytes) => match modified {
            None => Err("glob detail metadata is missing the modification time"@),
            Some(modified) => match modified_utc(modified.unix_nanos()) {
                Err(message) => Err(message),
                Ok(written) => match (json_text(path), json_text(written)) {
                    (Ok(path), Ok(written)) => Ok(details_object(path, bytes, written)),
                    (Err(words), _) => Err("cannot serialize glob details: "@ + words),
                    (_, Err(words)) => Err("cannot serialize glob details: "@ + words),
                },
            },
        },
    }
}

fn serialize_failure(words: &str) -> (message: String)
    ensures
        message@ == "cannot serialize glob details: "@ + words@,
{
    let mut message = "cannot serialize glob details: ".to_owned();
    message.append(words);
    message
}

/// Writes the details of a file.
pub fn format_match_details(path: &str, bytes: Option<u64>, modified: Option<ModifiedTime>) -> (
    result: Result<String, String>)
    ensures
        match result {
            Ok(written) => match_details(path@, bytes, modified) == Ok::<Seq<char>, Seq<char>>(
                written@,
            ),
            Err(message) => match_details(path@, bytes, modified) == Err::<Seq<char>, Seq<char>>(
                message@,
            ),
        },
{
    let bytes = match bytes {
        Some(bytes) => bytes,
        None => {
            return Err("glob detail metadata is missing the file size".to_owned());
        },
    };
    let modified = match modified {
        Some(modified) => modified,
        None => {
            return Err("glob detail metadata is missing the modification time".to_owned());
        },
    };
    let written = match format_modified_utc(modified) {
        Ok(written) => written,
        Err(message) => {
            return Err(message);
        },
    };
    let quoted_path = match json_string(path) {
        Ok(quoted) => quoted,
        Err(words) => {
            return Err(serialize_failure(words.as_str()));
        },
    };
    match json_string(written.as_str()) {
        Ok(quoted) => Ok(write_details(quoted_path.as_str(), bytes, quoted.as_str())),
        Err(words) => Err(serialize_failure(words.as_str())),
    }
}

/// What is known of a file.
#[derive(Debug)]
pub struct EntryMetadata {
    pub bytes: u64,
    /// The time of modification, or why it could not be told.
    pub modified: Result<ModifiedTime, String>,
}

/// What became of asking for metadata.
#[derive(Debug)]
pub enum StatAnswer {
    /// A file.
    File(EntryMetadata),
    /// Something else.
    NotFile,
    /// There is nothing, or a link that leads nowhere.
    NotFound,
    /// It could not be told.
    Failed(String),
}

/// An entry of a walk, with the answers that were asked for.
#[derive(Debug)]
pub struct GlobCandidate {
    /// The path as it is shown.
    pub display: String,
    /// The path as the system knows it, which tells apart paths that are shown alike.
    pub native_key: Vec<u8>,
    pub kind: EntryKind,
    /// The patterns match its path.
    pub matched: bool,
    /// The answer without following links, where it was asked for.
    pub plain: Option<StatAnswer>,
    /// The answer with links followed, where it was asked for.
    pub followed: Option<StatAnswer>,
}

/// A matching file.
#[derive(Debug)]
pub struct MatchEntry {
    /// The path as it is shown.
    pub display: String,
    /// The path as the system knows it.
    pub native_key: Vec<u8>,
    pub modified: Option<ModifiedTime>,
    /// What is shown of the file.
    pub rendered: String,
}

/// A matching file as contracts speak of it.
pub struct MatchSpec {
    pub display: Seq<char>,
    pub native_key: Seq<u8>,
    pub modified: Option<ModifiedTime>,
    pub rendered: Seq<char>,
}

impl View for MatchEntry {
    type V = MatchSpec;

    open spec fn view(&self) -> MatchSpec {
        MatchSpec {
            display: self.display@,
            native_key: self.native_key@,
            modified: self.modified,
            rendered: self.rendered@,
        }
    }
}

/// Matching files as contracts speak of them.
pub open spec fn match_views(entries: Seq<MatchEntry>) -> Seq<MatchSpec> {
    entries.map(|i: int, entry: MatchEntry| entry@)
}

/// An entry that could not be evaluated.
#[derive(Debug)]
pub struct EntryFailure {
    pub display: String,
    pub message: String,
}

/// Paths and messages of entries that could not be evaluated.
pub open spec fn failure_views(failures: Seq<EntryFailure>) -> Seq<(Seq<char>, Seq<char>)> {
    failures.map(|i: int, failure: EntryFailure| (failure.display@, failure.message@))
}

/// What becomes of an entry.
pub enum Evaluated {
    Skip,
    Take(MatchSpec),
    Fail(Seq<char>),
}

/// What becomes of an entry that is a file.
pub open spec fn taken_with(
    candidate: GlobCandidate,
    metadata: EntryMetadata,
    sort: SortMode,
    output_mode: GlobOutputMode,
) -> Evaluated {
    let plain = MatchSpec {
        display: candidate.display@,
        native_key: candidate.native_key@,
        modified: None,
        rendered: candidate.display@,
    };
    if sort == SortMode::Path && output_mode == GlobOutputMode::Paths {
        Evaluated::Take(plain)
    } else {
        match metadata.modified {
            Err(message) => Evaluated::Fail(message@),
            Ok(modified) => if output_mode == GlobOutputMode::Paths {
                Evaluated::Take(MatchSpec { modified: Some(modified), ..plain })
            } else {
                match match_details(candidate.display@, Some(metadata.bytes), Some(modified)) {
                    Ok(rendered) => Evaluated::Take(
                        MatchSpec { modified: Some(modified), rendered, ..plain },
                    ),
                    Err(message) => Evaluated::Fail(message),
                }
            },
        }
    }
}

/// What becomes of an entry by its answer with links followed: one that was not asked for, or that
/// finds nothing, leaves the entry out.
pub open spec fn by_followed(
    candidate: GlobCandidate,
    sort: SortMode,
    output_mode: GlobOutputMode,
) -> Evaluated {
    match candidate.followed {
        Some(StatAnswer::File(metadata)) => taken_with(candidate, metadata, sort, output_mode),
        Some(StatAnswer::Failed(message)) => Evaluated::Fail(message@),
        _ => Evaluated::Skip,
    }
}

/// What becomes of an entry. Where the answer without following links is missing or failed in any
/// way, the answer with links followed decides.
pub open spec fn evaluated(
    candidate: GlobCandidate,
    sort: SortMode,
    output_mode: GlobOutputMode,
) -> Evaluated {
    match step_of_entry(candidate.kind, candidate.matched, sort, output_mode) {
        EntryStep::Skip => Evaluated::Skip,
        EntryStep::Take => Evaluated::Take(
            MatchSpec {
                display: candidate.display@,
                native_key: candidate.native_key@,
                modified: None,
                rendered: candidate.display@,
            },
        ),
        EntryStep::Stat { follow } => if follow {
            by_followed(candidate, sort, output_mode)
        } else {
            match candidate.plain {
                Some(StatAnswer::File(metadata)) => taken_with(
                    candidate,
                    metadata,
                    sort,
                    output_mode,
                ),
                Some(StatAnswer::NotFile) => Evaluated::Skip,
                _ => by_followed(candidate, sort, output_mode),
            }
        },
    }
}

fn take_with(
    display: String,
    native_key: Vec<u8>,
    metadata: EntryMetadata,
    sort: SortMode,
    output_mode: GlobOutputMode,
    Ghost(candidate): Ghost<GlobCandidate>,
) -> (result: Result<Option<MatchEntry>, EntryFailure>)
    requires
        display@ == candidate.display@,
        native_key@ == candidate.native_key@,
    ensures
        gives(result, candidate, taken_with(candidate, metadata, sort, output_mode)),
{
    let shown = display.as_str().to_owned();
    if sort == SortMode::Path && output_mode == GlobOutputMode::Paths {
        return Ok(Some(MatchEntry { display, native_key, modified: None, rendered: shown }));
    }
    match metadata.modified {
        Err(message) => Err(EntryFailure { display, message }),
        Ok(modified) => if output_mode == GlobOutputMode::Paths {
            Ok(
                Some(
                    MatchEntry { display, native_key, modified: Some(modified), rendered: shown },
                ),
            )
        } else {
            match format_match_details(display.as_str(), Some(metadata.bytes), Some(modified)) {
                Ok(rendered) => Ok(
                    Some(MatchEntry { display, native_key, modified: Some(modified), rendered }),
                ),
                Err(message) => Err(EntryFailure { display, message }),
            }
        },
    }
}

/// Whether a result says what becomes of an entry.
pub open spec fn gives(
    result: Result<Option<MatchEntry>, EntryFailure>,
    candidate: GlobCandidate,
    outcome: Evaluated,
) -> bool {
    match result {
        Ok(None) => outcome == Evaluated::Skip,
        Ok(Some(entry)) => outcome == Evaluated::Take(entry@),
        Err(failure) => outcome == Evaluated::Fail(failure.message@) && failure.display@
            == candidate.display@,
    }
}

/// Evaluates an entry of a walk.
pub fn evaluate_match(candidate: GlobCandidate, sort: SortMode, output_mode: GlobOutputMode) -> (
    result: Result<Option<MatchEntry>, EntryFailure>)
    ensures
        gives(result, candidate, evaluated(candidate, sort, output_mode)),
{
    let ghost whole = candidate;
    let GlobCandidate { display, native_key, kind, matched, plain, followed } = candidate;
    match entry_step(kind, matched, sort, output_mode) {
        EntryStep::Skip => {
            return Ok(None);
        },
        EntryStep::Take => {
            let rendered = display.as_str().to_owned();
            return Ok(Some(MatchEntry { display, native_key, modified: None, rendered }));
        },
        EntryStep::Stat { follow } => {
            if !follow {
                match plain {
                    Some(StatAnswer::File(metadata)) => {
                        return take_with(
                            display,
                            native_key,
                            metadata,
                            sort,
                            output_mode,
                            Ghost(whole),
                        );
                    },
                    Some(StatAnswer::NotFile) => {
                        return Ok(None);
                    },
                    _ => {},
                }
            }
        },
    }
    match followed {
        Some(StatAnswer::File(metadata)) => take_with(
            display,
            native_key,
            metadata,
            sort,
            output_mode,
            Ghost(whole),
        ),
        Some(StatAnswer::Failed(message)) => Err(EntryFailure { display, message }),
        _ => Ok(None),
    }
}

/// The matching files of a walk, in its order.
pub open spec fn matches_of(
    candidates: Seq<GlobCandidate>,
    sort: SortMode,
    output_mode: GlobOutputMode,
) -> Seq<MatchSpec>
    decreases candidates.len(),
{
    if candidates.len() == 0 {
        Seq::empty()
    } else {
        let before = matches_of(candidates.drop_last(), sort, output_mode);
        match evaluated(candidates.last(), sort, output_mode) {
            Evaluated::Take(entry) => before.push(entry),
            _ => before,
        }
    }
}

/// The paths and messages of the entries of a walk that could not be evaluated, in its order.
pub open spec fn failures_of(
    candidates: Seq<GlobCandidate>,
    sort: SortMode,
    output_mode: GlobOutputMode,
) -> Seq<(Seq<char>, Seq<char>)>
    decreases candidates.len(),
{
    if candidates.len() == 0 {
        Seq::empty()
    } else {
        let before = failures_of(candidates.drop_last(), sort, output_mode);
        match evaluated(candidates.last(), sort, output_mode) {
            Evaluated::Fail(message) => before.push((candidates.last().display@, message)),
            _ => before,
        }
    }
}

/// The matching files of a walk, and the entries that could not be evaluated.
#[derive(Debug)]
pub struct GlobMatches {
    pub entries: Vec<MatchEntry>,
    pub failures: Vec<EntryFailure>,
}

/// Evaluates the entries of a walk, unless it is told to stop.
pub fn collect_matches<W: WorkCheckpoint>(
    candidates: Vec<GlobCandidate>,
    sort: SortMode,
    output_mode: GlobOutputMode,
    work: &W,
) -> (result: Result<GlobMatches, WorkStop>)
    ensures
        work.never_stops() ==> result is Ok,
        result matches Err(stop) ==> work.stops_with(stop),
        result matches Ok(matches) ==> match_views(matches.entries@) == matches_of(
            candidates@,
            sort,
            output_mode,
        ) && failure_views(matches.failures@) == failures_of(candidates@, sort, output_mode),
{
    let ghost all = candidates@;
    let mut waiting = into_queue(candidates);
    let mut entries: Vec<MatchEntry> = Vec::new();
    let mut failures: Vec<EntryFailure> = Vec::new();
    let ghost mut done: int = 0;
    proof {
        assert(waiting@ =~= all.skip(0));
        assert(match_views(entries@) =~= Seq::<MatchSpec>::empty());
        assert(failure_views(failures@) =~= Seq::<(Seq<char>, Seq<char>)>::empty());
    }
    while waiting.len() > 0
        invariant
            0 <= done <= all.len(),
            waiting@ == all.skip(done),
            match_views(entries@) == matches_of(all.take(done), sort, output_mode),
            failure_views(failures@) == failures_of(all.take(done), sort, output_mode),
        decreases waiting@.len(),
    {
        if let Err(stop) = work.check_work(WorkStage::TraversalEntry) {
            return Err(stop);
        }
        let ghost old_entries = entries@;
        let ghost old_failures = failures@;
        match waiting.pop_front() {
            None => {},
            Some(candidate) => {
                let ghost entry_candidate = candidate;
                let outcome = evaluate_match(candidate, sort, output_mode);
                proof {
                    assert(entry_candidate == all[done]);
                    assert(all.take(done + 1).drop_last() =~= all.take(done));
                    assert(all.take(done + 1).last() == entry_candidate);
                    assert(waiting@ =~= all.skip(done + 1));
                    done = done + 1;
                }
                match outcome {
                    Ok(Some(entry)) => {
                        let ghost shown = entry@;
                        entries.push(entry);
                        assert(match_views(entries@) =~= match_views(old_entries).push(shown));
                    },
                    Ok(None) => {},
                    Err(failure) => {
                        let ghost told = (failure.display@, failure.message@);
                        failures.push(failure);
                        assert(failure_views(failures@) =~= failure_views(old_failures).push(told));
                    },
                }
            },
        }
    }
    proof {
        assert(all.take(done) =~= all);
    }
    Ok(GlobMatches { entries, failures })
}

} // verus!
