//! The course of a batch replacement: the request is checked, every candidate is analyzed before
//! anything is written, and each file is written only if it is still what was analyzed.

use crate::edit::document;
use crate::edit::document::{concurrent_message, TextDocument};
use crate::edit::digest;
use crate::edit::locks::{PathIdentity, PathLocks};
use crate::edit::pattern;
use crate::edit::pattern::{CompiledRegex, PatternOptions};
use crate::edit::replacement;
use crate::edit::replacement::{analyze_file, build_replacement, validate_replacement};
use crate::edit::report;
use crate::edit::report::{
    fallback_facts, format_apply, format_dry_run, is_binary_error, is_encoding_error,
    is_skippable_error, short_issue, AnalyzedFile, AnalyzedSpec, Issue, IssueSpec, Unreachable,
};
use crate::encoding::detect;
use crate::encoding::detect::canonical_encoding_label;
use crate::encoding::pipeline;
use crate::encoding::rejection;
use crate::encoding::rejection::RejectionSpec;
use crate::encoding::stats;
use crate::model::ToolResponse;
use crate::ordering;
use crate::ordering::{sorted_order, KeySpec, SortKey};
use crate::paging;
use crate::text;
use crate::text::{contains_text, decimal_text, same_bytes, same_text};
use vstd::prelude::*;
use vstd::slice::slice_to_vec;
use vstd::string::*;
use vstd::utf8::*;

verus! {

/// The largest file that a replacement touches, unless a limit is given.
pub const DEFAULT_REPLACE_FILE_LIMIT_MIB: u64 = 64;

/// The most candidates that one replacement looks at.
pub const MAX_CANDIDATES: usize = 10000;

/// The most previews that are kept.
pub const MAX_STORED_PREVIEWS: usize = 100000;

/// Parameters of a batch replacement.
#[derive(Clone, Debug)]
pub struct ReplaceRequest {
    /// The regular expression to replace.
    pub pattern: String,
    /// The replacement template; an empty one deletes the match.
    pub replacement: String,
    /// File or directory to edit.
    pub path: String,
    /// Globs for directory targets.
    pub glob: Option<Vec<String>>,
    /// Treat the pattern as a literal string.
    pub literal: Option<bool>,
    /// Match without regard to case.
    pub case_insensitive: Option<bool>,
    /// `.` also matches line feeds.
    pub dot_all: Option<bool>,
    /// Refuse to write more replacements than this.
    pub max_replacements: Option<usize>,
    /// Preview only.
    pub dry_run: Option<bool>,
    /// Label to decode a single file with.
    pub encoding: Option<String>,
    /// Label for the files of a directory that nothing else decodes.
    pub fallback_encoding: Option<String>,
}

/// The existing path that a request leads to.
#[derive(Debug)]
pub struct RootFacts {
    /// The path as it is shown.
    pub display: String,
    /// Whether it is a file.
    pub is_file: bool,
}

/// A flag that is off unless it is given.
pub open spec fn flag(value: Option<bool>) -> bool {
    value == Some(true)
}

fn is_set(value: Option<bool>) -> (result: bool)
    ensures
        result == flag(value),
{
    match value {
        Some(value) => value,
        None => false,
    }
}

/// The view of an optional string.
pub open spec fn string_view(value: Option<String>) -> Option<Seq<char>> {
    match value {
        Some(value) => Some(value@),
        None => None,
    }
}

fn as_text(value: &Option<String>) -> (result: Option<&str>)
    ensures
        report::label_view(result) == string_view(*value),
        pipeline::str_view(result) == string_view(*value),
{
    match value {
        Some(value) => Some(value.as_str()),
        None => None,
    }
}

/// How the pattern of a request is compiled.
pub open spec fn options_of(request: ReplaceRequest) -> PatternOptions {
    PatternOptions {
        literal: flag(request.literal),
        case_insensitive: flag(request.case_insensitive),
        dot_all: flag(request.dot_all),
    }
}

/// The message about a label that selects no encoding.
pub open spec fn label_error(label: Option<String>, display: Seq<char>) -> Option<Seq<char>> {
    match label {
        Some(label) => if detect::explicit_charset(label@) is None {
            Some(rejection::rejection_message(RejectionSpec::InvalidLabel(label@), display))
        } else {
            None
        },
        None => None,
    }
}

/// Why a request is refused before any file is looked at.
pub open spec fn request_error(
    request: ReplaceRequest,
    budget: Result<usize, String>,
    root: Result<RootFacts, String>,
) -> Option<Seq<char>> {
    let effective = pattern::effective_pattern(request.pattern@, flag(request.literal));
    match budget {
        Err(error) => Some(error@),
        Ok(_) => if request.path@.len() == 0 {
            Some(
                "The path parameter is required. Give the absolute file or directory to edit."@,
            )
        } else {
            match root {
                Err(error) => Some(error@),
                Ok(root) => if root.is_file && request.fallback_encoding is Some {
                    Some(
                        "The fallback_encoding parameter only applies to directory targets; use encoding for a single file."@,
                    )
                } else if !root.is_file && request.encoding is Some {
                    Some(
                        "The encoding parameter only applies to single-file targets; use fallback_encoding for a directory."@,
                    )
                } else if label_error(request.encoding, root.display@) is Some {
                    label_error(request.encoding, root.display@)
                } else if label_error(request.fallback_encoding, root.display@) is Some {
                    label_error(request.fallback_encoding, root.display@)
                } else if pattern::pattern_error(request.pattern@, options_of(request)) is Some {
                    pattern::pattern_error(request.pattern@, options_of(request))
                } else if pattern::shortest_match(effective) == Ok::<Option<usize>, Seq<char>>(
                    Some(0usize),
                ) && request.max_replacements is None {
                    Some(
                        "This pattern can match empty (zero-width) and would insert at every position. Set max_replacements to cap the blast radius, then retry."@,
                    )
                } else {
                    pattern::reference_error(
                        request.replacement@,
                        pattern::regex_group_count(effective),
                        pattern::known_names(pattern::regex_group_names(effective)),
                    )
                },
            }
        },
    }
}

/// How many previews a budget leaves room for.
pub open spec fn preview_room(budget: usize) -> nat {
    let wanted = stats::saturated(stats::saturated((budget * 4) as nat) + 32);
    if wanted > MAX_STORED_PREVIEWS {
        MAX_STORED_PREVIEWS as nat
    } else {
        wanted
    }
}

fn preview_slots(budget: usize) -> (slots: usize)
    ensures
        slots == preview_room(budget),
{
    let scaled = match budget.checked_mul(4) {
        Some(scaled) => scaled,
        None => usize::MAX,
    };
    let wanted = match scaled.checked_add(32) {
        Some(wanted) => wanted,
        None => usize::MAX,
    };
    if wanted > MAX_STORED_PREVIEWS {
        MAX_STORED_PREVIEWS
    } else {
        wanted
    }
}

/// A candidate that was opened.
#[derive(Debug)]
pub struct OpenedCandidate {
    pub document: TextDocument,
    /// Whether the fallback encoding was needed.
    pub used_fallback: bool,
    /// Identity of the directory entry.
    pub name_identity: Result<Vec<u8>, String>,
    /// Identity of the file.
    pub identity: Result<Vec<u8>, String>,
}

/// A candidate and what became of opening it.
#[derive(Debug)]
pub struct Candidate {
    /// The path as it is shown.
    pub display: String,
    pub opened: Result<OpenedCandidate, String>,
}

/// What is known after some candidates.
pub struct PlanSpec {
    pub analyzed: Seq<AnalyzedSpec>,
    pub skipped: Seq<IssueSpec>,
    pub failures: Seq<IssueSpec>,
    pub seen: Seq<Seq<u8>>,
    pub total_matches: nat,
    pub preview_slots: nat,
}

impl PlanSpec {
    /// One more file left out.
    pub open spec fn skip(self, path: Seq<char>, message: Seq<char>) -> PlanSpec {
        PlanSpec { skipped: self.skipped.push(IssueSpec { path, message }), ..self }
    }

    /// One more file failed.
    pub open spec fn fail(self, path: Seq<char>, message: Seq<char>) -> PlanSpec {
        PlanSpec { failures: self.failures.push(IssueSpec { path, message }), ..self }
    }
}

/// Byte strings as sequences.
pub open spec fn byte_views(entries: Seq<Vec<u8>>) -> Seq<Seq<u8>> {
    entries.map(|i: int, entry: Vec<u8>| entry@)
}

/// The matches of a run in a document.
pub open spec fn run_matches(run: ReplaceRun, document: TextDocument) -> Seq<pattern::MatchSpec> {
    replacement::document_matches(document, run.regex, run.request.replacement@)
}

/// A failure ends the replacement of a single file and is noted otherwise.
pub open spec fn failed(
    run: ReplaceRun,
    plan: PlanSpec,
    path: Seq<char>,
    message: Seq<char>,
) -> Result<PlanSpec, Seq<char>> {
    if run.single_file {
        Err(message)
    } else {
        Ok(plan.fail(path, message))
    }
}

/// A document analyzed under its identities; a file that was seen before is passed over.
pub open spec fn analyzed(
    run: ReplaceRun,
    plan: PlanSpec,
    document: TextDocument,
    used_fallback: bool,
    name_identity: Seq<u8>,
    identity: Seq<u8>,
) -> Result<PlanSpec, Seq<char>> {
    if plan.seen.contains(identity) {
        Ok(plan)
    } else {
        let kept = replacement::kept(run_matches(run, document));
        let previews = replacement::preview_lines(document, kept, plan.preview_slots);
        let counted = PlanSpec {
            seen: plan.seen.push(identity),
            preview_slots: (plan.preview_slots - previews.len()) as nat,
            total_matches: stats::saturated(plan.total_matches + kept.len()),
            ..plan
        };
        if kept.len() == 0 {
            Ok(counted)
        } else {
            match replacement::replacement_outcome(
                document,
                run_matches(run, document),
                run.limit_mib,
            ) {
                Err(message) => failed(run, counted, document.display(), message),
                Ok(_) => Ok(
                    PlanSpec {
                        analyzed: counted.analyzed.push(
                            AnalyzedSpec {
                                path: document.display(),
                                name_identity,
                                identity,
                                revision: digest::hex(digest::sha256(document.raw())),
                                matches: kept.len(),
                                previews,
                                previews_truncated: kept.len() > previews.len(),
                                used_fallback,
                            },
                        ),
                        ..counted
                    },
                ),
            }
        }
    }
}

/// What is known after one more candidate, or the message that ends the replacement.
pub open spec fn observed(run: ReplaceRun, plan: PlanSpec, candidate: Candidate) -> Result<
    PlanSpec,
    Seq<char>,
> {
    match candidate.opened {
        Err(error) => if run.single_file {
            Err(error@)
        } else if report::binary_error(error@) {
            Ok(plan.skip(candidate.display@, "binary file"@))
        } else if report::skippable_error(error@) {
            Ok(plan.skip(candidate.display@, report::short_issue_spec(error@)))
        } else {
            Ok(plan.fail(candidate.display@, error@))
        },
        Ok(opened) => match opened.name_identity {
            Err(error) => failed(run, plan, candidate.display@, error@),
            Ok(name_identity) => match opened.identity {
                Err(error) => failed(run, plan, candidate.display@, error@),
                Ok(identity) => analyzed(
                    run,
                    plan,
                    opened.document,
                    opened.used_fallback,
                    name_identity@,
                    identity@,
                ),
            },
        },
    }
}

/// What to do with a candidate after the first attempt at opening it.
pub enum OpenStep {
    /// It is open.
    Opened(TextDocument),
    /// Open it again with the fallback encoding.
    Fallback,
    /// It cannot be opened.
    Failed(String),
}

/// Whether the fallback encoding is worth a try after an error.
pub open spec fn wants_fallback(
    error: Seq<char>,
    explicit: Option<Seq<char>>,
    fallback: Option<Seq<char>>,
) -> bool {
    explicit is None && fallback is Some && report::encoding_error(error)
        && !text::contains_text_spec(error, "byte order mark"@)
}

/// Decides about a candidate after the first attempt at opening it.
pub fn open_candidate(
    first: Result<TextDocument, String>,
    explicit: Option<&str>,
    fallback: Option<&str>,
) -> (step: OpenStep)
    ensures
        match first {
            Ok(document) => step == OpenStep::Opened(document),
            Err(error) => if wants_fallback(
                error@,
                report::label_view(explicit),
                report::label_view(fallback),
            ) {
                step == OpenStep::Fallback
            } else {
                step == OpenStep::Failed(error)
            },
        },
{
    match first {
        Ok(document) => OpenStep::Opened(document),
        Err(error) => {
            if explicit.is_none() && fallback.is_some() && is_encoding_error(error.as_str())
                && !contains_text(error.as_str(), "byte order mark") {
                OpenStep::Fallback
            } else {
                OpenStep::Failed(error)
            }
        },
    }
}

/// What to do with a file whose turn it is to be written.
#[derive(Debug)]
pub enum CommitStep {
    /// It must not be written.
    Failed(String),
    /// Its content is already what it would become; so many replacements count as written.
    Unchanged(usize),
    /// Write this content; so many replacements count as written when that works.
    Write { bytes: Vec<u8>, matches: usize },
}

/// The mathematical value of a [`CommitStep`].
pub enum CommitSpec {
    Failed(Seq<char>),
    Unchanged(nat),
    Write(Seq<u8>, nat),
}

impl View for CommitStep {
    type V = CommitSpec;

    open spec fn view(&self) -> CommitSpec {
        match self {
            CommitStep::Failed(message) => CommitSpec::Failed(message@),
            CommitStep::Unchanged(matches) => CommitSpec::Unchanged(*matches as nat),
            CommitStep::Write { bytes, matches } => CommitSpec::Write(bytes@, *matches as nat),
        }
    }
}

/// What to do with an analyzed file that was opened again under its locks.
pub open spec fn commit_spec(
    run: ReplaceRun,
    file: AnalyzedSpec,
    reopened: Result<TextDocument, String>,
    identity: Result<Vec<u8>, String>,
) -> CommitSpec {
    match reopened {
        Err(error) => CommitSpec::Failed(error@),
        Ok(document) => match identity {
            Err(error) => CommitSpec::Failed(error@),
            Ok(identity) => if identity@ != file.identity || digest::hex(
                digest::sha256(document.raw()),
            ) != file.revision {
                CommitSpec::Failed(document::concurrent_message_spec(file.path))
            } else {
                match replacement::replacement_outcome(
                    document,
                    run_matches(run, document),
                    run.limit_mib,
                ) {
                    Err(message) => CommitSpec::Failed(message),
                    Ok((bytes, matches)) => if matches != file.matches {
                        CommitSpec::Failed(document::concurrent_message_spec(file.path))
                    } else if bytes == document.raw() {
                        CommitSpec::Unchanged(matches)
                    } else {
                        CommitSpec::Write(bytes, matches)
                    },
                }
            },
        },
    }
}

/// A file that was exchanged or changed after its analysis is never written.
pub proof fn changed_file_is_not_written(
    run: ReplaceRun,
    file: AnalyzedSpec,
    document: TextDocument,
    identity: Vec<u8>,
)
    requires
        identity@ != file.identity || digest::hex(digest::sha256(document.raw()))
            != file.revision,
    ensures
        commit_spec(run, file, Ok(document), Ok(identity)) == CommitSpec::Failed(
            document::concurrent_message_spec(file.path),
        ),
{
}

/// A file that is still what was analyzed is committed, with as many replacements as were
/// counted.
pub proof fn unchanged_file_is_committed(
    run: ReplaceRun,
    plan: PlanSpec,
    document: TextDocument,
    used_fallback: bool,
    name_identity: Seq<u8>,
    identity: Vec<u8>,
)
    requires
        analyzed(run, plan, document, used_fallback, name_identity, identity@) is Ok,
        analyzed(run, plan, document, used_fallback, name_identity, identity@)->Ok_0.analyzed.len()
            > plan.analyzed.len(),
    ensures
        ({
            let after = analyzed(
                run,
                plan,
                document,
                used_fallback,
                name_identity,
                identity@,
            )->Ok_0;
            let file = after.analyzed.last();
            match commit_spec(run, file, Ok(document), Ok(identity)) {
                CommitSpec::Failed(_) => false,
                CommitSpec::Unchanged(matches) => matches == file.matches,
                CommitSpec::Write(_, matches) => matches == file.matches,
            }
        }),
{
    replacement::applies_every_kept_match(document, run_matches(run, document), run.limit_mib);
}

/// A replacement under way.
pub struct ReplaceRun {
    pub request: ReplaceRequest,
    pub regex: CompiledRegex,
    pub single_file: bool,
    pub limit_mib: u64,
    pub budget: usize,
    pub analyzed: Vec<AnalyzedFile>,
    pub skipped: Vec<Issue>,
    pub failures: Vec<Issue>,
    pub seen: Vec<Vec<u8>>,
    pub total_matches: usize,
    pub preview_slots: usize,
    /// For each analyzed file the number of replacements written.
    pub written: Vec<Option<usize>>,
}

/// The keys that files are written in the order of.
pub open spec fn commit_keys(files: Seq<AnalyzedSpec>) -> Seq<KeySpec> {
    files.map(
        |i: int, file: AnalyzedSpec|
            KeySpec { rank: 0, first: file.identity, second: encode_utf8(file.path) },
    )
}

/// The keys that failures are reported in the order of.
pub open spec fn failure_keys(issues: Seq<IssueSpec>) -> Seq<KeySpec> {
    issues.map(
        |i: int, issue: IssueSpec|
            KeySpec {
                rank: 0,
                first: encode_utf8(issue.path),
                second: encode_utf8(issue.message),
            },
    )
}

/// The entries in an order.
pub open spec fn arranged<T>(entries: Seq<T>, order: Seq<usize>) -> Seq<T> {
    order.map(|i: int, at: usize| entries[at as int])
}

/// The files that were written, in the order of their analysis.
pub open spec fn successes(files: Seq<AnalyzedSpec>, written: Seq<Option<usize>>) -> Seq<
    (Seq<char>, nat),
>
    decreases files.len(),
{
    if files.len() == 0 {
        Seq::empty()
    } else {
        let before = successes(files.drop_last(), written);
        match written[files.len() - 1] {
            Some(matches) => before.push((files.last().path, matches as nat)),
            None => before,
        }
    }
}

/// The number of replacements written.
pub open spec fn written_total(written: Seq<Option<usize>>) -> nat
    decreases written.len(),
{
    if written.len() == 0 {
        0
    } else {
        match written.last() {
            Some(matches) => stats::saturated(
                written_total(written.drop_last()) + matches as nat,
            ),
            None => written_total(written.drop_last()),
        }
    }
}

/// Whether files may have been added, none of them written.
pub open spec fn nothing_more_written(
    before: Seq<Option<usize>>,
    after: Seq<Option<usize>>,
) -> bool {
    &&& before.is_prefix_of(after)
    &&& forall|i: int| before.len() <= i < after.len() ==> (#[trigger] after[i]) is None
}

impl ReplaceRun {
    /// What is known so far.
    pub open spec fn plan(&self) -> PlanSpec {
        PlanSpec {
            analyzed: report::file_views(self.analyzed@),
            skipped: report::issue_views(self.skipped@),
            failures: report::issue_views(self.failures@),
            seen: byte_views(self.seen@),
            total_matches: self.total_matches as nat,
            preview_slots: self.preview_slots as nat,
        }
    }

    /// Each target is planned once, under an identity that was seen.
    pub open spec fn wf(&self) -> bool {
        let plan = self.plan();
        &&& forall|i: int, j: int|
            0 <= i < j < plan.analyzed.len() ==> (#[trigger] plan.analyzed[i]).identity != (
            #[trigger] plan.analyzed[j]).identity
        &&& forall|i: int|
            0 <= i < plan.analyzed.len() ==> plan.seen.contains(
                (#[trigger] plan.analyzed[i]).identity,
            )
        &&& self.written@.len() == self.analyzed@.len()
    }

    /// Whether only the plan differs.
    pub open spec fn same_request(&self, other: ReplaceRun) -> bool {
        &&& self.request == other.request
        &&& self.regex == other.regex
        &&& self.single_file == other.single_file
        &&& self.limit_mib == other.limit_mib
        &&& self.budget == other.budget
    }

    fn fail(&mut self, path: String, message: String) -> (result: Result<(), ToolResponse>)
        requires
            old(self).wf(),
        ensures
            final(self).wf(),
            final(self).same_request(*old(self)),
            final(self).written@ == old(self).written@,
            match result {
                Ok(()) => failed(*old(self), old(self).plan(), path@, message@) == Ok::<
                    PlanSpec,
                    Seq<char>,
                >(final(self).plan()),
                Err(response) => {
                    &&& failed(*old(self), old(self).plan(), path@, message@) is Err
                    &&& response.is_error
                    &&& response.is_single_text(message@)
                },
            },
    {
        if self.single_file {
            return Err(ToolResponse::error(message));
        }
        let ghost before = self.failures@;
        self.failures.push(Issue { path, message });
        assert(report::issue_views(self.failures@) =~= report::issue_views(before).push(
            IssueSpec { path: path@, message: message@ },
        ));
        Ok(())
    }

    fn skip(&mut self, path: String, message: String)
        requires
            old(self).wf(),
        ensures
            final(self).wf(),
            final(self).same_request(*old(self)),
            final(self).written@ == old(self).written@,
            final(self).plan() == old(self).plan().skip(path@, message@),
    {
        let ghost before = self.skipped@;
        let ghost start = *self;
        self.skipped.push(Issue { path, message });
        assert(self.plan().analyzed == start.plan().analyzed);
        assert(self.plan().seen == start.plan().seen);
        assert(report::issue_views(self.skipped@) =~= report::issue_views(before).push(
            IssueSpec { path: path@, message: message@ },
        ));
    }

    fn has_seen(&self, identity: &[u8]) -> (found: bool)
        ensures
            found == self.plan().seen.contains(identity@),
    {
        let ghost seen = byte_views(self.seen@);
        let mut index: usize = 0;
        while index < self.seen.len()
            invariant
                index <= self.seen.len(),
                seen == byte_views(self.seen@),
                forall|i: int| 0 <= i < index ==> #[trigger] seen[i] != identity@,
            decreases self.seen.len() - index,
        {
            assert(seen[index as int] == self.seen@[index as int]@);
            if same_bytes(self.seen[index].as_slice(), identity) {
                return true;
            }
            index += 1;
        }
        false
    }

    /// Takes a candidate in. A single file that cannot be edited ends the replacement.
    pub fn observe(&mut self, candidate: Candidate) -> (result: Result<(), ToolResponse>)
        requires
            old(self).wf(),
            candidate.opened matches Ok(opened) ==> opened.document.wf(),
        ensures
            final(self).wf(),
            final(self).same_request(*old(self)),
            nothing_more_written(old(self).written@, final(self).written@),
            match result {
                Ok(()) => observed(*old(self), old(self).plan(), candidate) == Ok::<
                    PlanSpec,
                    Seq<char>,
                >(final(self).plan()),
                Err(response) => {
                    &&& observed(*old(self), old(self).plan(), candidate) matches Err(message)
                    &&& response.is_error
                    &&& response.is_single_text(message)
                },
            },
    {
        let opened = match candidate.opened {
            Ok(opened) => opened,
            Err(error) => {
                if self.single_file {
                    return Err(ToolResponse::error(error));
                }
                if is_binary_error(error.as_str()) {
                    self.skip(candidate.display, "binary file".to_owned());
                } else if is_skippable_error(error.as_str()) {
                    self.skip(candidate.display, short_issue(error.as_str()));
                } else {
                    return self.fail(candidate.display, error);
                }
                return Ok(());
            },
        };
        let name_identity = match opened.name_identity {
            Ok(identity) => identity,
            Err(error) => {
                return self.fail(candidate.display, error);
            },
        };
        let identity = match opened.identity {
            Ok(identity) => identity,
            Err(error) => {
                return self.fail(candidate.display, error);
            },
        };
        self.analyze(opened.document, opened.used_fallback, name_identity, identity)
    }

    fn analyze(
        &mut self,
        document: TextDocument,
        used_fallback: bool,
        name_identity: Vec<u8>,
        identity: Vec<u8>,
    ) -> (result: Result<(), ToolResponse>)
        requires
            old(self).wf(),
            document.wf(),
        ensures
            final(self).wf(),
            final(self).same_request(*old(self)),
            nothing_more_written(old(self).written@, final(self).written@),
            match result {
                Ok(()) => analyzed(
                    *old(self),
                    old(self).plan(),
                    document,
                    used_fallback,
                    name_identity@,
                    identity@,
                ) == Ok::<PlanSpec, Seq<char>>(final(self).plan()),
                Err(response) => {
                    &&& analyzed(
                        *old(self),
                        old(self).plan(),
                        document,
                        used_fallback,
                        name_identity@,
                        identity@,
                    ) matches Err(message)
                    &&& response.is_error
                    &&& response.is_single_text(message)
                },
            },
    {
        if self.has_seen(identity.as_slice()) {
            return Ok(());
        }
        let ghost start = *self;
        let copy = slice_to_vec(identity.as_slice());
        let analysis = analyze_file(
            &document,
            &self.regex,
            self.request.replacement.as_str(),
            self.preview_slots,
        );
        self.seen.push(copy);
        self.preview_slots = self.preview_slots - analysis.previews.len();
        self.total_matches = match self.total_matches.checked_add(analysis.matches) {
            Some(total) => total,
            None => usize::MAX,
        };
        proof {
            let kept = replacement::kept(run_matches(start, document));
            assert(copy@ =~= identity@);
            assert(byte_views(self.seen@) =~= byte_views(start.seen@).push(identity@));
            assert(text::views(analysis.previews@).len() == analysis.previews@.len());
            assert(self.wf()) by {
                assert forall|i: int| 0 <= i < self.plan().analyzed.len() implies self.plan().seen.contains(
                    (#[trigger] self.plan().analyzed[i]).identity,
                ) by {
                    let wanted = start.plan().analyzed[i].identity;
                    let at = choose|k: int|
                        0 <= k < start.plan().seen.len() && start.plan().seen[k] == wanted;
                    assert(self.plan().seen[at] == wanted);
                }
            }
        }
        if analysis.matches == 0 {
            return Ok(());
        }
        let checked = validate_replacement(
            &document,
            &self.regex,
            self.request.replacement.as_str(),
            self.limit_mib,
        );
        if let Err(message) = checked {
            let path = document.display_path().to_owned();
            return self.fail(path, message);
        }
        let ghost counted = *self;
        let file = AnalyzedFile {
            path: document.display_path().to_owned(),
            name_identity,
            identity,
            revision: document.revision(),
            matches: analysis.matches,
            previews_truncated: analysis.matches > analysis.previews.len(),
            previews: analysis.previews,
            used_fallback,
        };
        let ghost shown = file@;
        self.analyzed.push(file);
        self.written.push(None);
        proof {
            assert(report::file_views(self.analyzed@) =~= report::file_views(
                counted.analyzed@,
            ).push(shown));
            let plan = self.plan();
            let before = counted.plan();
            assert(plan.analyzed == before.analyzed.push(shown));
            assert(plan.seen == start.plan().seen.push(shown.identity));
            assert(plan.seen[plan.seen.len() - 1] == shown.identity);
            assert forall|i: int, j: int| 0 <= i < j < plan.analyzed.len() implies (
            #[trigger] plan.analyzed[i]).identity != (#[trigger] plan.analyzed[j]).identity by {
                assert(plan.analyzed[i] == before.analyzed[i]);
                if j == before.analyzed.len() {
                    assert(start.plan().seen.contains(start.plan().analyzed[i].identity));
                    assert(!start.plan().seen.contains(shown.identity));
                } else {
                    assert(plan.analyzed[j] == before.analyzed[j]);
                }
            }
            assert forall|i: int| 0 <= i < plan.analyzed.len() implies plan.seen.contains(
                (#[trigger] plan.analyzed[i]).identity,
            ) by {
                if i < before.analyzed.len() {
                    assert(plan.analyzed[i] == before.analyzed[i]);
                }
            }
        }
        Ok(())
    }

    /// The message with which writing is refused: more matches than the request allows.
    pub open spec fn refusal_spec(&self) -> Option<Seq<char>> {
        match self.request.max_replacements {
            Some(maximum) => if self.total_matches > maximum {
                Some(
                    "Refusing to write: "@ + text::decimal(self.total_matches as nat)
                        + " matches exceed max_replacements="@ + text::decimal(maximum as nat)
                        + ". Raise the cap or narrow the pattern; nothing was written."@,
                )
            } else {
                None
            },
            None => None,
        }
    }

    /// Why nothing may be written or previewed, when there are too many matches.
    pub fn refusal(&self) -> (message: Option<String>)
        ensures
            string_view(message) == self.refusal_spec(),
    {
        if let Some(maximum) = self.request.max_replacements {
            if self.total_matches > maximum {
                let mut message = "Refusing to write: ".to_owned();
                message.append(decimal_text(self.total_matches as u64).as_str());
                message.append(" matches exceed max_replacements=");
                message.append(decimal_text(maximum as u64).as_str());
                message.append(". Raise the cap or narrow the pattern; nothing was written.");
                return Some(message);
            }
        }
        None
    }

    /// Whether the request only asks for a preview.
    pub fn is_dry_run(&self) -> (result: bool)
        ensures
            result == flag(self.request.dry_run),
    {
        is_set(self.request.dry_run)
    }

    /// The canonical name of the fallback encoding.
    pub open spec fn fallback_name(&self) -> Option<Seq<char>> {
        match self.request.fallback_encoding {
            Some(label) => match detect::explicit_charset(label@) {
                Some(charset) => Some(charset.name()),
                None => None,
            },
            None => None,
        }
    }

    fn fallback_label(&self) -> (label: Option<&'static str>)
        ensures
            report::label_view(label) == self.fallback_name(),
    {
        match &self.request.fallback_encoding {
            Some(label) => match canonical_encoding_label(label.as_str()) {
                Ok(name) => Some(name),
                Err(_) => None,
            },
            None => None,
        }
    }

    /// The report of what the replacement would do.
    pub open spec fn dry_run_answer(
        &self,
        unreachable: Unreachable,
        cost: spec_fn(Seq<char>) -> nat,
        grant: spec_fn(nat) -> Option<nat>,
    ) -> Result<Seq<char>, Seq<char>> {
        report::report_spec(
            report::with_optional_fact(
                report::dry_run_note(
                    self.total_matches,
                    self.analyzed.len(),
                    self.skipped@.len(),
                    self.failures@.len(),
                    unreachable.total as nat,
                ),
                report::fallback_fact(self.plan().analyzed, self.fallback_name()),
            ),
            report::file_lines(self.plan().analyzed) + report::issue_lines(
                self.plan().skipped,
                "skipped"@,
            ) + report::issue_lines(self.plan().failures, "failed"@) + report::issue_lines(
                report::issue_views(unreachable.issues@),
                "unreachable"@,
            ),
            self.budget as nat,
            report::any_truncated(self.plan().analyzed),
            cost,
            grant,
        )
    }

    /// Reports what the replacement would do.
    pub fn dry_run_report<F: Fn(&str) -> usize, G: Fn(usize) -> Option<usize>>(
        &self,
        unreachable: &Unreachable,
        estimate: &F,
        expand: &G,
    ) -> (response: ToolResponse)
        requires
            forall|text: &str| #[trigger] call_requires(*estimate, (text,)),
            forall|required: usize| #[trigger] call_requires(*expand, (required,)),
        ensures
            forall|cost: spec_fn(Seq<char>) -> nat, grant: spec_fn(nat) -> Option<nat>|
                #[trigger] paging::estimates(*estimate, cost) && #[trigger] report::expands(
                    *expand,
                    grant,
                ) ==> report::responds(response, self.dry_run_answer(*unreachable, cost, grant)),
    {
        format_dry_run(
            &self.analyzed,
            &self.skipped,
            &self.failures,
            unreachable,
            self.total_matches,
            self.budget,
            self.fallback_label(),
            estimate,
            expand,
        )
    }

    /// The order in which files are locked and written: by identity, so that two replacements
    /// never wait for each other in a circle.
    pub fn commit_order(&self) -> (order: Vec<usize>)
        ensures
            ordering::is_order(commit_keys(self.plan().analyzed), order@),
    {
        let mut keys: Vec<SortKey> = Vec::new();
        let mut index: usize = 0;
        while index < self.analyzed.len()
            invariant
                index <= self.analyzed.len(),
                keys@.len() == index,
                forall|i: int|
                    0 <= i < index ==> (#[trigger] keys@[i])@ == commit_keys(
                        self.plan().analyzed,
                    )[i],
            decreases self.analyzed.len() - index,
        {
            let file = &self.analyzed[index];
            keys.push(
                SortKey {
                    rank: 0,
                    first: slice_to_vec(file.identity.as_slice()),
                    second: slice_to_vec(file.path.as_str().as_bytes()),
                },
            );
            assert(keys@[index as int]@.first =~= file.identity@);
            assert(keys@[index as int]@.second =~= encode_utf8(file.path@));
            index += 1;
        }
        assert(ordering::key_views(keys@) =~= commit_keys(self.plan().analyzed));
        sorted_order(&keys)
    }

    /// The label that a file is opened with when its turn has come.
    pub open spec fn reopen_label(&self, index: int) -> Option<Seq<char>> {
        if self.single_file {
            string_view(self.request.encoding)
        } else if self.analyzed@[index].used_fallback {
            string_view(self.request.fallback_encoding)
        } else {
            None
        }
    }

    /// The label that a file is opened with when its turn has come.
    pub fn reopen_encoding(&self, index: usize) -> (label: Option<&str>)
        requires
            index < self.analyzed@.len(),
        ensures
            report::label_view(label) == self.reopen_label(index as int),
    {
        if self.single_file {
            as_text(&self.request.encoding)
        } else if self.analyzed[index].used_fallback {
            as_text(&self.request.fallback_encoding)
        } else {
            None
        }
    }

    /// Decides about a file that was opened again under its locks.
    pub fn commit_step(
        &self,
        index: usize,
        reopened: &Result<TextDocument, String>,
        identity: &Result<Vec<u8>, String>,
    ) -> (step: CommitStep)
        requires
            index < self.analyzed@.len(),
            *reopened matches Ok(document) ==> document.wf(),
        ensures
            step@ == commit_spec(*self, self.plan().analyzed[index as int], *reopened, *identity),
    {
        let file = &self.analyzed[index];
        assert(self.plan().analyzed[index as int] == file@);
        let document = match reopened {
            Ok(document) => document,
            Err(error) => {
                return CommitStep::Failed(error.clone());
            },
        };
        let identity = match identity {
            Ok(identity) => identity,
            Err(error) => {
                return CommitStep::Failed(error.clone());
            },
        };
        if !same_bytes(identity.as_slice(), file.identity.as_slice()) || !same_text(
            document.revision().as_str(),
            file.revision.as_str(),
        ) {
            return CommitStep::Failed(concurrent_message(file.path.as_str()));
        }
        let built = match build_replacement(
            document,
            &self.regex,
            self.request.replacement.as_str(),
            self.limit_mib,
        ) {
            Ok(built) => built,
            Err(message) => {
                return CommitStep::Failed(message);
            },
        };
        if built.matches != file.matches {
            return CommitStep::Failed(concurrent_message(file.path.as_str()));
        }
        if same_bytes(built.bytes.as_slice(), document.original_bytes()) {
            return CommitStep::Unchanged(built.matches);
        }
        CommitStep::Write { bytes: built.bytes, matches: built.matches }
    }

    /// Notes what became of a file.
    pub fn record(&mut self, index: usize, outcome: Result<usize, String>)
        requires
            old(self).wf(),
            index < old(self).analyzed@.len(),
        ensures
            final(self).wf(),
            final(self).same_request(*old(self)),
            match outcome {
                Ok(matches) => {
                    &&& final(self).plan() == old(self).plan()
                    &&& final(self).written@ == old(self).written@.update(
                        index as int,
                        Some(matches),
                    )
                },
                Err(message) => {
                    &&& final(self).plan() == old(self).plan().fail(
                        old(self).plan().analyzed[index as int].path,
                        message@,
                    )
                    &&& final(self).written@ == old(self).written@
                },
            },
    {
        let ghost start = *self;
        match outcome {
            Ok(matches) => {
                self.written.set(index, Some(matches));
            },
            Err(message) => {
                let path = self.analyzed[index].path.clone();
                let ghost before = self.failures@;
                assert(self.plan().analyzed[index as int] == self.analyzed@[index as int]@);
                self.failures.push(Issue { path, message });
                assert(report::issue_views(self.failures@) =~= report::issue_views(before).push(
                    IssueSpec { path: path@, message: message@ },
                ));
            },
        }
        assert(self.plan().analyzed == start.plan().analyzed);
        assert(self.plan().seen == start.plan().seen);
    }

    fn success_list(&self) -> (list: Vec<(String, usize)>)
        requires
            self.wf(),
        ensures
            report::success_views(list@) == successes(self.plan().analyzed, self.written@),
    {
        let ghost files = self.plan().analyzed;
        let mut list: Vec<(String, usize)> = Vec::new();
        let mut index: usize = 0;
        assert(files.take(0) =~= Seq::<AnalyzedSpec>::empty());
        assert(report::success_views(list@) =~= Seq::<(Seq<char>, nat)>::empty());
        while index < self.analyzed.len()
            invariant
                index <= self.analyzed.len(),
                self.wf(),
                files == self.plan().analyzed,
                report::success_views(list@) == successes(files.take(index as int), self.written@),
            decreases self.analyzed.len() - index,
        {
            proof {
                assert(files.take(index + 1).drop_last() =~= files.take(index as int));
                assert(files.take(index + 1).last() == self.analyzed@[index as int]@);
            }
            if let Some(matches) = self.written[index] {
                let ghost before = list@;
                let path = self.analyzed[index].path.clone();
                let ghost shown = path@;
                list.push((path, matches));
                assert(report::success_views(list@) =~= report::success_views(before).push(
                    (shown, matches as nat),
                ));
            }
            index += 1;
        }
        assert(files.take(files.len() as int) =~= files);
        list
    }

    fn written_count(&self) -> (count: usize)
        ensures
            count == written_total(self.written@),
    {
        let mut count: usize = 0;
        let mut index: usize = 0;
        while index < self.written.len()
            invariant
                index <= self.written.len(),
                count == written_total(self.written@.take(index as int)),
            decreases self.written.len() - index,
        {
            proof {
                assert(self.written@.take(index + 1).drop_last() =~= self.written@.take(
                    index as int,
                ));
                assert(self.written@.take(index + 1).last() == self.written@[index as int]);
            }
            if let Some(matches) = self.written[index] {
                count = match count.checked_add(matches) {
                    Some(sum) => sum,
                    None => usize::MAX,
                };
            }
            index += 1;
        }
        assert(self.written@.take(self.written@.len() as int) =~= self.written@);
        count
    }

    fn sorted_failures(&self) -> (sorted: Vec<Issue>)
        ensures
            exists|order: Seq<usize>|
                ordering::is_order(failure_keys(self.plan().failures), order)
                    && report::issue_views(sorted@) == #[trigger] arranged(
                    self.plan().failures,
                    order,
                ),
    {
        let ghost failures = self.plan().failures;
        let mut keys: Vec<SortKey> = Vec::new();
        let mut index: usize = 0;
        while index < self.failures.len()
            invariant
                index <= self.failures.len(),
                failures == self.plan().failures,
                keys@.len() == index,
                forall|i: int|
                    0 <= i < index ==> (#[trigger] keys@[i])@ == failure_keys(failures)[i],
            decreases self.failures.len() - index,
        {
            let issue = &self.failures[index];
            keys.push(
                SortKey {
                    rank: 0,
                    first: slice_to_vec(issue.path.as_str().as_bytes()),
                    second: slice_to_vec(issue.message.as_str().as_bytes()),
                },
            );
            assert(keys@[index as int]@.first =~= encode_utf8(issue.path@));
            assert(keys@[index as int]@.second =~= encode_utf8(issue.message@));
            index += 1;
        }
        assert(ordering::key_views(keys@) =~= failure_keys(failures));
        let order = sorted_order(&keys);
        let mut sorted: Vec<Issue> = Vec::new();
        let mut at: usize = 0;
        while at < order.len()
            invariant
                at <= order.len(),
                failures == self.plan().failures,
                ordering::is_order(failure_keys(failures), order@),
                sorted@.len() == at,
                forall|i: int|
                    0 <= i < at ==> (#[trigger] sorted@[i])@ == failures[order@[i] as int],
            decreases order.len() - at,
        {
            assert(order@[at as int] < failures.len());
            let issue = &self.failures[order[at]];
            sorted.push(Issue { path: issue.path.clone(), message: issue.message.clone() });
            at += 1;
        }
        assert(report::issue_views(sorted@) =~= arranged(failures, order@));
        sorted
    }

    /// The report of what the replacement did, with the failures in an order.
    pub open spec fn apply_answer(
        &self,
        unreachable: Unreachable,
        order: Seq<usize>,
        cost: spec_fn(Seq<char>) -> nat,
        grant: spec_fn(nat) -> Option<nat>,
    ) -> Result<Seq<char>, Seq<char>> {
        report::report_spec(
            report::with_optional_fact(
                report::apply_note(
                    written_total(self.written@) as usize,
                    successes(self.plan().analyzed, self.written@).len() as usize,
                    self.skipped@.len(),
                    self.failures@.len(),
                    unreachable.total as nat,
                ),
                report::fallback_fact(self.plan().analyzed, self.fallback_name()),
            ),
            report::success_lines(successes(self.plan().analyzed, self.written@))
                + report::issue_lines(self.plan().skipped, "skipped"@) + report::issue_lines(
                arranged(self.plan().failures, order),
                "failed"@,
            ) + report::issue_lines(report::issue_views(unreachable.issues@), "unreachable"@),
            self.budget as nat,
            false,
            cost,
            grant,
        )
    }

    /// Reports what the replacement did.
    pub fn apply_report<F: Fn(&str) -> usize, G: Fn(usize) -> Option<usize>>(
        &self,
        unreachable: &Unreachable,
        estimate: &F,
        expand: &G,
    ) -> (response: ToolResponse)
        requires
            self.wf(),
            forall|text: &str| #[trigger] call_requires(*estimate, (text,)),
            forall|required: usize| #[trigger] call_requires(*expand, (required,)),
        ensures
            forall|
                order: Seq<usize>,
                cost: spec_fn(Seq<char>) -> nat,
                grant: spec_fn(nat) -> Option<nat>,
            |
                #[trigger] ordering::is_order(failure_keys(self.plan().failures), order)
                    && #[trigger] paging::estimates(*estimate, cost) && #[trigger] report::expands(
                    *expand,
                    grant,
                ) ==> report::responds(
                    response,
                    self.apply_answer(*unreachable, order, cost, grant),
                ),
    {
        let list = self.success_list();
        let sorted = self.sorted_failures();
        let count = self.written_count();
        let fact = fallback_facts(&self.analyzed, self.fallback_label());
        proof {
            let keys = failure_keys(self.plan().failures);
            assert(report::success_views(list@).len() == list@.len());
            assert(report::issue_views(sorted@).len() == sorted@.len());
            assert forall|order: Seq<usize>| #[trigger]
                ordering::is_order(keys, order) implies report::issue_views(sorted@) == arranged(
                self.plan().failures,
                order,
            ) && sorted@.len() == self.failures@.len() by {
                let found = choose|found: Seq<usize>|
                    ordering::is_order(keys, found) && report::issue_views(sorted@)
                        == #[trigger] arranged(self.plan().failures, found);
                ordering::order_is_unique(keys, order, found);
                assert(arranged(self.plan().failures, found).len() == found.len());
            }
        }
        format_apply(
            &list,
            &self.skipped,
            &sorted,
            unreachable,
            count,
            self.budget,
            fact,
            estimate,
            expand,
        )
    }
}

/// Checks the number of candidates of a walk.
pub fn check_candidates(count: usize) -> (result: Result<(), ToolResponse>)
    ensures
        match result {
            Ok(()) => count <= MAX_CANDIDATES,
            Err(response) => {
                &&& count > MAX_CANDIDATES
                &&& response.is_error
                &&& response.is_single_text(
                    "Too many candidate files: over 10000 matched. Narrow the path or glob."@,
                )
            },
        },
{
    if count > MAX_CANDIDATES {
        Err(
            ToolResponse::error(
                "Too many candidate files: over 10000 matched. Narrow the path or glob.".to_owned(),
            ),
        )
    } else {
        Ok(())
    }
}

/// The message about a glob that cannot be compiled.
pub fn glob_message(error: &str) -> (message: String)
    ensures
        message@ == "Invalid glob pattern: "@ + error@
            + ". Use forms like \"*.rs\" or \"**/*.{ts,tsx}\"."@,
{
    let mut message = "Invalid glob pattern: ".to_owned();
    message.append(error);
    message.append(". Use forms like \"*.rs\" or \"**/*.{ts,tsx}\".");
    message
}

/// The message about a token budget that cannot be read.
pub fn budget_message(error: &str) -> (message: String)
    ensures
        message@ == error@ + " Fix the env var and restart the session."@,
{
    let mut message = error.to_owned();
    message.append(" Fix the env var and restart the session.");
    message
}

/// The replacement service: the locks of concurrent replacements.
#[derive(Debug)]
pub struct ReplaceService {
    path_locks: PathLocks,
}

impl Default for ReplaceService {
    /// A service with no lock in use.
    fn default() -> (service: Self)
        ensures
            service.locks().wf(),
            service.locks().acquired() == 0,
            forall|identity: Seq<u8>, lock: u64, holders: nat|
                !(#[trigger] service.locks().holds(identity, lock, holders)),
    {
        ReplaceService::new()
    }
}

impl ReplaceService {
    /// The locks in use.
    pub closed spec fn locks(&self) -> PathLocks {
        self.path_locks
    }

    /// A service with no lock in use.
    pub fn new() -> (service: Self)
        ensures
            service.locks().wf(),
            service.locks().acquired() == 0,
            forall|identity: Seq<u8>, lock: u64, holders: nat|
                !(#[trigger] service.locks().holds(identity, lock, holders)),
    {
        ReplaceService { path_locks: PathLocks::new() }
    }

    /// Hands out the lock of an identity.
    pub fn acquire(&mut self, identity: &PathIdentity) -> (lock: u64)
        requires
            old(self).locks().wf(),
            old(self).locks().acquired() < u64::MAX,
        ensures
            final(self).locks().wf(),
            final(self).locks().acquired() == old(self).locks().acquired() + 1,
            forall|used: u64, holders: nat|
                #[trigger] old(self).locks().holds(identity.material@, used, holders) ==> {
                    &&& lock == used
                    &&& final(self).locks().holds(identity.material@, used, holders + 1)
                },
            (forall|used: u64, holders: nat|
                !(#[trigger] old(self).locks().holds(identity.material@, used, holders))) ==> {
                &&& final(self).locks().holds(identity.material@, lock, 1)
                &&& forall|other: Seq<u8>, holders: nat|
                    !(#[trigger] old(self).locks().holds(other, lock, holders))
            },
            forall|other: Seq<u8>, used: u64, holders: nat|
                other != identity.material@ ==> #[trigger] final(self).locks().holds(
                    other,
                    used,
                    holders,
                ) == old(self).locks().holds(other, used, holders),
    {
        self.path_locks.for_identity(identity)
    }

    /// Gives one hold of an identity's lock back.
    pub fn release(&mut self, identity: &PathIdentity)
        requires
            old(self).locks().wf(),
        ensures
            final(self).locks().wf(),
            final(self).locks().acquired() == old(self).locks().acquired(),
            forall|used: u64, holders: nat|
                #[trigger] old(self).locks().holds(identity.material@, used, holders) ==> if holders
                    > 1 {
                    final(self).locks().holds(identity.material@, used, (holders - 1) as nat)
                } else {
                    forall|other: Seq<u8>, count: nat|
                        !(#[trigger] final(self).locks().holds(other, used, count))
                },
            forall|other: Seq<u8>, used: u64, holders: nat|
                other != identity.material@ ==> #[trigger] final(self).locks().holds(
                    other,
                    used,
                    holders,
                ) == old(self).locks().holds(other, used, holders),
    {
        self.path_locks.release(identity)
    }

    /// Starts a replacement with the default limit. The budget and the root are what the
    /// environment and the file system say about the request.
    pub fn replace(
        &self,
        request: ReplaceRequest,
        budget: Result<usize, String>,
        root: Result<RootFacts, String>,
    ) -> (result: Result<ReplaceRun, ToolResponse>)
        ensures
            match result {
                Ok(run) => {
                    &&& request_error(request, budget, root) is None
                    &&& started(run, request, budget, root)
                    &&& run.limit_mib == DEFAULT_REPLACE_FILE_LIMIT_MIB
                },
                Err(response) => {
                    &&& request_error(request, budget, root) matches Some(message)
                    &&& response.is_error
                    &&& response.is_single_text(message)
                },
            },
    {
        self.replace_with_limit(request, DEFAULT_REPLACE_FILE_LIMIT_MIB, budget, root)
    }

    /// Starts a replacement with a limit on the size of files.
    pub fn replace_with_limit(
        &self,
        request: ReplaceRequest,
        limit_mib: u64,
        budget: Result<usize, String>,
        root: Result<RootFacts, String>,
    ) -> (result: Result<ReplaceRun, ToolResponse>)
        ensures
            match result {
                Ok(run) => {
                    &&& request_error(request, budget, root) is None
                    &&& started(run, request, budget, root)
                    &&& run.limit_mib == limit_mib
                },
                Err(response) => {
                    &&& request_error(request, budget, root) matches Some(message)
                    &&& response.is_error
                    &&& response.is_single_text(message)
                },
            },
    {
        let budget = match budget {
            Ok(budget) => budget,
            Err(error) => {
                return Err(ToolResponse::error(error));
            },
        };
        if request.path.as_str().is_empty() {
            return Err(
                ToolResponse::error(
                    "The path parameter is required. Give the absolute file or directory to edit.".to_owned(),
                ),
            );
        }
        let root = match root {
            Ok(root) => root,
            Err(error) => {
                return Err(ToolResponse::error(error));
            },
        };
        if root.is_file && request.fallback_encoding.is_some() {
            return Err(
                ToolResponse::error(
                    "The fallback_encoding parameter only applies to directory targets; use encoding for a single file.".to_owned(),
                ),
            );
        }
        if !root.is_file && request.encoding.is_some() {
            return Err(
                ToolResponse::error(
                    "The encoding parameter only applies to single-file targets; use fallback_encoding for a directory.".to_owned(),
                ),
            );
        }
        if let Some(message) = check_label(&request.encoding, root.display.as_str()) {
            return Err(ToolResponse::error(message));
        }
        if let Some(message) = check_label(&request.fallback_encoding, root.display.as_str()) {
            return Err(ToolResponse::error(message));
        }
        let options = PatternOptions {
            literal: is_set(request.literal),
            case_insensitive: is_set(request.case_insensitive),
            dot_all: is_set(request.dot_all),
        };
        let regex = match CompiledRegex::build(request.pattern.as_str(), options) {
            Ok(regex) => regex,
            Err(message) => {
                return Err(ToolResponse::error(message));
            },
        };
        if regex.matches_empty() && request.max_replacements.is_none() {
            return Err(
                ToolResponse::error(
                    "This pattern can match empty (zero-width) and would insert at every position. Set max_replacements to cap the blast radius, then retry.".to_owned(),
                ),
            );
        }
        if let Err(message) = regex.validate_references(request.replacement.as_str()) {
            return Err(ToolResponse::error(message));
        }
        let run = ReplaceRun {
            request,
            regex,
            single_file: root.is_file,
            limit_mib,
            budget,
            analyzed: Vec::new(),
            skipped: Vec::new(),
            failures: Vec::new(),
            seen: Vec::new(),
            total_matches: 0,
            preview_slots: preview_slots(budget),
            written: Vec::new(),
        };
        proof {
            let plan = run.plan();
            assert(plan.analyzed =~= Seq::<AnalyzedSpec>::empty());
            assert(plan.skipped =~= Seq::<IssueSpec>::empty());
            assert(plan.failures =~= Seq::<IssueSpec>::empty());
            assert(plan.seen =~= Seq::<Seq<u8>>::empty());
        }
        Ok(run)
    }
}

/// Whether a run has just been started for a request.
pub open spec fn started(
    run: ReplaceRun,
    request: ReplaceRequest,
    budget: Result<usize, String>,
    root: Result<RootFacts, String>,
) -> bool {
    &&& run.wf()
    &&& run.request == request
    &&& Ok::<usize, String>(run.budget) == budget
    &&& root matches Ok(root)
    &&& run.single_file == root.is_file
    &&& run.regex.source() == (
        pattern::effective_pattern(request.pattern@, flag(request.literal)),
        flag(request.case_insensitive),
        flag(request.dot_all),
    )
    &&& run.plan() == (PlanSpec {
        analyzed: Seq::empty(),
        skipped: Seq::empty(),
        failures: Seq::empty(),
        seen: Seq::empty(),
        total_matches: 0,
        preview_slots: preview_room(run.budget),
    })
}

fn check_label(label: &Option<String>, display: &str) -> (message: Option<String>)
    ensures
        string_view(message) == label_error(*label, display@),
{
    match label {
        Some(label) => match canonical_encoding_label(label.as_str()) {
            Ok(_) => None,
            Err(rejection) => Some(rejection.message(display)),
        },
        None => None,
    }
}

} // verus!
