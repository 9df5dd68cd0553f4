//! Folding the outcomes of candidates, in their order, into one page or one summary.

use crate::encoding::pipeline;
use crate::grep::capture;
use crate::grep::capture::ContentEntry;
use crate::grep::outcome;
use crate::grep::outcome::{
    capture_overflow_skip, failure_message, CandidateSkip, FailureSpec, OutcomeSpec, SearchFailure,
    SearchOutcome, SkipSpec,
};
use crate::grep::plan;
use crate::grep::plan::{GrepSearchPlan, OutputMode};
use crate::grep::search;
use crate::grep::search::{FileResult, FileSpec, PayloadSpec};
use crate::head_note;
use crate::head_note::counted;
use crate::ordering;
use crate::ordering::bytes_before;
use crate::text;
use crate::text::same_text;
use vstd::prelude::*;
use vstd::string::*;
use vstd::utf8::*;

verus! {

/// A file that was left out.
#[derive(Debug)]
pub struct SkippedFile {
    pub path: String,
    pub reason: String,
}

/// The files that were left out.
#[derive(Debug)]
pub struct SkippedFiles {
    pub entries: Vec<SkippedFile>,
    /// How many of the first entries were not reachable at all.
    pub unreachable_listed: usize,
    /// How many more were not reachable, without an entry.
    pub unreachable_unlisted: usize,
}

/// How many files were left out, and how many of them can be listed.
#[derive(Clone, Copy, Debug, PartialEq, Eq, Structural)]
pub struct SkipTally {
    pub files: usize,
    pub unreachable: usize,
    pub listed: usize,
}

/// Paths and reasons as mathematical values.
pub open spec fn skip_views(entries: Seq<SkippedFile>) -> Seq<(Seq<char>, Seq<char>)> {
    entries.map(|i: int, entry: SkippedFile| (entry.path@, entry.reason@))
}

impl SkippedFiles {
    /// The paths that the walk could not enter. They lead the list, so that their number alone
    /// tells them from the files that were skipped later.
    pub fn from_traversal(listed: Vec<SkippedFile>, unlisted: usize) -> (skipped: Self)
        ensures
            skipped.entries@ == listed@,
            skipped.unreachable_listed == listed@.len(),
            skipped.unreachable_unlisted == unlisted,
    {
        SkippedFiles {
            unreachable_listed: listed.len(),
            unreachable_unlisted: unlisted,
            entries: listed,
        }
    }

    /// Adds a skipped file.
    pub fn record(&mut self, path: &str, skip: &CandidateSkip)
        ensures
            skip_views(final(self).entries@) == skip_views(old(self).entries@).push(
                (path@, skip@.reason()),
            ),
            final(self).unreachable_listed == old(self).unreachable_listed,
            final(self).unreachable_unlisted == old(self).unreachable_unlisted,
    {
        let ghost before = self.entries@;
        let entry = SkippedFile { path: path.to_owned(), reason: skip.reason() };
        let ghost shown = (entry.path@, entry.reason@);
        self.entries.push(entry);
        assert(skip_views(self.entries@) =~= skip_views(before).push(shown));
    }

    /// How many were left out.
    pub fn tally(&self) -> (tally: SkipTally)
        ensures
            tally.listed == self.entries@.len(),
            tally.unreachable == plan::sat(self.unreachable_listed, self.unreachable_unlisted),
            tally.files == if self.entries@.len() < self.unreachable_listed {
                0
            } else {
                self.entries@.len() - self.unreachable_listed
            },
    {
        SkipTally {
            files: self.entries.len().saturating_sub(self.unreachable_listed),
            unreachable: self.unreachable_listed.saturating_add(self.unreachable_unlisted),
            listed: self.entries.len(),
        }
    }
}

/// The fact that files were read in the fallback encoding.
pub open spec fn fallback_fact_spec(count: usize, encoding: Option<Seq<char>>) -> Option<Seq<char>> {
    match encoding {
        Some(encoding) => if count > 0 {
            Some(
                head_note::counted_spec(count as nat, "file"@, "files"@)
                    + " decoded using fallback encoding "@ + encoding,
            )
        } else {
            None
        },
        None => None,
    }
}

/// The fact that files were read in the fallback encoding.
pub fn fallback_fact(count: usize, encoding: Option<&'static str>) -> (fact: Option<String>)
    ensures
        match fact {
            Some(fact) => fallback_fact_spec(count, pipeline::str_view(encoding)) == Some(fact@),
            None => fallback_fact_spec(count, pipeline::str_view(encoding)) is None,
        },
{
    match encoding {
        Some(encoding) => {
            if count == 0 {
                return None;
            }
            let mut fact = counted(count, "file", "files");
            fact.append(" decoded using fallback encoding ");
            fact.append(encoding);
            Some(fact)
        },
        None => None,
    }
}

/// Whether a text comes before another by its UTF-8 bytes.
pub open spec fn text_less(left: Seq<char>, right: Seq<char>) -> bool {
    ordering::bytes_less(encode_utf8(left), encode_utf8(right))
}

/// Whether texts ascend, none of them twice.
pub open spec fn ascending(texts: Seq<Seq<char>>) -> bool {
    forall|i: int, j: int|
        0 <= i < j < texts.len() ==> text_less(#[trigger] texts[i], #[trigger] texts[j])
}

/// A list of ascending texts with one more, which stays once if it was there.
pub open spec fn with_text(texts: Seq<Seq<char>>, more: Seq<char>) -> Seq<Seq<char>>
    decreases texts.len(),
{
    if texts.len() == 0 || text_less(texts.last(), more) {
        texts.push(more)
    } else if texts.last() == more {
        texts
    } else {
        with_text(texts.drop_last(), more).push(texts.last())
    }
}

/// Adding a text keeps the list ascending, and the list then holds just that text more.
pub proof fn texts_stay_ascending(texts: Seq<Seq<char>>, more: Seq<char>)
    requires
        ascending(texts),
    ensures
        ascending(with_text(texts, more)),
        forall|text: Seq<char>| #[trigger]
            with_text(texts, more).contains(text) <==> texts.contains(text) || text == more,
    decreases texts.len(),
{
    let added = with_text(texts, more);
    if texts.len() == 0 || text_less(texts.last(), more) {
        assert forall|i: int, j: int| 0 <= i < j < added.len() implies text_less(
            #[trigger] added[i],
            #[trigger] added[j],
        ) by {
            if j == texts.len() && i < texts.len() - 1 {
                assert(text_less(texts[i], texts[texts.len() - 1]));
                ordering::bytes_less_transitive(
                    encode_utf8(texts[i]),
                    encode_utf8(texts.last()),
                    encode_utf8(more),
                );
            }
        }
        assert forall|text: Seq<char>| #[trigger] added.contains(text) <==> texts.contains(text)
            || text == more by {
            if texts.contains(text) {
                let i = texts.index_of(text);
                assert(added[i] == text);
            }
            if text == more {
                assert(added[texts.len() as int] == more);
            }
        }
    } else if texts.last() == more {
        assert(texts[texts.len() - 1] == more);
    } else {
        let rest = texts.drop_last();
        let inner = with_text(rest, more);
        texts_stay_ascending(rest, more);
        let last = texts.last();
        ordering::bytes_less_total(encode_utf8(last), encode_utf8(more));
        assert(text_less(more, last)) by {
            encode_is_injective(last, more);
        }
        assert forall|i: int, j: int| 0 <= i < j < added.len() implies text_less(
            #[trigger] added[i],
            #[trigger] added[j],
        ) by {
            if j == inner.len() {
                assert(inner.contains(inner[i]));
                if inner[i] != more {
                    let k = rest.index_of(inner[i]);
                    assert(text_less(texts[k], texts[texts.len() - 1]));
                }
            }
        }
        assert forall|text: Seq<char>| #[trigger] added.contains(text) <==> texts.contains(text)
            || text == more by {
            if added.contains(text) {
                let i = added.index_of(text);
                if i < inner.len() {
                    assert(inner[i] == text);
                    assert(inner.contains(text));
                    if rest.contains(text) {
                        let k = rest.index_of(text);
                        assert(texts[k] == text);
                    }
                } else {
                    assert(texts[texts.len() - 1] == text);
                }
            }
            if texts.contains(text) {
                let k = texts.index_of(text);
                if k < rest.len() {
                    assert(rest[k] == text);
                    assert(inner.contains(text));
                    let i = inner.index_of(text);
                    assert(added[i] == text);
                } else {
                    assert(added[inner.len() as int] == text);
                }
            }
            if text == more {
                assert(inner.contains(text));
                let i = inner.index_of(text);
                assert(added[i] == text);
            }
        }
    }
}

proof fn encode_is_injective(left: Seq<char>, right: Seq<char>)
    ensures
        encode_utf8(left) == encode_utf8(right) ==> left == right,
{
    encode_utf8_decode_utf8(left);
    encode_utf8_decode_utf8(right);
}

/// Adding a text below some greater ones.
proof fn with_text_at(texts: Seq<Seq<char>>, more: Seq<char>, at: int)
    requires
        0 <= at <= texts.len(),
        forall|i: int| at <= i < texts.len() ==> text_less(more, #[trigger] texts[i]),
        at > 0 ==> text_less(texts[at - 1], more) || texts[at - 1] == more,
    ensures
        with_text(texts, more) == if at > 0 && texts[at - 1] == more {
            texts
        } else {
            texts.take(at).push(more) + texts.skip(at)
        },
    decreases texts.len(),
{
    if at == texts.len() {
        assert(texts.take(at) =~= texts);
        assert(texts.take(at).push(more) + texts.skip(at) =~= texts.push(more));
        if at > 0 && texts[at - 1] == more {
            ordering::bytes_less_total(encode_utf8(more), encode_utf8(more));
        }
    } else {
        let rest = texts.drop_last();
        assert(text_less(more, texts[texts.len() - 1]));
        ordering::bytes_less_total(encode_utf8(more), encode_utf8(texts.last()));
        assert forall|i: int| at <= i < rest.len() implies text_less(more, #[trigger] rest[i]) by {
            assert(rest[i] == texts[i]);
        }
        with_text_at(rest, more, at);
        if at > 0 && texts[at - 1] == more {
            assert(rest.push(texts.last()) =~= texts);
        } else {
            assert((rest.take(at).push(more) + rest.skip(at)).push(texts.last()) =~= texts.take(
                at,
            ).push(more) + texts.skip(at));
        }
    }
}

/// Adds a text to a list of ascending ones.
pub fn insert_text(texts: &mut Vec<String>, more: String)
    ensures
        text::views(final(texts)@) == with_text(text::views(old(texts)@), more@),
{
    let ghost before = text::views(texts@);
    let mut at: usize = texts.len();
    while at > 0 && bytes_before(more.as_str().as_bytes(), texts[at - 1].as_str().as_bytes())
        invariant
            at <= texts@.len(),
            before == text::views(texts@),
            forall|i: int| at <= i < before.len() ==> text_less(more@, #[trigger] before[i]),
        decreases at,
    {
        at -= 1;
    }
    if at > 0 && same_text(texts[at - 1].as_str(), more.as_str()) {
        proof {
            with_text_at(before, more@, at as int);
        }
        return;
    }
    proof {
        if at > 0 {
            ordering::bytes_less_total(encode_utf8(more@), encode_utf8(before[at - 1]));
            encode_is_injective(more@, before[at - 1]);
        }
        with_text_at(before, more@, at as int);
    }
    let ghost shown = more@;
    texts.insert(at, more);
    assert(text::views(texts@) =~= before.take(at as int).push(shown) + before.skip(at as int));
}

/// What a page is made of.
#[derive(Clone, Copy, Debug, PartialEq, Eq, Structural)]
pub struct PageRules {
    pub mode: OutputMode,
    /// Only one file is searched: what is wrong with it is an error.
    pub single_file: bool,
    /// How every file was searched first.
    pub plan: GrepSearchPlan,
    /// How many entries end the scan: one more than can be shown.
    pub probe_limit: usize,
}

/// What was folded so far.
pub struct ReduceState {
    pub results: Seq<FileSpec>,
    pub collected: usize,
    pub skip_remaining: usize,
    pub total_seen: usize,
    pub scan_complete: bool,
    pub occurrence_total: usize,
    pub file_total: usize,
    pub skips: Seq<(Seq<char>, Seq<char>)>,
    pub notes: Seq<Seq<char>>,
    pub fallback_count: usize,
    pub failure: Option<Seq<char>>,
}

/// What comes next.
#[derive(Clone, Copy, Debug, PartialEq, Eq, Structural)]
pub enum ReduceStep {
    /// The next candidate.
    Continue,
    /// Nothing; the page is complete or the search failed.
    Break,
    /// The same candidate again, under this plan.
    Retry(GrepSearchPlan),
}

impl ReduceState {
    /// The search failed.
    pub open spec fn failed(self, message: Seq<char>) -> (Self, ReduceStep) {
        (ReduceState { failure: Some(message), ..self }, ReduceStep::Break)
    }

    /// A candidate is left out, unless it is the only one.
    pub open spec fn left_out(self, rules: PageRules, path: Seq<char>, skip: SkipSpec) -> (
        Self,
        ReduceStep,
    ) {
        if rules.single_file {
            self.failed(skip.message(path))
        } else {
            (
                ReduceState { skips: self.skips.push((path, skip.reason())), ..self },
                ReduceStep::Continue,
            )
        }
    }

    /// How many entries are still wanted.
    pub open spec fn need(self, rules: PageRules) -> usize {
        less(rules.probe_limit, self.collected)
    }

    /// What an outcome discloses of encodings.
    pub open spec fn disclosed(self, note: Option<Seq<char>>, used_fallback: bool) -> Self {
        ReduceState {
            notes: match note {
                Some(note) => with_text(self.notes, note),
                None => self.notes,
            },
            fallback_count: if used_fallback {
                plan::sat(self.fallback_count, 1)
            } else {
                self.fallback_count
            },
            ..self
        }
    }

    /// A file of a scan for totals.
    pub open spec fn totalled(self, result: Option<FileSpec>) -> Self {
        match result {
            Some(result) => ReduceState {
                file_total: plan::sat(self.file_total, 1),
                occurrence_total: plan::sat(self.occurrence_total, result.total()),
                ..self
            },
            None => self,
        }
    }

    /// A file that was searched in just the window that is still wanted.
    pub open spec fn windowed(self, result: Option<FileSpec>, entries_seen: usize) -> Self {
        let seen = ReduceState {
            total_seen: plan::sat(self.total_seen, entries_seen),
            skip_remaining: less(self.skip_remaining, entries_seen),
            ..self
        };
        match result {
            Some(result) => ReduceState {
                collected: plan::sat(seen.collected, result.entry_total() as usize),
                results: seen.results.push(result),
                ..seen
            },
            None => seen,
        }
    }

    /// A file whose entries were captured from the first one on: those that the offset leaves out
    /// and those past the wanted ones are dropped.
    pub open spec fn trimmed(self, rules: PageRules, result: Option<FileSpec>) -> Self {
        match result {
            None => self,
            Some(result) => {
                let available = result.entry_total() as usize;
                let start = lesser(self.skip_remaining, available);
                let end = lesser(available, plan::sat(start, self.need(rules)));
                let seen = ReduceState {
                    total_seen: plan::sat(self.total_seen, end),
                    skip_remaining: less(self.skip_remaining, start),
                    ..self
                };
                if end > start {
                    ReduceState {
                        collected: plan::sat(seen.collected, (end - start) as usize),
                        results: seen.results.push(result.trimmed(start as int, end as int)),
                        ..seen
                    }
                } else {
                    seen
                }
            },
        }
    }

    /// A file that is one entry.
    pub open spec fn listed(self, result: Option<FileSpec>) -> Self {
        match result {
            None => self,
            Some(result) => {
                let seen = ReduceState { total_seen: plan::sat(self.total_seen, 1), ..self };
                if self.skip_remaining > 0 {
                    ReduceState { skip_remaining: less(self.skip_remaining, 1), ..seen }
                } else {
                    ReduceState {
                        collected: plan::sat(seen.collected, 1),
                        results: seen.results.push(result),
                        ..seen
                    }
                }
            },
        }
    }

    /// Whether the scan goes on.
    pub open spec fn checked(self, rules: PageRules) -> (Self, ReduceStep) {
        if rules.mode != OutputMode::Summary && self.collected >= rules.probe_limit {
            (ReduceState { scan_complete: false, ..self }, ReduceStep::Break)
        } else {
            (self, ReduceStep::Continue)
        }
    }

    /// A candidate that was searched.
    pub open spec fn found(self, rules: PageRules, outcome: OutcomeSpec, exact: bool) -> (
        Self,
        ReduceStep,
    ) {
        let disclosed = self.disclosed(outcome.transcoding_note, outcome.used_fallback);
        let folded = match rules.mode {
            OutputMode::Summary => disclosed.totalled(outcome.result),
            OutputMode::Content => if exact {
                disclosed.windowed(outcome.result, outcome.entries_seen)
            } else {
                disclosed.trimmed(rules, outcome.result)
            },
            _ => disclosed.listed(outcome.result),
        };
        folded.checked(rules)
    }

    /// The outcome of a candidate. `exact` tells that it was searched again, in just the window
    /// that is still wanted.
    pub open spec fn folded(
        self,
        rules: PageRules,
        path: Seq<char>,
        outcome: Result<OutcomeSpec, FailureSpec>,
        exact: bool,
    ) -> (Self, ReduceStep) {
        match outcome {
            Ok(outcome) => match outcome.skip {
                Some(skip) => self.left_out(rules, path, skip),
                None => self.found(rules, outcome, exact),
            },
            Err(FailureSpec::CaptureOverflow) => if rules.mode != OutputMode::Summary && !exact {
                (
                    self,
                    ReduceStep::Retry(
                        if rules.mode == OutputMode::Content {
                            rules.plan.windowed(self.skip_remaining, Some(self.need(rules)))
                        } else {
                            rules.plan
                        },
                    ),
                )
            } else if rules.mode != OutputMode::Summary && !rules.single_file {
                self.left_out(
                    rules,
                    path,
                    SkipSpec::SearchFailure {
                        reason: "matching content and context exceed the 64 MiB safety limit"@,
                        message: outcome::capture_limit_message(path),
                    },
                )
            } else {
                self.failed(FailureSpec::CaptureOverflow.message(path))
            },
            Err(FailureSpec::Candidate(skip)) => self.left_out(rules, path, skip),
            Err(failure) => self.failed(failure.message(path)),
        }
    }
}

/// A difference that stops at zero.
pub open spec fn less(left: usize, right: usize) -> usize {
    if left < right {
        0
    } else {
        (left - right) as usize
    }
}

/// The lesser of two numbers.
pub open spec fn lesser(left: usize, right: usize) -> usize {
    if left < right {
        left
    } else {
        right
    }
}

/// Whether files are captured content, every entry of which stands for something.
pub open spec fn results_known(files: Seq<FileSpec>) -> bool {
    forall|i: int|
        0 <= i < files.len() ==> {
            &&& (#[trigger] files[i]).payload matches PayloadSpec::Content(content)
            &&& capture::all_known(content.occurrences, content.entries)
        }
}

/// Folding keeps the results of a page of matches captured content, every entry of which stands
/// for something.
proof fn folding_keeps_known(
    rules: PageRules,
    state: ReduceState,
    path: Seq<char>,
    outcome: Result<OutcomeSpec, FailureSpec>,
    exact: bool,
)
    requires
        rules.mode == OutputMode::Content ==> rules.plan.captured() is Some,
        rules.mode == OutputMode::Content ==> results_known(state.results),
        outcome matches Ok(found) ==> search::fits_plan(rules.plan, found.result),
    ensures
        rules.mode == OutputMode::Content ==> results_known(
            state.folded(rules, path, outcome, exact).0.results,
        ),
{
    if rules.mode == OutputMode::Content {
        let after = state.folded(rules, path, outcome, exact).0;
        assert forall|i: int| 0 <= i < after.results.len() implies {
            &&& (#[trigger] after.results[i]).payload matches PayloadSpec::Content(content)
            &&& capture::all_known(content.occurrences, content.entries)
        } by {
            if i < state.results.len() {
                assert(after.results[i] == state.results[i]);
            } else {
                let found = outcome->Ok_0.result->Some_0;
                let content = found.payload->Content_0;
                let kept = after.results[i].payload->Content_0;
                assert forall|k: int| 0 <= k < kept.entries.len() implies capture::known(
                    kept.occurrences,
                    #[trigger] kept.entries[k],
                ) by {
                    if exact {
                        assert(kept.entries[k] == content.entries[k]);
                    } else {
                        let start = lesser(
                            state.skip_remaining,
                            found.entry_total() as usize,
                        );
                        assert(kept.entries[k] == content.entries[start + k]);
                    }
                }
            }
        }
    }
}

/// Files as mathematical values.
pub open spec fn file_views(results: Seq<FileResult>) -> Seq<FileSpec> {
    results.map(|i: int, result: FileResult| result@)
}

/// The outcome of a candidate as a mathematical value.
pub open spec fn outcome_view(outcome: Result<SearchOutcome, SearchFailure>) -> Result<
    OutcomeSpec,
    FailureSpec,
> {
    match outcome {
        Ok(outcome) => Ok(outcome@),
        Err(failure) => Err(failure@),
    }
}

/// Folds the outcomes of candidates.
pub struct PageReducer {
    pub rules: PageRules,
    pub results: Vec<FileResult>,
    pub collected_entries: usize,
    pub skip_remaining: usize,
    pub total_entries_seen: usize,
    pub scan_complete: bool,
    pub occurrence_total: usize,
    pub file_total: usize,
    pub skipped_files: SkippedFiles,
    pub transcoding_notes: Vec<String>,
    pub fallback_count: usize,
    pub failure: Option<String>,
}

impl View for PageReducer {
    type V = ReduceState;

    open spec fn view(&self) -> ReduceState {
        ReduceState {
            results: file_views(self.results@),
            collected: self.collected_entries,
            skip_remaining: self.skip_remaining,
            total_seen: self.total_entries_seen,
            scan_complete: self.scan_complete,
            occurrence_total: self.occurrence_total,
            file_total: self.file_total,
            skips: skip_views(self.skipped_files.entries@),
            notes: text::views(self.transcoding_notes@),
            fallback_count: self.fallback_count,
            failure: match self.failure {
                Some(message) => Some(message@),
                None => None,
            },
        }
    }
}

/// Nothing folded yet.
pub open spec fn unfolded(offset: usize, skips: Seq<(Seq<char>, Seq<char>)>) -> ReduceState {
    ReduceState {
        results: Seq::empty(),
        collected: 0,
        skip_remaining: offset,
        total_seen: 0,
        scan_complete: true,
        occurrence_total: 0,
        file_total: 0,
        skips,
        notes: Seq::empty(),
        fallback_count: 0,
        failure: None,
    }
}

impl PageReducer {
    /// Nothing folded yet.
    pub fn new(rules: PageRules, offset: usize, skipped_files: SkippedFiles) -> (reducer: Self)
        requires
            rules.mode == OutputMode::Content ==> rules.plan.captured() is Some,
        ensures
            reducer.wf(),
            reducer.rules == rules,
            reducer@ == unfolded(offset, skip_views(skipped_files.entries@)),
            reducer.skipped_files == skipped_files,
    {
        let reducer = PageReducer {
            rules,
            results: Vec::new(),
            collected_entries: 0,
            skip_remaining: offset,
            total_entries_seen: 0,
            scan_complete: true,
            occurrence_total: 0,
            file_total: 0,
            skipped_files,
            transcoding_notes: Vec::new(),
            fallback_count: 0,
            failure: None,
        };
        assert(reducer@.results =~= Seq::<FileSpec>::empty());
        assert(reducer@.notes =~= Seq::<Seq<char>>::empty());
        reducer
    }

    /// Whether only what was folded changed.
    pub open spec fn kept(&self, other: &Self) -> bool {
        &&& self.rules == other.rules
        &&& self.skipped_files.unreachable_listed == other.skipped_files.unreachable_listed
        &&& self.skipped_files.unreachable_unlisted == other.skipped_files.unreachable_unlisted
    }

    /// Whether the results of a page of matches are captured content, every entry of which stands
    /// for something.
    pub open spec fn wf(&self) -> bool {
        &&& self.rules.mode == OutputMode::Content ==> self.rules.plan.captured() is Some
        &&& self.rules.mode == OutputMode::Content ==> results_known(self@.results)
    }

    fn fail(&mut self, message: String) -> (step: ReduceStep)
        ensures
            final(self).kept(old(self)),
            old(self)@.failed(message@) == (final(self)@, step),
    {
        self.failure = Some(message);
        ReduceStep::Break
    }

    fn leave_out(&mut self, path: &str, skip: &CandidateSkip) -> (step: ReduceStep)
        ensures
            final(self).kept(old(self)),
            old(self)@.left_out(old(self).rules, path@, skip@) == (final(self)@, step),
    {
        if self.rules.single_file {
            return self.fail(skip.single_file_message(path));
        }
        self.skipped_files.record(path, skip);
        ReduceStep::Continue
    }

    fn keep(&mut self, result: FileResult)
        ensures
            final(self).kept(old(self)),
            final(self)@ == (ReduceState {
                results: old(self)@.results.push(result@),
                ..old(self)@
            }),
    {
        let ghost before = self.results@;
        let ghost shown = result@;
        self.results.push(result);
        assert(file_views(self.results@) =~= file_views(before).push(shown));
    }

    fn disclose(&mut self, note: Option<String>, used_fallback: bool)
        ensures
            final(self).kept(old(self)),
            final(self)@ == old(self)@.disclosed(
                match note {
                    Some(note) => Some(note@),
                    None => None,
                },
                used_fallback,
            ),
    {
        if let Some(note) = note {
            insert_text(&mut self.transcoding_notes, note);
        }
        if used_fallback {
            self.fallback_count = self.fallback_count.saturating_add(1);
        }
    }

    fn trim(&mut self, result: FileResult)
        ensures
            final(self).kept(old(self)),
            final(self)@ == old(self)@.trimmed(old(self).rules, Some(result@)),
    {
        let available = result.entry_count();
        let need = self.rules.probe_limit.saturating_sub(self.collected_entries);
        let start = if self.skip_remaining < available {
            self.skip_remaining
        } else {
            available
        };
        let reach = start.saturating_add(need);
        let end = if available < reach {
            available
        } else {
            reach
        };
        self.total_entries_seen = self.total_entries_seen.saturating_add(end);
        self.skip_remaining = self.skip_remaining.saturating_sub(start);
        if end > start {
            let trimmed = result.trim_entries(start, end);
            self.collected_entries = self.collected_entries.saturating_add(end - start);
            self.keep(trimmed);
        }
    }

    fn list(&mut self, result: FileResult)
        ensures
            final(self).kept(old(self)),
            final(self)@ == old(self)@.listed(Some(result@)),
    {
        self.total_entries_seen = self.total_entries_seen.saturating_add(1);
        if self.skip_remaining > 0 {
            self.skip_remaining = self.skip_remaining - 1;
        } else {
            self.collected_entries = self.collected_entries.saturating_add(1);
            self.keep(result);
        }
    }

    fn find(&mut self, outcome: SearchOutcome, exact: bool) -> (step: ReduceStep)
        ensures
            final(self).kept(old(self)),
            old(self)@.found(old(self).rules, outcome@, exact) == (final(self)@, step),
    {
        let SearchOutcome { result, entries_seen, skip, transcoding_note, used_fallback } = outcome;
        self.disclose(transcoding_note, used_fallback);
        match self.rules.mode {
            OutputMode::Summary => {
                if let Some(result) = result {
                    self.file_total = self.file_total.saturating_add(1);
                    self.occurrence_total = self.occurrence_total.saturating_add(
                        result.occurrence_count(),
                    );
                }
            },
            OutputMode::Content => {
                if exact {
                    self.total_entries_seen = self.total_entries_seen.saturating_add(entries_seen);
                    self.skip_remaining = self.skip_remaining.saturating_sub(entries_seen);
                    if let Some(result) = result {
                        self.collected_entries = self.collected_entries.saturating_add(
                            result.entry_count(),
                        );
                        self.keep(result);
                    }
                } else if let Some(result) = result {
                    self.trim(result);
                }
            },
            _ => {
                if let Some(result) = result {
                    self.list(result);
                }
            },
        }
        if self.rules.mode != OutputMode::Summary && self.collected_entries
            >= self.rules.probe_limit {
            self.scan_complete = false;
            ReduceStep::Break
        } else {
            ReduceStep::Continue
        }
    }

    /// Takes the outcome of a candidate in. `exact` tells that it was searched again, in just the
    /// window that is still wanted. Retired work delivers no outcome.
    pub fn accept(
        &mut self,
        path: &str,
        outcome: Result<SearchOutcome, SearchFailure>,
        exact: bool,
    ) -> (step: ReduceStep)
        requires
            old(self).wf(),
            !(outcome matches Err(failure) && failure@ is EpochRetired),
            outcome matches Ok(found) ==> search::fits_plan(old(self).rules.plan, found@.result),
        ensures
            final(self).wf(),
            final(self).kept(old(self)),
            old(self)@.folded(old(self).rules, path@, outcome_view(outcome), exact) == (
                final(self)@,
                step,
            ),
    {
        let summary = self.rules.mode == OutputMode::Summary;
        proof {
            folding_keeps_known(self.rules, self@, path@, outcome_view(outcome), exact);
        }
        match outcome {
            Ok(outcome) => {
                if let Some(skip) = &outcome.skip {
                    return self.leave_out(path, skip);
                }
                self.find(outcome, exact)
            },
            Err(SearchFailure::CaptureOverflow) => {
                if !summary && !exact {
                    let need = self.rules.probe_limit.saturating_sub(self.collected_entries);
                    let plan = if self.rules.mode == OutputMode::Content {
                        self.rules.plan.with_content_window(self.skip_remaining, Some(need))
                    } else {
                        self.rules.plan
                    };
                    ReduceStep::Retry(plan)
                } else if !summary && !self.rules.single_file {
                    self.leave_out(path, &capture_overflow_skip(path))
                } else {
                    self.fail(failure_message(path, &SearchFailure::CaptureOverflow))
                }
            },
            Err(SearchFailure::Candidate(skip)) => self.leave_out(path, &skip),
            Err(failure) => self.fail(failure_message(path, &failure)),
        }
    }
}

/// The entries of a file, each with the path of the file.
pub open spec fn entries_of(file: FileSpec) -> Seq<(Seq<char>, ContentEntry)> {
    match file.payload {
        PayloadSpec::Content(content) => content.entries.map(
            |i: int, entry: ContentEntry| (file.path, entry),
        ),
        _ => Seq::empty(),
    }
}

/// The entries of files, one file after the other.
pub open spec fn all_entries(files: Seq<FileSpec>) -> Seq<(Seq<char>, ContentEntry)>
    decreases files.len(),
{
    if files.len() == 0 {
        Seq::empty()
    } else {
        all_entries(files.drop_last()) + entries_of(files.last())
    }
}

/// Folding captured files one after the other, until the page is complete; the second part tells
/// whether the fold still goes on.
pub open spec fn paged(rules: PageRules, state: ReduceState, files: Seq<FileSpec>) -> (
    ReduceState,
    bool,
)
    decreases files.len(),
{
    if files.len() == 0 {
        (state, true)
    } else {
        let (before, goes_on) = paged(rules, state, files.drop_last());
        if goes_on {
            let (after, step) = before.trimmed(rules, Some(files.last())).checked(rules);
            (after, step == ReduceStep::Continue)
        } else {
            (before, false)
        }
    }
}

/// The part of all entries that a page is cut from.
pub open spec fn window<T>(entries: Seq<T>, offset: int, limit: int) -> Seq<T> {
    let from = if offset < entries.len() {
        offset
    } else {
        entries.len() as int
    };
    let to = if offset + limit < entries.len() {
        offset + limit
    } else {
        entries.len() as int
    };
    entries.subrange(from, to)
}

proof fn all_entries_push(files: Seq<FileSpec>, file: FileSpec)
    ensures
        all_entries(files.push(file)) == all_entries(files) + entries_of(file),
{
    assert(files.push(file).drop_last() =~= files);
}

/// A page is a window: whatever files the entries come from, the fold keeps exactly the entries
/// from the offset on, as many as end the scan, in their order; and it knows how many it saw.
#[verifier::spinoff_prover]
#[verifier::rlimit(40)]
pub proof fn page_is_a_window(
    rules: PageRules,
    offset: usize,
    skips: Seq<(Seq<char>, Seq<char>)>,
    files: Seq<FileSpec>,
)
    requires
        rules.mode == OutputMode::Content,
        rules.probe_limit >= 1,
        offset + rules.probe_limit <= usize::MAX,
        forall|i: int|
            0 <= i < files.len() ==> (#[trigger] files[i]).payload is Content
                && files[i].entry_total() <= usize::MAX,
    ensures
        ({
            let (page, goes_on) = paged(rules, unfolded(offset, skips), files);
            let all = all_entries(files);
            &&& all_entries(page.results) == window(all, offset as int, rules.probe_limit as int)
            &&& page.collected == window(all, offset as int, rules.probe_limit as int).len()
            &&& page.total_seen == if all.len() < offset + rules.probe_limit {
                all.len()
            } else {
                (offset + rules.probe_limit) as nat
            }
            &&& page.skip_remaining == if all.len() < offset {
                (offset - all.len()) as int
            } else {
                0
            }
            &&& goes_on == (all.len() < offset + rules.probe_limit)
            &&& page.scan_complete == goes_on
        }),
    decreases files.len(),
{
    let start_state = unfolded(offset, skips);
    let limit = rules.probe_limit as int;
    if files.len() == 0 {
        assert(all_entries(start_state.results) =~= window(all_entries(files), offset as int, limit));
    } else {
        let prefix = files.drop_last();
        assert forall|i: int| 0 <= i < prefix.len() implies (#[trigger] prefix[i]).payload is Content
            && prefix[i].entry_total() <= usize::MAX by {
            assert(prefix[i] == files[i]);
        }
        page_is_a_window(rules, offset, skips, prefix);
        let (before, goes_on) = paged(rules, start_state, prefix);
        let earlier = all_entries(prefix);
        let file = files.last();
        assert(files[files.len() - 1] == file);
        let own = entries_of(file);
        let all = all_entries(files);
        assert(all == earlier + own);
        assert(own.len() == file.entry_total());
        if goes_on {
            let available = file.entry_total() as usize;
            let start = lesser(before.skip_remaining, available);
            let end = lesser(available, plan::sat(start, before.need(rules)));
            let after = before.trimmed(rules, Some(file));
            if end > start {
                let cut = file.trimmed(start as int, end as int);
                all_entries_push(before.results, cut);
                assert(entries_of(cut) =~= own.subrange(start as int, end as int));
                assert(window(earlier, offset as int, limit) + own.subrange(
                    start as int,
                    end as int,
                ) =~= window(all, offset as int, limit));
            } else {
                assert(window(earlier, offset as int, limit) =~= window(all, offset as int, limit));
            }
        } else {
            assert(window(earlier, offset as int, limit) =~= window(all, offset as int, limit));
        }
    }
}

/// Folding files that are one entry each, until the page is complete; the second part tells
/// whether the fold still goes on.
pub open spec fn listed_all(rules: PageRules, state: ReduceState, files: Seq<FileSpec>) -> (
    ReduceState,
    bool,
)
    decreases files.len(),
{
    if files.len() == 0 {
        (state, true)
    } else {
        let (before, goes_on) = listed_all(rules, state, files.drop_last());
        if goes_on {
            let (after, step) = before.listed(Some(files.last())).checked(rules);
            (after, step == ReduceStep::Continue)
        } else {
            (before, false)
        }
    }
}

/// A list of files is a window too: the fold keeps exactly the files from the offset on, as many
/// as end the scan, in their order.
pub proof fn file_list_is_a_window(
    rules: PageRules,
    offset: usize,
    skips: Seq<(Seq<char>, Seq<char>)>,
    files: Seq<FileSpec>,
)
    requires
        rules.mode == OutputMode::FilesWithMatches || rules.mode == OutputMode::Count,
        rules.probe_limit >= 1,
        offset + rules.probe_limit <= usize::MAX,
    ensures
        ({
            let (page, goes_on) = listed_all(rules, unfolded(offset, skips), files);
            &&& page.results == window(files, offset as int, rules.probe_limit as int)
            &&& page.collected == page.results.len()
            &&& page.total_seen == if files.len() < offset + rules.probe_limit {
                files.len()
            } else {
                (offset + rules.probe_limit) as nat
            }
            &&& page.skip_remaining == if files.len() < offset {
                (offset - files.len()) as int
            } else {
                0
            }
            &&& goes_on == (files.len() < offset + rules.probe_limit)
            &&& page.scan_complete == goes_on
        }),
    decreases files.len(),
{
    let limit = rules.probe_limit as int;
    if files.len() == 0 {
        assert(unfolded(offset, skips).results =~= window(files, offset as int, limit));
    } else {
        let prefix = files.drop_last();
        file_list_is_a_window(rules, offset, skips, prefix);
        let (before, goes_on) = listed_all(rules, unfolded(offset, skips), prefix);
        if goes_on && before.skip_remaining == 0 {
            assert(window(prefix, offset as int, limit).push(files.last()) =~= window(
                files,
                offset as int,
                limit,
            ));
        } else {
            assert(window(prefix, offset as int, limit) =~= window(files, offset as int, limit));
        }
    }
}

/// A file with only its first entries.
pub open spec fn ahead(file: FileSpec, count: nat) -> FileSpec {
    if file.entry_total() <= count {
        file
    } else {
        file.trimmed(0, count as int)
    }
}

/// Capturing only as many entries of each file as a page can need at most changes no page.
pub proof fn capturing_ahead_changes_no_page(files: Seq<FileSpec>, offset: nat, limit: nat)
    requires
        forall|i: int| 0 <= i < files.len() ==> (#[trigger] files[i]).payload is Content,
    ensures
        ({
            let captured = files.map(|i: int, file: FileSpec| ahead(file, offset + limit));
            window(all_entries(captured), offset as int, limit as int) == window(
                all_entries(files),
                offset as int,
                limit as int,
            )
        }),
{
    let captured = files.map(|i: int, file: FileSpec| ahead(file, offset + limit));
    first_entries_agree(files, offset + limit);
    let few = all_entries(captured);
    let many = all_entries(files);
    let reach = (offset + limit) as int;
    assert(window(few, offset as int, limit as int) =~= window(many, offset as int, limit as int))
        by {
        assert forall|i: int| 0 <= i < few.len() && i < reach implies few[i] == many[i] by {
            assert(first(few, reach)[i] == first(many, reach)[i]);
        }
        assert(first(few, reach).len() == first(many, reach).len());
    }
}

/// The first entries of a list.
pub open spec fn first<T>(entries: Seq<T>, count: int) -> Seq<T> {
    if entries.len() <= count {
        entries
    } else {
        entries.take(count)
    }
}

proof fn first_entries_agree(files: Seq<FileSpec>, count: nat)
    requires
        forall|i: int| 0 <= i < files.len() ==> (#[trigger] files[i]).payload is Content,
    ensures
        first(all_entries(files.map(|i: int, file: FileSpec| ahead(file, count))), count as int)
            == first(all_entries(files), count as int),
    decreases files.len(),
{
    let captured = files.map(|i: int, file: FileSpec| ahead(file, count));
    if files.len() > 0 {
        let prefix = files.drop_last();
        assert forall|i: int| 0 <= i < prefix.len() implies (#[trigger] prefix[i]).payload is Content by {
            assert(prefix[i] == files[i]);
        }
        first_entries_agree(prefix, count);
        assert(captured.drop_last() =~= prefix.map(|i: int, file: FileSpec| ahead(file, count)));
        assert(captured.last() == ahead(files.last(), count));
        let few = all_entries(captured.drop_last());
        let many = all_entries(prefix);
        let own = entries_of(files.last());
        assert(files[files.len() - 1].payload is Content);
        let kept = entries_of(ahead(files.last(), count));
        assert(kept =~= first(own, count as int));
        assert(first(few + kept, count as int) =~= first(many + own, count as int)) by {
            assert(first(few, count as int) == first(many, count as int));
            if few.len() >= count {
                assert(many.len() >= count) by {
                    assert(first(few, count as int).len() == count);
                }
                assert forall|i: int| 0 <= i < count implies few[i] == many[i] by {
                    assert(first(few, count as int)[i] == first(many, count as int)[i]);
                }
            } else {
                assert(first(few, count as int) == few);
                assert(many.len() < count || many.len() == few.len());
                assert(few =~= many) by {
                    if many.len() > count {
                        assert(first(many, count as int).len() == count);
                    }
                }
            }
        }
    }
}

} // verus!
