//! A whole search: candidates in their order, folded into one response.

use crate::encoding::detect;
use crate::encoding::pipeline;
use crate::grep::content;
use crate::grep::content::{format_content_mode, ContentOptions};
use crate::grep::lines;
use crate::grep::matcher;
use crate::grep::matcher::{GrepMatcher, MatcherSpec};
use crate::grep::outcome;
use crate::grep::outcome::{
    search_candidate, search_content, FailureSpec, OutcomeSpec, SearchFailure, SearchOutcome,
};
use crate::grep::plan;
use crate::grep::plan::{requested_context, GrepRequest, OutputMode};
use crate::grep::reduce;
use crate::grep::reduce::{
    fallback_fact, PageReducer, PageRules, ReduceState, ReduceStep, SkippedFiles,
};
use crate::grep::render;
use crate::grep::render::{
    format_count_mode, format_files_mode, format_summary, offset_exhausted, zero_result, GrepPage,
    PageFacts, PageSpec,
};
use crate::grep::request;
use crate::grep::request::{prepare, GrepJob, SearchRoot};
use crate::grep::search;
use crate::model::ToolResponse;
use crate::operation::{WorkCheckpoint, WorkStage, WorkStop};
use crate::page;
use crate::page::{NoteUnits, UnitsSpec};
use crate::paging;
use crate::queue::into_queue;
use crate::snapshot::capture::{CaptureDisposition, CaptureFailure};
use crate::text;
use vstd::prelude::*;
use vstd::string::*;

verus! {

/// A search while its candidates are folded.
pub struct GrepRun {
    pub matcher: GrepMatcher,
    pub reducer: PageReducer,
    pub pattern: String,
    pub offset: usize,
    pub head_limit: usize,
    pub fallback_label: Option<&'static str>,
    pub options: ContentOptions,
    pub budget: usize,
    pub budget_variable: String,
}

/// How a request has its matches written.
pub open spec fn content_options(request: GrepRequest) -> ContentOptions {
    ContentOptions {
        numbers: plan::or_else(request.line_numbers, true),
        only_matching: plan::or_else(request.only_matching, false),
        context: plan::context_of(request),
    }
}

impl GrepRun {
    /// Whether the state is usable.
    pub open spec fn wf(&self) -> bool {
        self.matcher.wf() && self.reducer.wf()
    }

    /// What the note tells: encodings first, then what was left out.
    pub open spec fn told(
        &self,
        details: Seq<Seq<char>>,
        tally: Seq<Option<Seq<char>>>,
    ) -> UnitsSpec {
        let notes = self.reducer@.notes;
        UnitsSpec {
            facts: match reduce::fallback_fact_spec(
                self.reducer@.fallback_count,
                pipeline::str_view(self.fallback_label),
            ) {
                Some(fact) => notes.push(fact),
                None => notes,
            },
            details,
            tally,
        }
    }

    /// What the page tells.
    pub open spec fn facts(&self, units: UnitsSpec) -> PageFacts {
        if self.reducer.rules.mode == OutputMode::Summary {
            PageFacts {
                pattern: self.pattern@,
                offset: 0,
                head_limit: 0,
                budget: self.budget,
                budget_variable: self.budget_variable@,
                scan_complete: true,
                total_entries_seen: 0,
                single_file_target: false,
                units,
            }
        } else {
            PageFacts {
                pattern: self.pattern@,
                offset: self.offset,
                head_limit: self.head_limit,
                budget: self.budget,
                budget_variable: self.budget_variable@,
                scan_complete: self.reducer@.scan_complete,
                total_entries_seen: self.reducer@.total_seen,
                single_file_target: self.reducer.rules.single_file,
                units,
            }
        }
    }

    /// The page that the search comes to.
    pub open spec fn page(&self, units: UnitsSpec, cost: spec_fn(Seq<char>) -> nat) -> PageSpec {
        let state = self.reducer@;
        let mode = self.reducer.rules.mode;
        let facts = self.facts(units);
        match state.failure {
            Some(message) => PageSpec::Error(message),
            None => if mode == OutputMode::Summary {
                render::summary_page(facts, state.occurrence_total, state.file_total, cost)
            } else if state.results.len() == 0 {
                if state.total_seen == 0 {
                    render::zero_page(mode, facts, cost)
                } else {
                    render::exhausted_page(mode, facts, cost)
                }
            } else {
                let shown = state.results.take(
                    render::initial_shown(facts.head_limit, state.results.len()) as int,
                );
                match mode {
                    OutputMode::FilesWithMatches => render::line_page(
                        facts,
                        render::path_lines(shown),
                        "files"@,
                        cost,
                    ),
                    OutputMode::Count => render::line_page(
                        facts,
                        render::count_lines(shown),
                        "files"@,
                        cost,
                    ),
                    _ => content::content_page(
                        facts,
                        state.results,
                        content::selection(state.results),
                        self.options,
                        cost,
                    ),
                }
            },
        }
    }

    /// Begins the search that a request asks for.
    pub fn begin(
        request: &GrepRequest,
        job: GrepJob,
        skipped_files: SkippedFiles,
        budget: usize,
        budget_variable: String,
    ) -> (run: Self)
        requires
            job.matcher.wf(),
            job.rules.mode == OutputMode::Content ==> job.rules.plan.captured() is Some,
        ensures
            run.wf(),
            run.matcher == job.matcher,
            run.reducer.rules == job.rules,
            run.reducer@ == reduce::unfolded(
                job.offset,
                reduce::skip_views(skipped_files.entries@),
            ),
            run.reducer.skipped_files == skipped_files,
            run.pattern@ == request.pattern@,
            run.offset == job.offset,
            run.head_limit == job.head_limit,
            run.fallback_label == job.fallback_label,
            run.options == content_options(*request),
            run.budget == budget,
            run.budget_variable == budget_variable,
    {
        let numbers = match request.line_numbers {
            Some(numbers) => numbers,
            None => true,
        };
        let only_matching = match request.only_matching {
            Some(only_matching) => only_matching,
            None => false,
        };
        let options = ContentOptions {
            numbers,
            only_matching,
            context: requested_context(request),
        };
        GrepRun {
            matcher: job.matcher,
            reducer: PageReducer::new(job.rules, job.offset, skipped_files),
            pattern: request.pattern.as_str().to_owned(),
            offset: job.offset,
            head_limit: job.head_limit,
            fallback_label: job.fallback_label,
            options,
            budget,
            budget_variable,
        }
    }

    fn write_facts(&self) -> (facts: Vec<String>)
        ensures
            text::views(facts@) == self.told(Seq::empty(), Seq::empty()).facts,
    {
        let mut facts: Vec<String> = Vec::new();
        let mut index: usize = 0;
        let ghost notes = self.reducer@.notes;
        assert(text::views(facts@) =~= notes.take(0));
        while index < self.reducer.transcoding_notes.len()
            invariant
                index <= self.reducer.transcoding_notes@.len(),
                notes == text::views(self.reducer.transcoding_notes@),
                text::views(facts@) == notes.take(index as int),
            decreases self.reducer.transcoding_notes@.len() - index,
        {
            let ghost before = facts@;
            let note = self.reducer.transcoding_notes[index].as_str().to_owned();
            let ghost shown = note@;
            facts.push(note);
            proof {
                assert(text::views(facts@) =~= text::views(before).push(shown));
                assert(text::views(facts@) =~= notes.take(index + 1));
            }
            index += 1;
        }
        assert(notes.take(notes.len() as int) =~= notes);
        if let Some(fact) = fallback_fact(self.reducer.fallback_count, self.fallback_label) {
            let ghost before = facts@;
            let ghost shown = fact@;
            facts.push(fact);
            assert(text::views(facts@) =~= text::views(before).push(shown));
        }
        facts
    }

    /// Writes the page that the search comes to. `details` are the lines on what was left out,
    /// `tally` the fact on it by the number of lines that are shown.
    pub fn finish<F: Fn(&str) -> usize>(
        &self,
        details: Vec<String>,
        tally: Vec<Option<String>>,
        estimate: &F,
    ) -> (response: ToolResponse)
        requires
            self.wf(),
            tally@.len() == details@.len() + 1,
            forall|text: &str| #[trigger] call_requires(*estimate, (text,)),
        ensures
            forall|cost: spec_fn(Seq<char>) -> nat| #[trigger]
                paging::estimates(*estimate, cost) ==> render::responds(
                    response,
                    self.page(
                        self.told(text::views(details@), page::option_views(tally@)),
                        cost,
                    ),
                ),
    {
        if let Some(message) = &self.reducer.failure {
            return ToolResponse::error(message.as_str().to_owned());
        }
        let mode = self.reducer.rules.mode;
        let summary = mode == OutputMode::Summary;
        let units = NoteUnits { facts: self.write_facts(), details, tally };
        let page = GrepPage {
            pattern: self.pattern.as_str().to_owned(),
            offset: if summary {
                0
            } else {
                self.offset
            },
            head_limit: if summary {
                0
            } else {
                self.head_limit
            },
            budget: self.budget,
            budget_variable: self.budget_variable.as_str().to_owned(),
            scan_complete: summary || self.reducer.scan_complete,
            total_entries_seen: if summary {
                0
            } else {
                self.reducer.total_entries_seen
            },
            single_file_target: !summary && self.reducer.rules.single_file,
            units,
        };
        let results = &self.reducer.results;
        proof {
            let units = self.told(text::views(details@), page::option_views(tally@));
            assert(page@.units == units);
            assert(page@ == self.facts(units));
            assert(lines::result_views(results@) =~= self.reducer@.results);
            if mode == OutputMode::Content {
                assert(content::files_known(lines::result_views(results@)));
            }
        }
        if summary {
            return format_summary(
                self.reducer.occurrence_total,
                self.reducer.file_total,
                &page,
                estimate,
            );
        }
        if results.len() == 0 {
            return if self.reducer.total_entries_seen == 0 {
                zero_result(mode, &page, estimate)
            } else {
                offset_exhausted(mode, &page, estimate)
            };
        }
        match mode {
            OutputMode::FilesWithMatches => format_files_mode(results, &page, estimate),
            OutputMode::Count => format_count_mode(results, &page, estimate),
            _ => format_content_mode(results, self.options, &page, estimate),
        }
    }
}

/// A candidate: what became of capturing it, and what a searchable snapshot of it holds.
pub struct GrepCandidate {
    pub path: String,
    pub capture: Result<CaptureDisposition, CaptureFailure<String>>,
    pub content: Vec<u8>,
}

/// The encodings that a search reads files in.
pub struct SearchEncoding {
    pub explicit: Option<String>,
    pub fallback: Option<String>,
}

/// The characters of an optional string.
pub open spec fn label_of(label: Option<String>) -> Option<Seq<char>> {
    match label {
        Some(label) => Some(label@),
        None => None,
    }
}

/// What the search of a candidate under a plan comes to.
#[verifier::opaque]
pub open spec fn searched(
    matcher: GrepMatcher,
    plan: plan::GrepSearchPlan,
    encoding: SearchEncoding,
    candidate: GrepCandidate,
) -> Result<OutcomeSpec, FailureSpec> {
    outcome::candidate_searched(
        candidate.path@,
        candidate.capture,
        candidate.content@,
        matcher,
        plan,
        label_of(encoding.explicit),
        label_of(encoding.fallback),
    )
}

/// What a candidate does to the fold. One whose content does not fit is searched again, in just
/// the window that is still wanted.
pub open spec fn candidate_step(
    matcher: GrepMatcher,
    rules: PageRules,
    encoding: SearchEncoding,
    state: ReduceState,
    candidate: GrepCandidate,
) -> (ReduceState, ReduceStep) {
    let first = state.folded(
        rules,
        candidate.path@,
        searched(matcher, rules.plan, encoding, candidate),
        false,
    );
    match first.1 {
        ReduceStep::Retry(exact) => first.0.folded(
            rules,
            candidate.path@,
            searched(matcher, exact, encoding, candidate),
            true,
        ),
        _ => first,
    }
}

/// What candidates do to the fold, up to the one that ends it.
pub open spec fn candidate_steps(
    matcher: GrepMatcher,
    rules: PageRules,
    encoding: SearchEncoding,
    state: ReduceState,
    candidates: Seq<GrepCandidate>,
) -> (ReduceState, bool)
    decreases candidates.len(),
{
    if candidates.len() == 0 {
        (state, true)
    } else {
        let (before, goes_on) = candidate_steps(
            matcher,
            rules,
            encoding,
            state,
            candidates.drop_last(),
        );
        if goes_on {
            let (after, step) = candidate_step(
                matcher,
                rules,
                encoding,
                before,
                candidates.last(),
            );
            (after, step == ReduceStep::Continue)
        } else {
            (before, false)
        }
    }
}

proof fn ended_fold_stays(
    matcher: GrepMatcher,
    rules: PageRules,
    encoding: SearchEncoding,
    state: ReduceState,
    candidates: Seq<GrepCandidate>,
    count: int,
)
    requires
        0 <= count <= candidates.len(),
        !candidate_steps(matcher, rules, encoding, state, candidates.take(count)).1,
    ensures
        candidate_steps(matcher, rules, encoding, state, candidates) == candidate_steps(
            matcher,
            rules,
            encoding,
            state,
            candidates.take(count),
        ),
    decreases candidates.len(),
{
    if count == candidates.len() {
        assert(candidates.take(count) =~= candidates);
    } else {
        assert(candidates.drop_last().take(count) =~= candidates.take(count));
        ended_fold_stays(matcher, rules, encoding, state, candidates.drop_last(), count);
    }
}

fn label(value: &Option<String>) -> (label: Option<&str>)
    ensures
        pipeline::str_view(label) == label_of(*value),
{
    match value {
        Some(value) => Some(value.as_str()),
        None => None,
    }
}

/// Whether a candidate can be folded: stopped work delivers nothing.
pub open spec fn deliverable(candidate: GrepCandidate) -> bool {
    !(candidate.capture matches Err(CaptureFailure::EpochRetired))
        && !(candidate.capture matches Err(CaptureFailure::Cancelled))
}

/// The search of a candidate that can be folded is never stopped by the candidate, and only a
/// captured one can exceed the limit of what is kept.
proof fn searching_delivers(
    matcher: GrepMatcher,
    plan: plan::GrepSearchPlan,
    encoding: SearchEncoding,
    candidate: GrepCandidate,
)
    requires
        deliverable(candidate),
    ensures
        searched(matcher, plan, encoding, candidate) matches Err(failure) ==> !outcome::stopped(
            failure,
        ),
        searched(matcher, plan, encoding, candidate) matches Err(FailureSpec::CaptureOverflow)
            ==> candidate.capture matches Ok(CaptureDisposition::Searchable(_)),
{
    reveal(searched);
}

fn search_first<W: WorkCheckpoint>(
    matcher: &GrepMatcher,
    plan: plan::GrepSearchPlan,
    encoding: &SearchEncoding,
    path: &str,
    capture: Result<CaptureDisposition, CaptureFailure<String>>,
    content: &[u8],
    Ghost(candidate): Ghost<GrepCandidate>,
    work: &W,
) -> (result: Result<SearchOutcome, SearchFailure>)
    requires
        matcher.wf(),
        candidate.path@ == path@,
        candidate.capture == capture,
        candidate.content@ == content@,
    ensures
        result matches Ok(found) ==> search::fits_plan(plan, found@.result),
        reduce::outcome_view(result) == searched(*matcher, plan, *encoding, candidate) || (
        result matches Err(failure) && outcome::stopped_by(work, failure@)
            && !work.never_stops()),
{
    reveal(searched);
    search_candidate(
        path,
        capture,
        content,
        matcher,
        plan,
        label(&encoding.explicit),
        label(&encoding.fallback),
        work,
    )
}

fn search_again<W: WorkCheckpoint>(
    matcher: &GrepMatcher,
    plan: plan::GrepSearchPlan,
    encoding: &SearchEncoding,
    path: &str,
    content: &[u8],
    Ghost(candidate): Ghost<GrepCandidate>,
    work: &W,
) -> (result: Result<SearchOutcome, SearchFailure>)
    requires
        matcher.wf(),
        candidate.path@ == path@,
        candidate.capture matches Ok(CaptureDisposition::Searchable(_)),
        candidate.content@ == content@,
    ensures
        result matches Ok(found) ==> search::fits_plan(plan, found@.result),
        reduce::outcome_view(result) == searched(*matcher, plan, *encoding, candidate) || (
        result matches Err(failure) && outcome::stopped_by(work, failure@)
            && !work.never_stops()),
{
    reveal(searched);
    proof {
        outcome::candidate_fits_plan(
            path@,
            candidate.capture,
            content@,
            *matcher,
            plan,
            label_of(encoding.explicit),
            label_of(encoding.fallback),
        );
    }
    search_content(
        path,
        content,
        matcher,
        plan,
        label(&encoding.explicit),
        label(&encoding.fallback),
        work,
    )
}

fn stop_of(outcome: &Result<SearchOutcome, SearchFailure>) -> (stop: Option<WorkStop>)
    ensures
        stop == match *outcome {
            Err(SearchFailure::Cancelled) => Some(WorkStop::RequestCancelled),
            Err(SearchFailure::EpochRetired) => Some(WorkStop::EpochRetired),
            _ => None,
        },
{
    match outcome {
        Err(SearchFailure::Cancelled) => Some(WorkStop::RequestCancelled),
        Err(SearchFailure::EpochRetired) => Some(WorkStop::EpochRetired),
        _ => None,
    }
}

impl GrepRun {
    /// Whether only what was folded changed.
    pub open spec fn same_search(&self, other: &Self) -> bool {
        &&& self.matcher == other.matcher
        &&& self.reducer.kept(&other.reducer)
        &&& self.pattern == other.pattern
        &&& self.offset == other.offset
        &&& self.head_limit == other.head_limit
        &&& self.fallback_label == other.fallback_label
        &&& self.options == other.options
        &&& self.budget == other.budget
        &&& self.budget_variable == other.budget_variable
    }

    /// Searches a candidate and folds what it comes to; an error when the work was stopped.
    pub fn search_next<W: WorkCheckpoint>(
        &mut self,
        candidate: GrepCandidate,
        encoding: &SearchEncoding,
        work: &W,
    ) -> (result: Result<ReduceStep, WorkStop>)
        requires
            old(self).wf(),
            deliverable(candidate),
        ensures
            final(self).wf(),
            final(self).same_search(old(self)),
            match result {
                Ok(step) => candidate_step(
                    old(self).matcher,
                    old(self).reducer.rules,
                    *encoding,
                    old(self).reducer@,
                    candidate,
                ) == (final(self).reducer@, step) && !(step is Retry),
                Err(stop) => work.stops_with(stop) && !work.never_stops(),
            },
    {
        let ghost given = candidate;
        let ghost rules = self.reducer.rules;
        let GrepCandidate { path, capture, content } = candidate;
        let outcome = search_first(
            &self.matcher,
            self.reducer.rules.plan,
            encoding,
            path.as_str(),
            capture,
            content.as_slice(),
            Ghost(given),
            work,
        );
        proof {
            searching_delivers(self.matcher, rules.plan, *encoding, given);
        }
        if let Some(stop) = stop_of(&outcome) {
            return Err(stop);
        }
        let step = self.reducer.accept(path.as_str(), outcome, false);
        let exact = match step {
            ReduceStep::Retry(exact) => exact,
            _ => {
                return Ok(step);
            },
        };
        proof {
            searching_delivers(self.matcher, exact, *encoding, given);
        }
        let again = search_again(
            &self.matcher,
            exact,
            encoding,
            path.as_str(),
            content.as_slice(),
            Ghost(given),
            work,
        );
        if let Some(stop) = stop_of(&again) {
            return Err(stop);
        }
        Ok(self.reducer.accept(path.as_str(), again, true))
    }

    /// Searches candidates in their order until the page is complete; an error when the work was
    /// stopped.
    pub fn search_all<W: WorkCheckpoint>(
        &mut self,
        candidates: Vec<GrepCandidate>,
        encoding: &SearchEncoding,
        work: &W,
    ) -> (result: Result<(), WorkStop>)
        requires
            old(self).wf(),
            forall|i: int| 0 <= i < candidates@.len() ==> deliverable(#[trigger] candidates@[i]),
        ensures
            final(self).wf(),
            final(self).same_search(old(self)),
            match result {
                Ok(()) => final(self).reducer@ == candidate_steps(
                    old(self).matcher,
                    old(self).reducer.rules,
                    *encoding,
                    old(self).reducer@,
                    candidates@,
                ).0,
                Err(stop) => work.stops_with(stop) && !work.never_stops(),
            },
    {
        let ghost all = candidates@;
        let ghost begun = *self;
        let ghost mut done: int = 0;
        let mut rest = into_queue(candidates);
        let mut goes_on = true;
        assert(all.take(0) =~= Seq::<GrepCandidate>::empty());
        assert(all.skip(0) =~= all);
        while rest.len() > 0 && goes_on
            invariant
                0 <= done <= all.len(),
                rest@ == all.skip(done),
                forall|i: int| 0 <= i < all.len() ==> deliverable(#[trigger] all[i]),
                self.wf(),
                self.same_search(&begun),
                begun == *old(self),
                candidate_steps(
                    begun.matcher,
                    begun.reducer.rules,
                    *encoding,
                    begun.reducer@,
                    all.take(done),
                ) == (self.reducer@, goes_on),
            decreases rest@.len(),
        {
            if let Some(candidate) = rest.pop_front() {
                proof {
                    assert(all.skip(done)[0] == all[done]);
                    assert(rest@ =~= all.skip(done + 1));
                    assert(all.take(done + 1).drop_last() =~= all.take(done));
                    assert(all.take(done + 1).last() == all[done]);
                    done = done + 1;
                }
                let step = self.search_next(candidate, encoding, work)?;
                goes_on = match step {
                    ReduceStep::Continue => true,
                    _ => false,
                };
            }
        }
        proof {
            if goes_on {
                assert(all.take(done) =~= all);
            } else {
                ended_fold_stays(
                    begun.matcher,
                    begun.reducer.rules,
                    *encoding,
                    begun.reducer@,
                    all,
                    done,
                );
            }
        }
        Ok(())
    }
}

/// What a search has to work with.
pub struct GrepInput {
    /// Where it begins, or why there is no such place.
    pub root: Result<SearchRoot, String>,
    /// Whether its file filter compiles, with the words of the error.
    pub glob: Result<(), String>,
    pub candidates: Vec<GrepCandidate>,
    /// The paths that could not be reached.
    pub skipped_files: SkippedFiles,
    pub budget: usize,
    pub budget_variable: String,
    pub capture_limit: usize,
}

/// What is told of skipped files: a line for each, and a fact by the number of lines shown.
pub struct SkipReport {
    pub details: Vec<String>,
    pub tally: Vec<Option<String>>,
}

/// Whether a search that is over is the one that a request asks for.
pub open spec fn ran(run: GrepRun, request: GrepRequest, input: GrepInput) -> bool {
    let is_file = input.root->Ok_0.is_file;
    let rules = request::page_rules(request, is_file, input.budget, input.capture_limit);
    let encoding = SearchEncoding {
        explicit: request.encoding,
        fallback: request.fallback_encoding,
    };
    &&& run.matcher.source() == (MatcherSpec {
        pattern: request::compiled_pattern(request),
        case_insensitive: plan::or_else(request.case_insensitive, false),
        multiline: plan::or_else(request.multiline, false),
    })
    &&& run.reducer.rules == rules
    &&& run.reducer@ == candidate_steps(
        run.matcher,
        rules,
        encoding,
        reduce::unfolded(
            plan::or_else(request.offset, 0),
            reduce::skip_views(input.skipped_files.entries@),
        ),
        input.candidates@,
    ).0
    &&& run.pattern@ == request.pattern@
    &&& run.offset == plan::or_else(request.offset, 0)
    &&& run.head_limit == plan::shown_limit(
        plan::or_else(request.head_limit, plan::DEFAULT_HEAD_LIMIT),
        input.budget,
    )
    &&& match request.fallback_encoding {
        None => run.fallback_label is None,
        Some(label) => run.fallback_label matches Some(name) && (detect::explicit_charset(
            label@,
        ) matches Some(charset) && name@ == charset.name()),
    }
    &&& run.options == content_options(request)
    &&& run.budget == input.budget
    &&& run.budget_variable == input.budget_variable
}

/// Whether skipped files are those of a search that is over, the unreachable ones first.
pub open spec fn reported(skipped: SkippedFiles, run: GrepRun, unreachable: SkippedFiles) -> bool {
    &&& reduce::skip_views(skipped.entries@) == run.reducer@.skips
    &&& skipped.unreachable_listed == unreachable.unreachable_listed
    &&& skipped.unreachable_unlisted == unreachable.unreachable_unlisted
}

/// Searches captured candidates and writes the response. `report` tells what to say of skipped
/// files, `estimate` what a text costs.
pub fn grep_files<W: WorkCheckpoint, R: Fn(&SkippedFiles) -> SkipReport, F: Fn(&str) -> usize>(
    request: GrepRequest,
    input: GrepInput,
    work: &W,
    report: &R,
    estimate: &F,
) -> (response: ToolResponse)
    requires
        forall|i: int|
            0 <= i < input.candidates@.len() ==> deliverable(#[trigger] input.candidates@[i]),
        forall|skipped: &SkippedFiles| #[trigger] call_requires(*report, (skipped,)),
        forall|skipped: &SkippedFiles, told: SkipReport| #[trigger]
            call_ensures(*report, (skipped,), told) ==> told.tally@.len() == told.details@.len()
                + 1,
        forall|text: &str| #[trigger] call_requires(*estimate, (text,)),
    ensures
        match request::request_error(request, input.root, input.glob) {
            Some(message) => render::responds(response, PageSpec::Error(message)),
            None => {
                ||| !work.never_stops() && render::responds(
                    response,
                    PageSpec::Error("Request cancelled."@),
                )
                ||| !work.always_stops() && exists|
                    run: GrepRun,
                    skipped: &SkippedFiles,
                    told: SkipReport,
                | #[trigger]
                    ran(run, request, input) && #[trigger] call_ensures(
                        *report,
                        (skipped,),
                        told,
                    ) && reported(*skipped, run, input.skipped_files) && (forall|
                        cost: spec_fn(Seq<char>) -> nat,
                    | #[trigger]
                        paging::estimates(*estimate, cost) ==> render::responds(
                            response,
                            run.page(
                                run.told(
                                    text::views(told.details@),
                                    page::option_views(told.tally@),
                                ),
                                cost,
                            ),
                        ))
            },
        },
{
    let job = match prepare(
        &request,
        &input.root,
        &input.glob,
        input.budget,
        input.capture_limit,
    ) {
        Ok(job) => job,
        Err(response) => {
            return response;
        },
    };
    if let Err(_) = work.check_stop() {
        return ToolResponse::error("Request cancelled.".to_owned());
    }
    let mut run = GrepRun::begin(
        &request,
        job,
        input.skipped_files,
        input.budget,
        input.budget_variable,
    );
    let encoding = SearchEncoding {
        explicit: request.encoding,
        fallback: request.fallback_encoding,
    };
    if let Err(_) = run.search_all(input.candidates, &encoding, work) {
        return ToolResponse::error("Request cancelled.".to_owned());
    }
    if let Err(_) = work.check_work(WorkStage::RenderUnit) {
        return ToolResponse::error("Request cancelled.".to_owned());
    }
    let skipped = &run.reducer.skipped_files;
    let told = report(skipped);
    let ghost heard = told;
    proof {
        assert(ran(run, request, input));
        assert(reported(*skipped, run, input.skipped_files));
        assert(call_ensures(*report, (skipped,), heard));
    }
    run.finish(told.details, told.tally, estimate)
}

} // verus!
