//! The order of matching files, and one page of them.

use crate::glob::entry;
use crate::glob::entry::{
    collect_matches, EntryFailure, GlobCandidate, MatchEntry, MatchSpec,
};
use crate::glob::request::{
    checked_limit, glob_error, too_many_matches, GlobOutputMode, GlobRequest, SortMode,
    DEFAULT_LIMIT, MAX_LIMIT, MAX_RESULTS,
};
use crate::head_note;
use crate::head_note::{noun, CoverageTotal, CoveredRange, HeadMetric, HeadNote, NoteSpec};
use crate::model::ToolResponse;
use crate::operation::{WorkCheckpoint, WorkStage};
use crate::ordering;
use crate::ordering::{sorted_order, KeySpec, SortKey};
use crate::page;
use crate::page::{settle, NoteUnits, UnitsSpec};
use crate::paging;
use crate::text;
use crate::text::decimal_text;
use vstd::prelude::*;
use vstd::slice::slice_to_vec;
use vstd::string::*;
use vstd::utf8::*;

verus! {

/// What a file is ordered by: the latest time first and unknown times last where that is asked
/// for, then the bytes of its path.
pub open spec fn entry_key(sort: SortMode, entry: MatchSpec) -> KeySpec {
    KeySpec {
        rank: match sort {
            SortMode::Path => 0,
            SortMode::Modified => match entry.modified {
                Some(modified) => -modified.unix_nanos(),
                None => i128::MAX as int,
            },
        },
        first: encode_utf8(entry.display),
        second: entry.native_key,
    }
}

/// What files are ordered by.
pub open spec fn entry_keys(sort: SortMode, entries: Seq<MatchSpec>) -> Seq<KeySpec> {
    entries.map(|i: int, entry: MatchSpec| entry_key(sort, entry))
}

/// The positions of files in their order.
pub fn order_matches(sort: SortMode, entries: &Vec<MatchEntry>) -> (order: Vec<usize>)
    ensures
        ordering::is_order(entry_keys(sort, entry::match_views(entries@)), order@),
{
    let mut keys: Vec<SortKey> = Vec::new();
    let mut index: usize = 0;
    while index < entries.len()
        invariant
            index <= entries.len(),
            ordering::key_views(keys@) == entry_keys(sort, entry::match_views(entries@.take(index as int))),
        decreases entries.len() - index,
    {
        let entry = &entries[index];
        let rank: i128 = match sort {
            SortMode::Path => 0,
            SortMode::Modified => match entry.modified {
                Some(modified) => -modified.to_unix_nanos(),
                None => i128::MAX,
            },
        };
        let ghost before = keys@;
        let key = SortKey {
            rank,
            first: slice_to_vec(entry.display.as_str().as_bytes()),
            second: slice_to_vec(entry.native_key.as_slice()),
        };
        let ghost shown = key@;
        keys.push(key);
        proof {
            assert(ordering::key_views(keys@) =~= ordering::key_views(before).push(shown));
            assert(entry_keys(sort, entry::match_views(entries@.take(index + 1))) =~= entry_keys(
                sort,
                entry::match_views(entries@.take(index as int)),
            ).push(shown));
        }
        index += 1;
    }
    assert(entries@.take(entries@.len() as int) =~= entries@);
    sorted_order(&keys)
}

/// A known time of modification comes before an unknown one, and a later one before an earlier
/// one.
pub proof fn later_files_come_first(left: MatchSpec, right: MatchSpec)
    requires
        left.modified is Some,
        right.modified matches Some(other) ==> left.modified->Some_0.unix_nanos()
            > other.unix_nanos(),
    ensures
        ordering::key_less(
            entry_key(SortMode::Modified, left),
            entry_key(SortMode::Modified, right),
        ),
{
}

/// A page of files, or the message of the error in its place.
pub enum GlobPage {
    Text(Seq<char>),
    Error(Seq<char>),
}

/// Whether a response is this page.
pub open spec fn responds(response: ToolResponse, page: GlobPage) -> bool {
    match page {
        GlobPage::Text(text) => !response.is_error && response.is_single_text(text),
        GlobPage::Error(message) => response.is_error && response.is_single_text(message),
    }
}

/// The message for a budget that holds no page.
pub open spec fn too_small(budget: usize, variable: Seq<char>) -> Seq<char> {
    variable + "="@ + text::decimal(budget as nat)
        + " is too small to return the glob head note and one result. That budget is fixed for this session; retrying cannot raise it."@
}

fn budget_too_small(budget: usize, variable: &str) -> (response: ToolResponse)
    ensures
        responds(response, GlobPage::Error(too_small(budget, variable@))),
{
    let mut message = variable.to_owned();
    message.append("=");
    message.append(decimal_text(budget as u64).as_str());
    message.append(
        " is too small to return the glob head note and one result. That budget is fixed for this session; retrying cannot raise it.",
    );
    ToolResponse::error(message)
}

/// The note above files.
pub open spec fn glob_note(metric: Seq<char>) -> NoteSpec {
    NoteSpec { subject: "glob"@, metric, facts: Seq::empty() }
}

/// Which files of how many are shown.
pub open spec fn glob_coverage(offset: usize, shown: usize, total: usize) -> Seq<char> {
    let range = CoveredRange {
        first: (offset + 1) as usize,
        last: (offset + shown) as usize,
    };
    "files "@ + range.written() + " of "@ + text::decimal(total as nat)
}

fn glob_metric(offset: usize, shown: usize, total: usize) -> (metric: HeadMetric)
    requires
        1 <= shown,
        offset + shown <= usize::MAX,
    ensures
        metric.written() == glob_coverage(offset, shown, total),
{
    let mut ranges: Vec<CoveredRange> = Vec::new();
    let range = CoveredRange::new(offset + 1, offset + shown);
    ranges.push(range);
    let ghost written = head_note::written_ranges(ranges@);
    let metric = HeadMetric::Coverage { unit: "files", ranges, total: CoverageTotal::Exact(total) };
    proof {
        assert(written =~= seq![range.written()]);
        reveal_with_fuel(text::joined, 2);
        assert(seq![range.written()].drop_last() =~= Seq::<Seq<char>>::empty());
        reveal_strlit("files");
        reveal_strlit(" ");
        reveal_strlit("files ");
        assert("files"@ + " "@ =~= "files "@);
        assert(metric.written() =~= glob_coverage(offset, shown, total));
    }
    metric
}

/// How many lines on what was left out are shown: all where they fit, else what the search settles
/// on.
pub open spec fn skips_shown(
    maximum: nat,
    costs: spec_fn(int) -> nat,
    budget: nat,
) -> Option<usize> {
    if costs(maximum as int) <= budget {
        Some(maximum as usize)
    } else if maximum > 0 {
        page::settled(0, maximum - 1, None, costs, budget)
    } else {
        None
    }
}

/// A body of files with as many lines on what was left out as fit beside it.
pub open spec fn with_skips(
    units: UnitsSpec,
    note: NoteSpec,
    body: Seq<Seq<char>>,
    budget: usize,
    variable: Seq<char>,
    cost: spec_fn(Seq<char>) -> nat,
) -> GlobPage {
    match skips_shown(
        units.details.len(),
        page::page_costs(units, note, body, cost),
        budget as nat,
    ) {
        Some(shown) => GlobPage::Text(units.page(note, body, shown as int)),
        None => GlobPage::Error(too_small(budget, variable)),
    }
}

/// Writes a body of files with as many lines on what was left out as fit beside it.
fn finish_with_skips<F: Fn(&str) -> usize>(
    units: &NoteUnits,
    note: &HeadNote,
    body: &Vec<String>,
    lines: usize,
    budget: usize,
    variable: &str,
    estimate: &F,
) -> (response: ToolResponse)
    requires
        units@.wf(),
        lines <= body@.len(),
        forall|text: &str| #[trigger] call_requires(*estimate, (text,)),
    ensures
        forall|cost: spec_fn(Seq<char>) -> nat| #[trigger]
            paging::estimates(*estimate, cost) ==> responds(
                response,
                with_skips(
                    units@,
                    note@,
                    text::views(body@).take(lines as int),
                    budget,
                    variable@,
                    cost,
                ),
            ),
{
    let ghost shown_lines = text::views(body@).take(lines as int);
    let maximum = units.details.len();
    assert(units@.details.len() == maximum);
    let tokens = |shown: usize| -> (count: usize)
        requires
            shown <= maximum,
        ensures
            exists|page_text: &str| #[trigger]
                call_ensures(estimate, (page_text,), count) && page_text@ == units@.page(
                    note@,
                    text::views(body@).take(lines as int),
                    shown as int,
                ),
        {
            let page = units.write(note, body, lines, shown);
            let page_text = page.as_str();
            let count = estimate(page_text);
            assert(call_ensures(estimate, (page_text,), count));
            count
        };
    let full = tokens(maximum);
    proof {
        assert forall|cost: spec_fn(Seq<char>) -> nat| #[trigger]
            paging::estimates(*estimate, cost) implies full == page::page_costs(
            units@,
            note@,
            shown_lines,
            cost,
        )(maximum as int) by {}
    }
    let shown = if full <= budget {
        Some(maximum)
    } else if maximum > 0 {
        let found = settle(0, maximum - 1, None, budget, &tokens);
        proof {
            assert forall|cost: spec_fn(Seq<char>) -> nat| #[trigger]
                paging::estimates(*estimate, cost) implies found == page::settled(
                0,
                maximum - 1,
                None,
                page::page_costs(units@, note@, shown_lines, cost),
                budget as nat,
            ) by {
                assert(page::counts(tokens, page::page_costs(units@, note@, shown_lines, cost)));
            }
        }
        found
    } else {
        None
    };
    match shown {
        Some(shown) => ToolResponse::text(units.write(note, body, lines, shown)),
        None => budget_too_small(budget, variable),
    }
}

/// The greatest number of lines up to `maximum` that fits; none when not even one does.
pub open spec fn most_lines(costs: spec_fn(int) -> nat, maximum: int, budget: nat) -> int
    decreases maximum,
{
    if maximum <= 0 {
        0
    } else if costs(maximum) <= budget {
        maximum
    } else {
        most_lines(costs, maximum - 1, budget)
    }
}

/// What a page of files costs, by the number of files, without lines on what was left out.
pub open spec fn file_costs(
    units: UnitsSpec,
    lines: Seq<Seq<char>>,
    offset: usize,
    total: usize,
    cost: spec_fn(Seq<char>) -> nat,
) -> spec_fn(int) -> nat {
    |shown: int|
        cost(
            units.page(
                glob_note(glob_coverage(offset, shown as usize, total)),
                lines.take(shown),
                0,
            ),
        )
}

/// How many files a page starts out with.
pub open spec fn page_len(offset: usize, limit: usize, total: nat) -> int {
    if limit < total - offset {
        limit as int
    } else {
        total - offset
    }
}

/// The page of files from an offset on.
pub open spec fn matches_page(
    rendered: Seq<Seq<char>>,
    units: UnitsSpec,
    offset: usize,
    limit: usize,
    budget: usize,
    variable: Seq<char>,
    cost: spec_fn(Seq<char>) -> nat,
) -> GlobPage {
    let total = rendered.len();
    if total == 0 {
        with_skips(
            units,
            glob_note(head_note::counted_spec(0, "file"@, "files"@)),
            Seq::empty(),
            budget,
            variable,
            cost,
        )
    } else if offset >= total {
        with_skips(
            units,
            glob_note(
                text::single_line_spec(
                    "0 files; "@ + text::decimal(total) + " "@ + head_note::noun_spec(
                        total,
                        "file"@,
                        "files"@,
                    ) + " exist"@,
                ),
            ),
            Seq::empty(),
            budget,
            variable,
            cost,
        )
    } else {
        let maximum = page_len(offset, limit, total);
        let lines = rendered.subrange(offset as int, offset + maximum);
        let shown = most_lines(
            file_costs(units, lines, offset, total as usize, cost),
            maximum,
            budget as nat,
        );
        if shown == 0 {
            GlobPage::Error(too_small(budget, variable))
        } else {
            with_skips(
                units,
                glob_note(glob_coverage(offset, shown as usize, total as usize)),
                lines.take(shown),
                budget,
                variable,
                cost,
            )
        }
    }
}

/// What is shown of files in an order.
pub open spec fn rendered_in_order(entries: Seq<MatchSpec>, order: Seq<usize>) -> Seq<Seq<char>> {
    order.map(|i: int, at: usize| entries[at as int].rendered)
}

fn status_response<F: Fn(&str) -> usize>(
    metric: HeadMetric,
    units: &NoteUnits,
    budget: usize,
    variable: &str,
    estimate: &F,
) -> (response: ToolResponse)
    requires
        units@.wf(),
        forall|text: &str| #[trigger] call_requires(*estimate, (text,)),
    ensures
        forall|cost: spec_fn(Seq<char>) -> nat| #[trigger]
            paging::estimates(*estimate, cost) ==> responds(
                response,
                with_skips(
                    units@,
                    glob_note(metric.written()),
                    Seq::empty(),
                    budget,
                    variable@,
                    cost,
                ),
            ),
{
    let note = HeadNote::new("glob".to_owned(), metric);
    let body: Vec<String> = Vec::new();
    assert(text::views(body@).take(0) =~= Seq::<Seq<char>>::empty());
    finish_with_skips(units, &note, &body, 0, budget, variable, estimate)
}

fn copy_rendered(entries: &Vec<MatchEntry>, order: &Vec<usize>, offset: usize, count: usize) -> (
    lines: Vec<String>)
    requires
        offset + count <= order@.len(),
        forall|i: int| 0 <= i < order@.len() ==> (#[trigger] order@[i]) < entries@.len(),
    ensures
        text::views(lines@) == rendered_in_order(entry::match_views(entries@), order@).subrange(
            offset as int,
            offset + count,
        ),
{
    let ghost all = rendered_in_order(entry::match_views(entries@), order@);
    let mut lines: Vec<String> = Vec::new();
    let mut index: usize = 0;
    let total = order.len();
    assert(text::views(lines@) =~= all.subrange(offset as int, offset as int));
    while index < count
        invariant
            index <= count,
            offset + count <= total,
            total == order@.len(),
            forall|i: int| 0 <= i < order@.len() ==> (#[trigger] order@[i]) < entries@.len(),
            all == rendered_in_order(entry::match_views(entries@), order@),
            text::views(lines@) == all.subrange(offset as int, offset + index),
        decreases count - index,
    {
        let at = order[offset + index];
        let line = entries[at].rendered.as_str().to_owned();
        let ghost before = lines@;
        let ghost shown = line@;
        lines.push(line);
        proof {
            assert(text::views(lines@) =~= text::views(before).push(shown));
            assert(text::views(lines@) =~= all.subrange(offset as int, offset + index + 1));
        }
        index += 1;
    }
    lines
}

/// Writes the page of ordered files from an offset on. The body is sized beside the bare number of
/// what was left out, so that files never lose room to lines on what is missing.
pub fn format_matches<F: Fn(&str) -> usize>(
    entries: &Vec<MatchEntry>,
    order: &Vec<usize>,
    units: &NoteUnits,
    offset: usize,
    limit: usize,
    budget: usize,
    variable: &str,
    estimate: &F,
) -> (response: ToolResponse)
    requires
        units@.wf(),
        forall|i: int| 0 <= i < order@.len() ==> (#[trigger] order@[i]) < entries@.len(),
        forall|text: &str| #[trigger] call_requires(*estimate, (text,)),
    ensures
        forall|cost: spec_fn(Seq<char>) -> nat| #[trigger]
            paging::estimates(*estimate, cost) ==> responds(
                response,
                matches_page(
                    rendered_in_order(entry::match_views(entries@), order@),
                    units@,
                    offset,
                    limit,
                    budget,
                    variable@,
                    cost,
                ),
            ),
{
    let ghost rendered = rendered_in_order(entry::match_views(entries@), order@);
    let total = order.len();
    assert(rendered.len() == total);
    if total == 0 {
        return status_response(
            HeadMetric::count(0, "file", "files"),
            units,
            budget,
            variable,
            estimate,
        );
    }
    if offset >= total {
        let mut event = "0 files; ".to_owned();
        event.append(decimal_text(total as u64).as_str());
        event.append(" ");
        event.append(noun(total, "file", "files"));
        event.append(" exist");
        return status_response(HeadMetric::event(event), units, budget, variable, estimate);
    }
    let maximum: usize = if limit < total - offset {
        limit
    } else {
        total - offset
    };
    let lines = copy_rendered(entries, order, offset, maximum);
    let ghost all = text::views(lines@);
    let mut shown: usize = maximum;
    while shown > 0
        invariant
            shown <= maximum,
            offset + maximum <= total,
            all == text::views(lines@),
            lines@.len() == maximum,
            all == rendered.subrange(offset as int, offset + maximum),
            rendered == rendered_in_order(entry::match_views(entries@), order@),
            rendered.len() == total,
            total > 0,
            offset < total,
            maximum == page_len(offset, limit, total as nat),
            units@.wf(),
            forall|text: &str| #[trigger] call_requires(*estimate, (text,)),
            forall|cost: spec_fn(Seq<char>) -> nat| #[trigger]
                paging::estimates(*estimate, cost) ==> most_lines(
                    file_costs(units@, all, offset, total, cost),
                    maximum as int,
                    budget as nat,
                ) == most_lines(
                    file_costs(units@, all, offset, total, cost),
                    shown as int,
                    budget as nat,
                ),
        decreases shown,
    {
        let note = HeadNote::new("glob".to_owned(), glob_metric(offset, shown, total));
        let page = units.write(&note, &lines, shown, 0);
        let page_text = page.as_str();
        let tokens = estimate(page_text);
        proof {
            assert forall|cost: spec_fn(Seq<char>) -> nat| #[trigger]
                paging::estimates(*estimate, cost) implies tokens == file_costs(
                units@,
                all,
                offset,
                total,
                cost,
            )(shown as int) by {
                assert(call_ensures(*estimate, (page_text,), tokens));
            }
        }
        if tokens <= budget {
            return finish_with_skips(units, &note, &lines, shown, budget, variable, estimate);
        }
        shown -= 1;
    }
    budget_too_small(budget, variable)
}

/// The order that a glob asks for.
pub open spec fn requested_sort(request: GlobRequest) -> SortMode {
    match request.sort {
        Some(sort) => sort,
        None => SortMode::Path,
    }
}

/// What a glob asks to be shown of a file.
pub open spec fn requested_output(request: GlobRequest) -> GlobOutputMode {
    match request.output_mode {
        Some(mode) => mode,
        None => GlobOutputMode::Paths,
    }
}

/// What a glob works on: what became of finding the directory, of compiling the patterns and of
/// walking, and the budget of the answer.
#[derive(Debug)]
pub struct GlobInput {
    /// Why there is no directory to search.
    pub root: Result<(), String>,
    /// Why the patterns do not compile.
    pub patterns: Result<(), String>,
    /// The entries of the walk, or why it failed.
    pub walked: Result<Vec<GlobCandidate>, String>,
    pub budget: usize,
    /// The name of the variable that sets the budget.
    pub budget_variable: String,
}

/// The message of the error with which a glob is answered, in the order in which they are found.
pub open spec fn glob_failure(request: GlobRequest, input: GlobInput) -> Option<Seq<char>> {
    match (input.root, input.patterns) {
        (Err(message), _) => Some(message@),
        (Ok(()), Err(error)) => Some(
            "Invalid glob pattern: "@ + error@
                + ". Use forms like \"**/*.rs\" or \"src/**/*.ts\"."@,
        ),
        (Ok(()), Ok(())) => if request.limit matches Some(limit) && !(1 <= limit <= MAX_LIMIT) {
            Some(
                "Invalid limit value: "@ + text::decimal(request.limit->Some_0 as nat)
                    + ". Expected an integer from 1 to 1000."@,
            )
        } else {
            match input.walked {
                Err(message) => Some(message@),
                Ok(candidates) => if entry::matches_of(
                    candidates@,
                    requested_sort(request),
                    requested_output(request),
                ).len() > MAX_RESULTS {
                    Some(
                        "Too many matches: over 100000 files matched. Narrow the pattern or path."@,
                    )
                } else {
                    None
                },
            }
        },
    }
}

/// The page of files that a glob asks for.
pub open spec fn glob_page(
    candidates: Seq<GlobCandidate>,
    order: Seq<usize>,
    units: UnitsSpec,
    request: GlobRequest,
    budget: usize,
    variable: Seq<char>,
    cost: spec_fn(Seq<char>) -> nat,
) -> GlobPage {
    matches_page(
        rendered_in_order(
            entry::matches_of(candidates, requested_sort(request), requested_output(request)),
            order,
        ),
        units,
        match request.offset {
            Some(offset) => offset,
            None => 0,
        },
        match request.limit {
            Some(limit) => limit,
            None => DEFAULT_LIMIT,
        },
        budget,
        variable,
        cost,
    )
}

/// Whether these are positions of the matching files of a walk in the order that a glob asks for.
pub open spec fn ordered_for(
    order: Seq<usize>,
    candidates: Seq<GlobCandidate>,
    request: GlobRequest,
) -> bool {
    ordering::is_order(
        entry_keys(
            requested_sort(request),
            entry::matches_of(candidates, requested_sort(request), requested_output(request)),
        ),
        order,
    )
}

/// Evaluates the entries of a walk, orders the matching files and writes the page that a request
/// asks for. `report` tells what to say of entries that could not be evaluated, `estimate` what a
/// text costs.
pub fn glob_files<W: WorkCheckpoint, R: Fn(&Vec<EntryFailure>) -> NoteUnits, F: Fn(&str) -> usize>(
    request: &GlobRequest,
    input: GlobInput,
    work: &W,
    report: &R,
    estimate: &F,
) -> (response: ToolResponse)
    requires
        forall|failures: &Vec<EntryFailure>| #[trigger] call_requires(*report, (failures,)),
        forall|failures: &Vec<EntryFailure>, units: NoteUnits| #[trigger]
            call_ensures(*report, (failures,), units) ==> units@.wf(),
        forall|text: &str| #[trigger] call_requires(*estimate, (text,)),
    ensures
        ({
            ||| !work.never_stops() && responds(response, GlobPage::Error("Request cancelled."@))
            ||| !work.always_stops() && match glob_failure(*request, input) {
                Some(message) => responds(response, GlobPage::Error(message)),
                None => exists|
                    order: Seq<usize>,
                    failures: &Vec<EntryFailure>,
                    units: NoteUnits,
                | #[trigger]
                    ordered_for(order, input.walked->Ok_0@, *request) && #[trigger] call_ensures(
                        *report,
                        (failures,),
                        units,
                    ) && entry::failure_views(failures@) == entry::failures_of(
                        input.walked->Ok_0@,
                        requested_sort(*request),
                        requested_output(*request),
                    ) && (forall|cost: spec_fn(Seq<char>) -> nat| #[trigger]
                        paging::estimates(*estimate, cost) ==> responds(
                            response,
                            glob_page(
                                input.walked->Ok_0@,
                                order,
                                units@,
                                *request,
                                input.budget,
                                input.budget_variable@,
                                cost,
                            ),
                        )),
            }
        }),
{
    if let Err(_) = work.check_stop() {
        return ToolResponse::error("Request cancelled.".to_owned());
    }
    let GlobInput { root, patterns, walked, budget, budget_variable } = input;
    if let Err(message) = root {
        return ToolResponse::error(message);
    }
    if let Err(error) = patterns {
        return ToolResponse::error(glob_error(error.as_str()));
    }
    let limit = match checked_limit(request.limit) {
        Ok(limit) => limit,
        Err(message) => {
            return ToolResponse::error(message);
        },
    };
    let candidates = match walked {
        Ok(candidates) => candidates,
        Err(message) => {
            return ToolResponse::error(message);
        },
    };
    let sort = match request.sort {
        Some(sort) => sort,
        None => SortMode::Path,
    };
    let output_mode = match request.output_mode {
        Some(mode) => mode,
        None => GlobOutputMode::Paths,
    };
    let matches = match collect_matches(candidates, sort, output_mode, work) {
        Ok(matches) => matches,
        Err(_) => {
            return ToolResponse::error("Request cancelled.".to_owned());
        },
    };
    assert(entry::match_views(matches.entries@).len() == matches.entries@.len());
    if matches.entries.len() > MAX_RESULTS {
        return ToolResponse::error(too_many_matches());
    }
    let order = order_matches(sort, &matches.entries);
    let offset = match request.offset {
        Some(offset) => offset,
        None => 0,
    };
    if let Err(_) = work.check_work(WorkStage::RenderUnit) {
        return ToolResponse::error("Request cancelled.".to_owned());
    }
    let failures = &matches.failures;
    let units = report(failures);
    proof {
        assert(call_ensures(*report, (failures,), units));
        assert(ordered_for(order@, input.walked->Ok_0@, *request));
    }
    format_matches(
        &matches.entries,
        &order,
        &units,
        offset,
        limit,
        budget,
        budget_variable.as_str(),
        estimate,
    )
}

/// A page of files that fits is the greatest: with one more file it would not fit.
pub proof fn page_holds_most_files(costs: spec_fn(int) -> nat, maximum: int, budget: nat)
    requires
        0 <= maximum,
    ensures
        ({
            let shown = most_lines(costs, maximum, budget);
            &&& 0 <= shown <= maximum
            &&& shown > 0 ==> costs(shown) <= budget
            &&& forall|n: int| shown < n <= maximum ==> #[trigger] costs(n) > budget
        }),
    decreases maximum,
{
    if maximum > 0 && costs(maximum) > budget {
        page_holds_most_files(costs, maximum - 1, budget);
    }
}

/// A page of files fits its budget.
pub proof fn listing_fits(
    rendered: Seq<Seq<char>>,
    units: UnitsSpec,
    offset: usize,
    limit: usize,
    budget: usize,
    variable: Seq<char>,
    cost: spec_fn(Seq<char>) -> nat,
)
    requires
        units.details.len() <= usize::MAX,
    ensures
        matches_page(rendered, units, offset, limit, budget, variable, cost) matches GlobPage::Text(
            page,
        ) ==> cost(page) <= budget,
{
    assert forall|note: NoteSpec, body: Seq<Seq<char>>|
        (#[trigger] with_skips(units, note, body, budget, variable, cost)) matches GlobPage::Text(
            page,
        ) implies cost(
        with_skips(units, note, body, budget, variable, cost)->Text_0,
    ) <= budget by {
        let costs = page::page_costs(units, note, body, cost);
        if units.details.len() > 0 {
            page::settled_fits(0, units.details.len() - 1, None, costs, budget as nat);
        }
    }
}

} // verus!
