//! What a page of a search promises, said of files, lines and totals alone.

use crate::grep::capture::{ContentEntry, ContentView};
use crate::grep::content;
use crate::grep::content::ContentOptions;
use crate::grep::laws;
use crate::grep::layout::LineMatchSpan;
use crate::grep::lines;
use crate::grep::lines::{PlanLine, PlanOptions};
use crate::grep::matcher::GrepMatcher;
use crate::grep::outcome::{FailureSpec, OutcomeSpec, SkipSpec};
use crate::grep::plan::{GrepRequest, GrepSearchPlan, OutputMode};
use crate::grep::ranges;
use crate::grep::reduce;
use crate::grep::reduce::{PageRules, ReduceState, ReduceStep};
use crate::grep::render;
use crate::grep::render::{PageFacts, PageSpec};
use crate::grep::run;
use crate::grep::run::{GrepCandidate, GrepInput, GrepRun, SearchEncoding};
use crate::grep::search::FileSpec;
use crate::grep::writing;
use crate::head_note;
use crate::head_note::NoteSpec;
use crate::page;
use crate::page::UnitsSpec;
use crate::text;
use vstd::prelude::*;
use vstd::string::*;
use vstd::utf8::*;

verus! {

/// The results of the candidates in which something was found, in their order.
pub open spec fn hits(
    matcher: GrepMatcher,
    plan: GrepSearchPlan,
    encoding: SearchEncoding,
    candidates: Seq<GrepCandidate>,
) -> Seq<FileSpec>
    decreases candidates.len(),
{
    if candidates.len() == 0 {
        Seq::empty()
    } else {
        let before = hits(matcher, plan, encoding, candidates.drop_last());
        match run::searched(matcher, plan, encoding, candidates.last()) {
            Ok(found) => if found.skip is None && found.result is Some {
                before.push(found.result->Some_0)
            } else {
                before
            },
            Err(_) => before,
        }
    }
}

/// Whether every candidate could be searched, or can be left out.
pub open spec fn all_searched(
    matcher: GrepMatcher,
    rules: PageRules,
    encoding: SearchEncoding,
    candidates: Seq<GrepCandidate>,
) -> bool {
    forall|i: int|
        0 <= i < candidates.len() ==> match run::searched(
            matcher,
            rules.plan,
            encoding,
            #[trigger] candidates[i],
        ) {
            Ok(found) => found.skip is None || !rules.single_file,
            Err(_) => false,
        }
}

proof fn fewer_searched(
    matcher: GrepMatcher,
    rules: PageRules,
    encoding: SearchEncoding,
    candidates: Seq<GrepCandidate>,
)
    requires
        candidates.len() > 0,
        all_searched(matcher, rules, encoding, candidates),
    ensures
        all_searched(matcher, rules, encoding, candidates.drop_last()),
        match run::searched(matcher, rules.plan, encoding, candidates.last()) {
            Ok(found) => found.skip is None || !rules.single_file,
            Err(_) => false,
        },
{
    let rest = candidates.drop_last();
    assert forall|i: int| 0 <= i < rest.len() implies match run::searched(
        matcher,
        rules.plan,
        encoding,
        #[trigger] rest[i],
    ) {
        Ok(found) => found.skip is None || !rules.single_file,
        Err(_) => false,
    } by {
        assert(rest[i] == candidates[i]);
    }
    assert(candidates[candidates.len() - 1] == candidates.last());
}

/// How many occurrences files have in all.
pub open spec fn total_of(files: Seq<FileSpec>) -> nat
    decreases files.len(),
{
    if files.len() == 0 {
        0
    } else {
        total_of(files.drop_last()) + files.last().total() as nat
    }
}

proof fn totals_add_up(
    matcher: GrepMatcher,
    rules: PageRules,
    encoding: SearchEncoding,
    state: ReduceState,
    candidates: Seq<GrepCandidate>,
)
    requires
        rules.mode == OutputMode::Summary,
        all_searched(matcher, rules, encoding, candidates),
        state.occurrence_total == 0,
        state.file_total == 0,
        state.failure is None,
        total_of(hits(matcher, rules.plan, encoding, candidates)) <= usize::MAX,
        hits(matcher, rules.plan, encoding, candidates).len() <= usize::MAX,
    ensures
        ({
            let (after, goes_on) = run::candidate_steps(
                matcher,
                rules,
                encoding,
                state,
                candidates,
            );
            let found = hits(matcher, rules.plan, encoding, candidates);
            &&& goes_on
            &&& after.failure is None
            &&& after.file_total == found.len()
            &&& after.occurrence_total == total_of(found)
        }),
    decreases candidates.len(),
{
    if candidates.len() > 0 {
        let rest = candidates.drop_last();
        fewer_searched(matcher, rules, encoding, candidates);
        let before = hits(matcher, rules.plan, encoding, rest);
        let all = hits(matcher, rules.plan, encoding, candidates);
        if all.len() > before.len() {
            assert(all.drop_last() =~= before);
        }
        totals_add_up(matcher, rules, encoding, state, rest);
    }
}

/// A summary has the number of files with a match and the number of occurrences in all of them.
pub proof fn a_summary_counts_everything(run: GrepRun, request: GrepRequest, input: GrepInput)
    requires
        run::ran(run, request, input),
        request.output_mode == Some(OutputMode::Summary),
        all_searched(run.matcher, run.reducer.rules, named(request), input.candidates@),
        total_of(hits(run.matcher, run.reducer.rules.plan, named(request), input.candidates@))
            <= usize::MAX,
        hits(run.matcher, run.reducer.rules.plan, named(request), input.candidates@).len()
            <= usize::MAX,
    ensures
        ({
            let found = hits(
                run.matcher,
                run.reducer.rules.plan,
                named(request),
                input.candidates@,
            );
            &&& run.reducer@.failure is None
            &&& run.reducer@.file_total == found.len()
            &&& run.reducer@.occurrence_total == total_of(found)
        }),
{
    totals_add_up(
        run.matcher,
        run.reducer.rules,
        named(request),
        reduce::unfolded(
            crate::grep::plan::or_else(request.offset, 0),
            reduce::skip_views(input.skipped_files.entries@),
        ),
        input.candidates@,
    );
}

/// The encodings that a request names.
pub open spec fn named(request: GrepRequest) -> SearchEncoding {
    SearchEncoding { explicit: request.encoding, fallback: request.fallback_encoding }
}

/// Whether two folds have the same entries and go on from the same place.
spec fn alike(left: ReduceState, right: ReduceState) -> bool {
    &&& left.results == right.results
    &&& left.collected == right.collected
    &&& left.skip_remaining == right.skip_remaining
    &&& left.total_seen == right.total_seen
    &&& left.scan_complete == right.scan_complete
}

proof fn listing_is_the_hits(
    matcher: GrepMatcher,
    rules: PageRules,
    encoding: SearchEncoding,
    state: ReduceState,
    candidates: Seq<GrepCandidate>,
)
    requires
        rules.mode == OutputMode::FilesWithMatches || rules.mode == OutputMode::Count,
        all_searched(matcher, rules, encoding, candidates),
        state.collected < rules.probe_limit,
    ensures
        ({
            let (after, goes_on) = run::candidate_steps(
                matcher,
                rules,
                encoding,
                state,
                candidates,
            );
            let (listed, more) = reduce::listed_all(
                rules,
                state,
                hits(matcher, rules.plan, encoding, candidates),
            );
            &&& alike(after, listed)
            &&& goes_on == more
            &&& goes_on ==> after.collected < rules.probe_limit
            &&& after.failure == state.failure
        }),
    decreases candidates.len(),
{
    if candidates.len() > 0 {
        let rest = candidates.drop_last();
        fewer_searched(matcher, rules, encoding, candidates);
        listing_is_the_hits(matcher, rules, encoding, state, rest);
        let before = hits(matcher, rules.plan, encoding, rest);
        let all = hits(matcher, rules.plan, encoding, candidates);
        if all.len() > before.len() {
            assert(all.drop_last() =~= before);
        }
    }
}

/// A listing of files, or of their counts, has the files with a match from the offset on, in the
/// order of the candidates, one more than can be shown at most.
pub proof fn a_listing_has_the_files_from_the_offset_on(
    run: GrepRun,
    request: GrepRequest,
    input: GrepInput,
)
    requires
        run::ran(run, request, input),
        request.output_mode is None || request.output_mode == Some(OutputMode::FilesWithMatches)
            || request.output_mode == Some(OutputMode::Count),
        all_searched(run.matcher, run.reducer.rules, named(request), input.candidates@),
        run.offset + run.head_limit < usize::MAX,
    ensures
        ({
            let found = hits(
                run.matcher,
                run.reducer.rules.plan,
                named(request),
                input.candidates@,
            );
            let from = if run.offset < found.len() {
                run.offset as int
            } else {
                found.len() as int
            };
            let to = if run.offset + run.head_limit + 1 < found.len() {
                run.offset + run.head_limit + 1
            } else {
                found.len() as int
            };
            &&& run.reducer@.results == found.subrange(from, to)
            &&& run.reducer@.failure is None
            &&& run.reducer@.scan_complete == (found.len() < run.offset + run.head_limit + 1)
        }),
{
    let skips = reduce::skip_views(input.skipped_files.entries@);
    let rules = run.reducer.rules;
    listing_is_the_hits(
        run.matcher,
        rules,
        named(request),
        reduce::unfolded(run.offset, skips),
        input.candidates@,
    );
    reduce::file_list_is_a_window(
        rules,
        run.offset,
        skips,
        hits(run.matcher, rules.plan, named(request), input.candidates@),
    );
}

proof fn content_is_the_hits(
    matcher: GrepMatcher,
    rules: PageRules,
    encoding: SearchEncoding,
    state: ReduceState,
    candidates: Seq<GrepCandidate>,
)
    requires
        rules.mode == OutputMode::Content,
        all_searched(matcher, rules, encoding, candidates),
        state.collected < rules.probe_limit,
    ensures
        ({
            let (after, goes_on) = run::candidate_steps(
                matcher,
                rules,
                encoding,
                state,
                candidates,
            );
            let (paged, more) = reduce::paged(
                rules,
                state,
                hits(matcher, rules.plan, encoding, candidates),
            );
            &&& alike(after, paged)
            &&& goes_on == more
            &&& goes_on ==> after.collected < rules.probe_limit
            &&& after.failure == state.failure
        }),
    decreases candidates.len(),
{
    if candidates.len() > 0 {
        let rest = candidates.drop_last();
        fewer_searched(matcher, rules, encoding, candidates);
        content_is_the_hits(matcher, rules, encoding, state, rest);
        let before = hits(matcher, rules.plan, encoding, rest);
        let all = hits(matcher, rules.plan, encoding, candidates);
        if all.len() > before.len() {
            assert(all.drop_last() =~= before);
        }
    }
}

/// A page of matches has the entries from the offset on, whatever files they are in, in the order of
/// the candidates, one more than can be shown at most.
pub proof fn a_page_has_the_matches_from_the_offset_on(
    run: GrepRun,
    request: GrepRequest,
    input: GrepInput,
)
    requires
        run::ran(run, request, input),
        request.output_mode == Some(OutputMode::Content),
        all_searched(run.matcher, run.reducer.rules, named(request), input.candidates@),
        run.offset + run.head_limit < usize::MAX,
        forall|i: int|
            0 <= i < hits(
                run.matcher,
                run.reducer.rules.plan,
                named(request),
                input.candidates@,
            ).len() ==> {
                let file = #[trigger] hits(
                    run.matcher,
                    run.reducer.rules.plan,
                    named(request),
                    input.candidates@,
                )[i];
                file.payload is Content && file.entry_total() <= usize::MAX
            },
    ensures
        ({
            let found = reduce::all_entries(
                hits(run.matcher, run.reducer.rules.plan, named(request), input.candidates@),
            );
            let from = if run.offset < found.len() {
                run.offset as int
            } else {
                found.len() as int
            };
            let to = if run.offset + run.head_limit + 1 < found.len() {
                run.offset + run.head_limit + 1
            } else {
                found.len() as int
            };
            &&& reduce::all_entries(run.reducer@.results) == found.subrange(from, to)
            &&& run.reducer@.failure is None
            &&& run.reducer@.scan_complete == (found.len() < run.offset + run.head_limit + 1)
        }),
{
    let skips = reduce::skip_views(input.skipped_files.entries@);
    let rules = run.reducer.rules;
    content_is_the_hits(
        run.matcher,
        rules,
        named(request),
        reduce::unfolded(run.offset, skips),
        input.candidates@,
    );
    reduce::page_is_a_window(
        rules,
        run.offset,
        skips,
        hits(run.matcher, rules.plan, named(request), input.candidates@),
    );
}

/// A listing of paths has a line for each file with its path; a listing of counts has the path, a
/// colon and the number of occurrences.
pub proof fn listings_name_the_files(files: Seq<FileSpec>, i: int)
    requires
        0 <= i < files.len(),
    ensures
        render::path_lines(files).len() == files.len(),
        render::path_lines(files)[i] == files[i].path,
        render::count_lines(files).len() == files.len(),
        render::count_lines(files)[i] == files[i].path.push(':') + text::decimal(
            files[i].total() as nat,
        ),
{
    reveal_strlit(":");
    assert(":"@ =~= seq![':']);
    assert(files[i].path.push(':') =~= files[i].path + ":"@);
}

/// A line of up to 500 bytes is shown whole: the characters that the searched text has in its range,
/// behind its number and a colon where it matches, and behind its number and a hyphen where it is
/// context; without line numbers there is nothing before it.
pub proof fn short_lines_are_shown_whole(
    files: Seq<FileSpec>,
    file: usize,
    line: u64,
    spans: Seq<LineMatchSpan>,
    numbers: bool,
    window: usize,
)
    requires
        lines::content_of(files[file as int]).lines.contains_key(line),
        ({
            let (start, end) = lines::content_of(files[file as int]).lines[line];
            let text = lines::content_of(files[file as int]).text;
            &&& start <= end <= text.len()
            &&& end - start <= 500
            &&& valid_utf8(text.subrange(start as int, end as int))
        }),
    ensures
        ({
            let (start, end) = lines::content_of(files[file as int]).lines[line];
            let here = decode_utf8(
                lines::content_of(files[file as int]).text.subrange(start as int, end as int),
            );
            let number = text::decimal(line as nat);
            let matching = content::written(
                files,
                PlanLine::Match { file_index: file, line_number: line, spans },
                numbers,
                window,
            );
            let context = content::written(
                files,
                PlanLine::Context { file_index: file, line_number: line },
                numbers,
                window,
            );
            &&& matching is Ok
            &&& context is Ok
            &&& numbers ==> matching->Ok_0 == number.push(':') + here
            &&& numbers ==> context->Ok_0 == number.push('-') + here
            &&& !numbers ==> matching->Ok_0 == here
            &&& !numbers ==> context->Ok_0 == here
        }),
{
    let (start, end) = lines::content_of(files[file as int]).lines[line];
    let here = decode_utf8(
        lines::content_of(files[file as int]).text.subrange(start as int, end as int),
    );
    reveal_strlit(":");
    reveal_strlit("-");
    let number = text::decimal(line as nat);
    assert(number + ":"@ =~= number.push(':'));
    assert(number + "-"@ =~= number.push('-'));
    assert(Seq::<char>::empty() + here =~= here);
}

/// The other lines of a page: a file is headed by its path, blocks of lines are parted by two
/// hyphens, and files by an empty line.
pub proof fn files_are_headed_by_their_paths(
    files: Seq<FileSpec>,
    file: usize,
    numbers: bool,
    window: usize,
)
    ensures
        content::written(files, PlanLine::Header(file), numbers, window) == Ok::<
            Seq<char>,
            content::RenderFault,
        >(files[file as int].path),
        content::written(files, PlanLine::Separator, numbers, window) == Ok::<
            Seq<char>,
            content::RenderFault,
        >(seq!['-', '-']),
        content::written(files, PlanLine::Empty, numbers, window) == Ok::<
            Seq<char>,
            content::RenderFault,
        >(Seq::empty()),
{
    reveal_strlit("--");
    reveal_strlit("");
    assert("--"@ =~= seq!['-', '-']);
    assert(""@ =~= Seq::<char>::empty());
}

/// Of a long line a window is shown that holds the begin of its first match, is no wider than asked
/// for unless all matches with their surroundings fit, and lies in the line.
pub proof fn a_long_line_shows_its_first_match(
    first: (usize, usize),
    end: usize,
    len: usize,
    window: usize,
)
    requires
        first.0 <= first.1 <= end <= len,
        1 <= window,
        window + 200 < usize::MAX,
        len < usize::MAX - 200,
    ensures
        ({
            let shown = writing::shown_window(first, end, len, window);
            &&& shown.0 <= shown.1 <= len
            &&& shown.1 - shown.0 <= window
            &&& shown.0 <= first.0 <= shown.1
            &&& first.0 < len ==> first.0 < shown.1
            &&& end + 100 - first.0 + 100 <= window ==> {
                &&& shown.0 == if first.0 < 100 {
                    0
                } else {
                    first.0 - 100
                }
                &&& shown.1 == if end + 100 < len {
                    end + 100
                } else {
                    len as int
                }
            }
            &&& first.1 - first.0 + 200 <= window ==> first.1 <= shown.1
        }),
{
}

/// The entries of groups, each with its file.
pub open spec fn ungrouped(groups: Seq<(usize, Seq<ContentEntry>)>) -> Seq<(usize, ContentEntry)>
    decreases groups.len(),
{
    if groups.len() == 0 {
        Seq::empty()
    } else {
        ungrouped(groups.drop_last()) + groups.last().1.map(
            |i: int, entry: ContentEntry| (groups.last().0, entry),
        )
    }
}

/// Grouping entries by file loses none, keeps their order, and leaves no two groups of one file
/// side by side.
pub proof fn grouping_keeps_every_entry(selected: Seq<(usize, ContentEntry)>)
    ensures
        ungrouped(lines::by_file(selected)) == selected,
        forall|i: int|
            0 < i < lines::by_file(selected).len() ==> (#[trigger] lines::by_file(selected)[i]).0
                != lines::by_file(selected)[i - 1].0,
        forall|i: int|
            0 <= i < lines::by_file(selected).len() ==> (#[trigger] lines::by_file(
                selected,
            )[i]).1.len() > 0,
        selected.len() > 0 ==> lines::by_file(selected).len() > 0 && lines::by_file(
            selected,
        ).last().0 == selected.last().0,
    decreases selected.len(),
{
    if selected.len() == 0 {
        assert(ungrouped(lines::by_file(selected)) =~= selected);
    } else {
        let rest = selected.drop_last();
        grouping_keeps_every_entry(rest);
        let before = lines::by_file(rest);
        let groups = lines::by_file(selected);
        let (file, entry) = selected.last();
        if before.len() > 0 && before.last().0 == file {
            assert(groups.drop_last() =~= before.drop_last());
            let last = before.last().1;
            assert(groups.last().1.map(|i: int, entry: ContentEntry| (groups.last().0, entry))
                =~= last.map(|i: int, entry: ContentEntry| (before.last().0, entry)).push(
                (file, entry),
            ));
        } else {
            assert(groups.drop_last() =~= before);
            assert(groups.last().1.map(|i: int, entry: ContentEntry| (groups.last().0, entry))
                =~= seq![(file, entry)]);
        }
        assert(ungrouped(groups) =~= ungrouped(before).push((file, entry)));
        assert(rest.push(selected.last()) =~= selected);
        assert forall|i: int| 0 < i < groups.len() implies (#[trigger] groups[i]).0 != groups[i
            - 1].0 by {
            if i < before.len() {
                assert(before[i].0 != before[i - 1].0);
            }
        }
        assert forall|i: int| 0 <= i < groups.len() implies (#[trigger] groups[i]).1.len() > 0 by {
            if i < before.len() {
                assert(before[i].1.len() > 0);
            }
        }
    }
}

/// A page of lines that fits as a whole shows all of them, below a note that tells which of how many
/// they are.
pub proof fn a_listing_that_fits_is_shown_whole(
    page: PageFacts,
    all: Seq<Seq<char>>,
    unit: Seq<char>,
    cost: spec_fn(Seq<char>) -> nat,
)
    requires
        0 < all.len() <= usize::MAX,
        page.units.details.len() <= usize::MAX,
        page.offset + all.len() < usize::MAX,
        page.total_entries_seen <= page.offset + all.len(),
        cost(page.units.page(whole_note(page, all.len(), unit), all, 0)) <= page.budget,
        cost(
            page.units.page(
                whole_note(page, all.len(), unit),
                all,
                page.units.details.len() as int,
            ),
        ) <= page.budget,
    ensures
        render::line_page(page, all, unit, cost) == PageSpec::Text(
            page.units.page(
                whole_note(page, all.len(), unit),
                all,
                page.units.details.len() as int,
            ),
        ),
{
    let shown = all.len() as usize;
    assert(all.take(shown as int) =~= all);
    let note = page.note(shown, unit);
    assert(note == whole_note(page, all.len(), unit)) by {
        reveal_strlit(" ");
        assert(" "@ =~= seq![' ']);
        assert(unit + " "@ =~= unit.push(' '));
    }
    assert(render::line_costs(page, all, unit, cost)(shown as int) <= page.budget);
    assert(page::page_costs(page.units, note, all, cost)(page.units.details.len() as int)
        <= page.budget);
}

/// The note above so many entries from the offset of a page on, when no more were seen: their
/// numbers, and how many there are, or at least are.
pub open spec fn whole_note(page: PageFacts, shown: nat, unit: Seq<char>) -> NoteSpec {
    let first = text::decimal((page.offset + 1) as nat);
    let last = text::decimal((page.offset + shown) as nat);
    let numbers = if shown == 1 {
        first
    } else {
        first + "-"@ + last
    };
    NoteSpec {
        subject: "grep "@ + render::debug_quoted(page.pattern),
        metric: unit.push(' ') + numbers + if page.scan_complete {
            " of "@ + last
        } else {
            " of at least "@ + text::decimal((page.offset + shown + 1) as nat)
        },
        facts: Seq::empty(),
    }
}

/// A page of matches that fits with all its context shows all of it, and of long lines up to 2000
/// characters around the matches.
pub proof fn a_page_of_matches_that_fits_is_shown_whole(
    page: PageFacts,
    files: Seq<FileSpec>,
    selected: Seq<(usize, ContentEntry)>,
    options: ContentOptions,
    cost: spec_fn(Seq<char>) -> nat,
    shown: usize,
)
    requires
        shown > 0,
        shown == selected.len() || shown < selected.len() && shown == page.head_limit,
        page.head_limit == 0 || shown <= page.head_limit,
        page.units.details.len() <= usize::MAX,
        whole_lines(page, files, selected, options, shown) matches Ok(body) && {
            &&& cost(page.units.page(page.note(shown, "matches"@), body, 0)) <= page.budget
            &&& cost(
                page.units.page(
                    page.note(shown, "matches"@),
                    body,
                    page.units.details.len() as int,
                ),
            ) <= page.budget
        },
    ensures
        content::content_page(page, files, selected, options, cost) == PageSpec::Text(
            page.units.page(
                page.note(shown, "matches"@),
                whole_lines(page, files, selected, options, shown)->Ok_0,
                page.units.details.len() as int,
            ),
        ),
{
    reveal(content::degraded);
    reveal(content::attempted);
    let body = whole_lines(page, files, selected, options, shown)->Ok_0;
    let form = (shown, content::depth_of(options), writing::MAX_MATCH_CHARS);
    assert(content::form_lines(page, files, selected, options, form) == whole_lines(
        page,
        files,
        selected,
        options,
        shown,
    ));
    assert(render::initial_shown(page.head_limit, selected.len()) == shown);
    assert(page::page_costs(page.units, page.note(shown, "matches"@), body, cost)(
        page.units.details.len() as int,
    ) <= page.budget);
}

/// The lines of the first entries with all the context that is asked for.
pub open spec fn whole_lines(
    page: PageFacts,
    files: Seq<FileSpec>,
    selected: Seq<(usize, ContentEntry)>,
    options: ContentOptions,
    shown: usize,
) -> Result<Seq<Seq<char>>, content::RenderFault> {
    content::written_all(
        files,
        lines::content_plan(
            files,
            selected.take(shown as int),
            PlanOptions {
                before: options.context.0,
                after: options.context.1,
                only_matching: options.only_matching,
                single_file: page.single_file_target,
            },
        ),
        options.numbers,
        2000,
    )
}

/// The number that a line of a page has in its file.
pub open spec fn number_of(line: PlanLine) -> Option<u64> {
    match line {
        PlanLine::Context { line_number, .. } => Some(line_number),
        PlanLine::Match { line_number, .. } => Some(line_number),
        _ => None,
    }
}

/// Whether the numbers of lines rise, so that no line comes twice.
pub open spec fn numbers_rise(plan: Seq<PlanLine>) -> bool {
    forall|i: int, j: int|
        #![trigger plan[i], plan[j]]
        0 <= i < j < plan.len() && number_of(plan[i]) is Some && number_of(plan[j]) is Some
            ==> number_of(plan[i])->Some_0 < number_of(plan[j])->Some_0
}

/// Whether all numbers of lines lie between two numbers.
spec fn numbers_between(plan: Seq<PlanLine>, low: int, high: int) -> bool {
    forall|i: int|
        0 <= i < plan.len() && number_of(#[trigger] plan[i]) is Some ==> low <= number_of(
            plan[i],
        )->Some_0 <= high
}

proof fn rising_parts(left: Seq<PlanLine>, right: Seq<PlanLine>, low: int, middle: int, high: int)
    requires
        numbers_rise(left),
        numbers_rise(right),
        numbers_between(left, low, middle - 1),
        numbers_between(right, middle, high),
        low <= middle <= high + 1,
    ensures
        numbers_rise(left + right),
        numbers_between(left + right, low, high),
{
    let all = left + right;
    assert forall|i: int| 0 <= i < all.len() implies all[i] == if i < left.len() {
        left[i]
    } else {
        right[i - left.len()]
    } by {}
    assert forall|i: int, j: int|
        #![trigger all[i], all[j]]
        0 <= i < j < all.len() && number_of(all[i]) is Some && number_of(
            all[j],
        ) is Some implies number_of(all[i])->Some_0 < number_of(all[j])->Some_0 by {
        if j < left.len() {
            assert(all[i] == left[i] && all[j] == left[j]);
        } else if i >= left.len() {
            assert(all[i] == right[i - left.len()] && all[j] == right[j - left.len()]);
        } else {
            assert(all[i] == left[i] && all[j] == right[j - left.len()]);
        }
    }
}

proof fn block_rises(
    file: usize,
    kept: ContentView,
    entries: Seq<ContentEntry>,
    start: int,
    end: int,
)
    requires
        0 <= start <= end + 1,
        end <= u64::MAX,
    ensures
        ({
            let block = lines::block_lines(
                lines::matching_line(file, kept, entries),
                start,
                end,
            );
            numbers_rise(block) && numbers_between(block, start, end)
        }),
    decreases end - start + 1,
{
    let shows = lines::matching_line(file, kept, entries);
    if end >= start {
        block_rises(file, kept, entries, start, end - 1);
        let last = shows(end as u64);
        assert(last.len() <= 1);
        rising_parts(lines::block_lines(shows, start, end - 1), last, start, end, end);
    }
}

proof fn blocks_rise(
    file: usize,
    kept: ContentView,
    entries: Seq<ContentEntry>,
    parts: Seq<(u64, u64)>,
)
    requires
        forall|i: int| 0 <= i < parts.len() ==> (#[trigger] parts[i]).0 <= parts[i].1,
        forall|i: int, j: int|
            0 <= i < j < parts.len() ==> (#[trigger] parts[i]).1 < (#[trigger] parts[j]).0,
    ensures
        ({
            let plan = lines::blocks(lines::matching_line(file, kept, entries), parts);
            &&& numbers_rise(plan)
            &&& parts.len() == 0 ==> plan.len() == 0
            &&& parts.len() > 0 ==> numbers_between(plan, 0, parts.last().1 as int)
        }),
    decreases parts.len(),
{
    let shows = lines::matching_line(file, kept, entries);
    if parts.len() > 0 {
        let rest = parts.drop_last();
        let (start, end) = parts.last();
        assert(parts[parts.len() - 1] == (start, end));
        assert forall|i: int| 0 <= i < rest.len() implies (#[trigger] rest[i]).0 <= rest[i].1 by {
            assert(rest[i] == parts[i]);
        }
        assert forall|i: int, j: int| 0 <= i < j < rest.len() implies (#[trigger] rest[i]).1 < (
        #[trigger] rest[j]).0 by {
            assert(rest[i] == parts[i] && rest[j] == parts[j]);
        }
        blocks_rise(file, kept, entries, rest);
        block_rises(file, kept, entries, start as int, end as int);
        let before = lines::blocks(shows, rest);
        let block = lines::block_lines(shows, start as int, end as int);
        if rest.len() > 0 {
            assert(rest.last() == parts[parts.len() - 2]);
            assert(parts[parts.len() - 2].1 < parts[parts.len() - 1].0);
            let mark = seq![PlanLine::Separator];
            assert(before.push(PlanLine::Separator) =~= before + mark);
            rising_parts(before, mark, 0, start as int, start - 1);
            rising_parts(before + mark, block, 0, start as int, end as int);
        } else {
            assert(before =~= Seq::<PlanLine>::empty());
            rising_parts(before, block, 0, start as int, end as int);
        }
    }
}

/// The lines of a file stand in the order of the file, and none stands twice.
pub proof fn lines_of_a_file_stand_in_order(
    file: usize,
    kept: ContentView,
    entries: Seq<ContentEntry>,
    before: usize,
    after: usize,
)
    requires
        forall|i: int|
            0 <= i < entries.len() ==> {
                let (first, last) = laws::lines_of_entry(kept, #[trigger] entries[i]);
                1 <= first <= last && first <= kept.total_lines
            },
    ensures
        numbers_rise(lines::matching_group(file, kept, entries, before, after)),
{
    let covered = lines::entry_ranges(kept, entries);
    let around = lines::context_ranges(kept, covered, before, after);
    assert forall|i: int| 0 <= i < around.len() implies (#[trigger] around[i]).0 <= around[i].1 by {
        assert(covered[i] == laws::lines_of_entry(kept, entries[i]));
    }
    ranges::merged_ranges_are_apart(around);
    let parts = ranges::merged(around);
    assert forall|i: int, j: int| 0 <= i < j < parts.len() implies (#[trigger] parts[i]).1 < (
    #[trigger] parts[j]).0 by {}
    blocks_rise(file, kept, entries, parts);
}

/// Each file of a page has its lines below its path, with an empty line between files; where only
/// one file is searched it has its lines alone.
pub proof fn each_file_has_its_lines_below_its_path(
    files: Seq<FileSpec>,
    groups: Seq<(usize, Seq<ContentEntry>)>,
    group: (usize, Seq<ContentEntry>),
    options: PlanOptions,
)
    ensures
        ({
            let before = lines::file_groups(files, groups, options);
            let own = lines::file_group(files, group, options);
            lines::file_groups(files, groups.push(group), options) == if options.single_file {
                before + own
            } else if groups.len() == 0 {
                seq![PlanLine::Header(group.0)] + own
            } else {
                before + seq![PlanLine::Empty, PlanLine::Header(group.0)] + own
            }
        }),
{
    let before = lines::file_groups(files, groups, options);
    let own = lines::file_group(files, group, options);
    let all = groups.push(group);
    assert(all.drop_last() =~= groups);
    assert(all.last() == group);
    let result = lines::file_groups(files, all, options);
    if options.single_file {
        assert(result =~= before + own);
    } else if groups.len() == 0 {
        assert(before =~= Seq::<PlanLine>::empty());
        assert(result =~= seq![PlanLine::Header(group.0)] + own);
    } else {
        assert(result =~= before + seq![PlanLine::Empty, PlanLine::Header(group.0)] + own);
    }
}

/// In a search of many files, one that is left out or that alone is at fault is noted with its reason
/// and the search goes on with the same results; where it is the only file, its message is the
/// answer.
pub proof fn one_bad_file_ends_no_search(
    state: ReduceState,
    rules: PageRules,
    path: Seq<char>,
    skip: SkipSpec,
    found: OutcomeSpec,
    exact: bool,
)
    requires
        found.skip == Some(skip),
    ensures
        ({
            let (after, step) = state.folded(rules, path, Ok(found), exact);
            let (failed, next) = state.folded(
                rules,
                path,
                Err(FailureSpec::Candidate(skip)),
                exact,
            );
            &&& after == failed && step == next
            &&& after.results == state.results
            &&& after.collected == state.collected
            &&& after.skip_remaining == state.skip_remaining
            &&& rules.single_file ==> {
                &&& after.failure == Some(skip.message(path))
                &&& step is Break
            }
            &&& !rules.single_file ==> {
                &&& after.failure == state.failure
                &&& after.skips == state.skips.push((path, skip.reason()))
                &&& step is Continue
            }
        }),
{
}

/// A failure that is not of one file alone ends the search with its message.
pub proof fn a_fatal_failure_ends_the_search(
    state: ReduceState,
    rules: PageRules,
    path: Seq<char>,
    message: Seq<char>,
    exact: bool,
)
    ensures
        ({
            let (after, step) = state.folded(
                rules,
                path,
                Err(FailureSpec::Fatal(message)),
                exact,
            );
            &&& after.failure == Some(message)
            &&& step is Break
        }),
        ({
            let (after, step) = state.folded(rules, path, Err(FailureSpec::Cancelled), exact);
            &&& after.failure == Some("Request cancelled."@)
            &&& step is Break
        }),
{
}

/// Content that does not fit is asked for again in just the window that is still wanted: behind the
/// entries still to be left out, and no more than are still needed.
pub proof fn too_much_content_is_asked_for_again(
    state: ReduceState,
    rules: PageRules,
    path: Seq<char>,
)
    requires
        rules.mode == OutputMode::Content,
        rules.plan.captured() is Some,
        state.collected <= rules.probe_limit,
    ensures
        ({
            let (after, step) = state.folded(
                rules,
                path,
                Err(FailureSpec::CaptureOverflow),
                false,
            );
            &&& after == state
            &&& step matches ReduceStep::Retry(plan)
            &&& plan.captured() matches Some(asked)
            &&& asked.skip_entries == state.skip_remaining
            &&& asked.max_selected_entries == Some((rules.probe_limit - state.collected) as usize)
            &&& plan.before() == rules.plan.before()
            &&& plan.after() == rules.plan.after()
            &&& plan is ContentOccurrence <==> rules.plan is ContentOccurrence
            &&& asked.multiline == rules.plan.captured()->Some_0.multiline
            &&& asked.capture_match_text == rules.plan.captured()->Some_0.capture_match_text
        }),
{
}

/// A matched text alone is the text between the ends of the match, with its line breaks spelled out,
/// behind the number of the line that it begins in and a colon; one that is longer than the window
/// is cut there, with a note of its length.
pub proof fn matched_texts_are_shown_alone(
    files: Seq<FileSpec>,
    file: usize,
    start_line: u64,
    index: usize,
    line: u64,
    numbers: bool,
    window: usize,
)
    requires
        window > 0,
        lines::content_of(files[file as int]).occurrences.contains_key(start_line),
        index < lines::content_of(files[file as int]).occurrences[start_line].len(),
        ({
            let kept = lines::content_of(files[file as int]);
            &&& kept.occurrences[start_line][index as int].matched_text matches Some((start, end))
            &&& start <= end <= kept.text.len()
            &&& valid_utf8(kept.text.subrange(start as int, end as int))
        }),
    ensures
        ({
            let kept = lines::content_of(files[file as int]);
            let (start, end) = kept.occurrences[start_line][index as int].matched_text->Some_0;
            let matched = decode_utf8(kept.text.subrange(start as int, end as int));
            let written = content::written(
                files,
                PlanLine::OnlyMatch {
                    file_index: file,
                    start_line,
                    occurrence_index: index,
                    output_line: line,
                },
                numbers,
                window,
            );
            let before = if numbers {
                text::decimal(line as nat).push(':')
            } else {
                Seq::empty()
            };
            &&& written matches Ok(shown)
            &&& matched.len() <= window ==> shown == before + text::escaped_breaks(matched)
            &&& matched.len() > window ==> shown == before + text::escaped_breaks(
                matched.take(window as int),
            ) + ("... [match truncated: "@ + text::decimal(matched.len()) + " chars total]"@)
        }),
{
    reveal_strlit(":");
    let number = text::decimal(line as nat);
    assert(number + ":"@ =~= number.push(':'));
}

/// Of a line of more than 500 bytes, a context line tells only the length, and a matching line shows
/// the window around its match, with an ellipsis where something is left out before it.
pub proof fn long_lines_show_a_window(
    prefix: Seq<char>,
    bytes: usize,
    chars: Seq<char>,
    span: LineMatchSpan,
    window: usize,
)
    requires
        bytes > 500,
        chars.len() <= bytes,
        bytes < usize::MAX - 200,
        1 <= window < usize::MAX - 200,
        span.match_char_start + span.match_char_len <= chars.len(),
    ensures
        ({
            let start = span.match_char_start;
            let end = (span.match_char_start + span.match_char_len) as usize;
            let shown = writing::shown_window(
                (start, end),
                end,
                chars.len() as usize,
                window,
            );
            let head = prefix + (if shown.0 > 0 {
                "…"@
            } else {
                ""@
            }) + chars.subrange(shown.0 as int, shown.1 as int);
            &&& head.is_prefix_of(writing::match_line(prefix, bytes, chars, seq![span], window))
            &&& writing::context_line(prefix, bytes, chars) == prefix + "[long line omitted: "@
                + text::decimal(chars.len()) + " chars]"@
        }),
{
    let start = span.match_char_start;
    let end = (span.match_char_start + span.match_char_len) as usize;
    let len = chars.len() as usize;
    let parts = writing::clipped_spans(seq![span], len);
    assert(parts =~= seq![(start, end)]);
    let shown = writing::shown_window((start, end), end, len, window);
    let head = prefix + (if shown.0 > 0 {
        "…"@
    } else {
        ""@
    }) + chars.subrange(shown.0 as int, shown.1 as int);
    let line = writing::match_line(prefix, bytes, chars, seq![span], window);
    assert(line.subrange(0, head.len() as int) =~= head);
}

/// The note of a search without entries on its page.
pub open spec fn bare_note(page: PageFacts, metric: Seq<char>) -> NoteSpec {
    NoteSpec {
        subject: "grep "@ + render::debug_quoted(page.pattern),
        metric,
        facts: Seq::empty(),
    }
}

/// A page without entries that fits its budget is its note and all lines on what was left out. A
/// summary tells the number of occurrences and of files; a search that found nothing tells of no
/// files where it lists files, and else of no matches.
pub proof fn pages_without_entries_tell_totals(
    page: PageFacts,
    occurrences: usize,
    files: usize,
    cost: spec_fn(Seq<char>) -> nat,
    metric: Seq<char>,
)
    requires
        page.units.details.len() <= usize::MAX,
        cost(
            page.units.page(
                bare_note(page, metric),
                Seq::empty(),
                page.units.details.len() as int,
            ),
        ) <= page.budget,
    ensures
        ({
            let whole = PageSpec::Text(
                page.units.page(
                    bare_note(page, metric),
                    Seq::empty(),
                    page.units.details.len() as int,
                ),
            );
            &&& metric == head_note::counted_spec(
                occurrences as nat,
                "occurrence"@,
                "occurrences"@,
            ) + " in "@ + head_note::counted_spec(files as nat, "file"@, "files"@)
                ==> render::summary_page(page, occurrences, files, cost) == whole
            &&& metric == head_note::counted_spec(0, "file"@, "files"@) ==> render::zero_page(
                OutputMode::FilesWithMatches,
                page,
                cost,
            ) == whole
            &&& metric == head_note::counted_spec(0, "match"@, "matches"@) ==> {
                &&& render::zero_page(OutputMode::Content, page, cost) == whole
                &&& render::zero_page(OutputMode::Count, page, cost) == whole
            }
        }),
{
    assert(page::page_costs(page.units, bare_note(page, metric), Seq::empty(), cost)(
        page.units.details.len() as int,
    ) <= page.budget);
}

/// A search answers in its mode: a failure with its message, a summary with totals, a page without
/// entries where nothing was found or the offset is past the last entry, and else a listing of paths,
/// of counts, or of matches.
pub proof fn a_search_answers_in_its_mode(
    run: GrepRun,
    units: UnitsSpec,
    cost: spec_fn(Seq<char>) -> nat,
)
    ensures
        ({
            let state = run.reducer@;
            let mode = run.reducer.rules.mode;
            let facts = run.facts(units);
            let answer = run.page(units, cost);
            let shown = if facts.head_limit == 0 || facts.head_limit > state.results.len() {
                state.results
            } else {
                state.results.take(facts.head_limit as int)
            };
            match state.failure {
                Some(message) => answer == PageSpec::Error(message),
                None => {
                    &&& mode is Summary ==> answer == render::summary_page(
                        facts,
                        state.occurrence_total,
                        state.file_total,
                        cost,
                    )
                    &&& !(mode is Summary) && state.results.len() == 0 ==> answer
                        == if state.total_seen == 0 {
                        render::zero_page(mode, facts, cost)
                    } else {
                        render::exhausted_page(mode, facts, cost)
                    }
                    &&& state.results.len() > 0 && state.results.len() <= usize::MAX ==> {
                        &&& mode is FilesWithMatches ==> answer == render::line_page(
                            facts,
                            render::path_lines(shown),
                            "files"@,
                            cost,
                        )
                        &&& mode is Count ==> answer == render::line_page(
                            facts,
                            render::count_lines(shown),
                            "files"@,
                            cost,
                        )
                        &&& mode is Content ==> answer == content::content_page(
                            facts,
                            state.results,
                            content::selection(state.results),
                            run.options,
                            cost,
                        )
                    }
                },
            }
        }),
{
    let state = run.reducer@;
    assert(state.results.take(state.results.len() as int) =~= state.results);
}

/// A page of matches selects the entries of all its files, in their order, each with its file.
pub proof fn every_entry_is_selected_with_its_file(files: Seq<FileSpec>)
    requires
        files.len() <= usize::MAX,
        forall|i: int| 0 <= i < files.len() ==> (#[trigger] files[i]).payload is Content,
    ensures
        content::selection(files).len() == reduce::all_entries(files).len(),
        forall|i: int|
            0 <= i < content::selection(files).len() ==> {
                let (file, entry) = #[trigger] content::selection(files)[i];
                &&& file < files.len()
                &&& reduce::all_entries(files)[i] == (files[file as int].path, entry)
            },
    decreases files.len(),
{
    if files.len() > 0 {
        let rest = files.drop_last();
        assert forall|i: int| 0 <= i < rest.len() implies (#[trigger] rest[i]).payload is Content by {
            assert(rest[i] == files[i]);
        }
        every_entry_is_selected_with_its_file(rest);
        let before = content::selection(rest);
        let all = content::selection(files);
        assert(files[files.len() - 1].payload is Content);
        assert forall|i: int| 0 <= i < all.len() implies {
            let (file, entry) = #[trigger] all[i];
            &&& file < files.len()
            &&& reduce::all_entries(files)[i] == (files[file as int].path, entry)
        } by {
            if i < before.len() {
                assert(all[i] == before[i]);
                assert(rest[before[i].0 as int] == files[before[i].0 as int]);
            }
        }
    }
}

} // verus!
