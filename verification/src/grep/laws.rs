//! What a search promises, said of texts, lines and requests alone.

use crate::encoding::detect;
use crate::encoding::detect::DetectedSpec;
use crate::encoding::laws as encoding_laws;
use crate::encoding::pipeline;
use crate::encoding::pipeline::DecisionSpec;
use crate::encoding::stats;
use crate::grep::capture::{ContentEntry, ContentView};
use crate::grep::capture_laws;
use crate::grep::content;
use crate::grep::layout;
use crate::grep::layout::LineMatchSpan;
use crate::grep::lines;
use crate::grep::lines::PlanLine;
use crate::grep::matcher;
use crate::grep::matcher::{GrepMatcher, WalkSpec};
use crate::grep::outcome;
use crate::grep::outcome::SkipSpec;
use crate::grep::plan::{GrepRequest, GrepSearchPlan, OutputMode};
use crate::grep::ranges;
use crate::grep::render::PageFacts;
use crate::grep::request;
use crate::grep::request::SearchRoot;
use crate::grep::run;
use crate::grep::run::{GrepCandidate, GrepInput, GrepRun, SearchEncoding};
use crate::grep::search;
use crate::grep::search::{FileSpec, PayloadSpec};
use crate::snapshot::capture::{CaptureDisposition, CaptureFailure, MEMORY_SNAPSHOT_LIMIT};
use vstd::prelude::*;
use vstd::string::*;
use vstd::utf8::*;

verus! {

/// What the searcher reports of a UTF-8 text, with so many lines before and after each match.
pub open spec fn reported_of(
    matcher: GrepMatcher,
    before: nat,
    after: nat,
    in_memory: bool,
    bytes: Seq<u8>,
) -> WalkSpec {
    let source = matcher.source();
    if in_memory {
        matcher::memory_events(
            source.pattern,
            source.case_insensitive,
            source.multiline,
            before,
            after,
            64 * 1024 * 1024,
            bytes,
        )
    } else {
        matcher::stream_events(
            source.pattern,
            source.case_insensitive,
            source.multiline,
            before,
            after,
            64 * 1024 * 1024,
            bytes,
        )
    }
}

proof fn utf8_text_is_encoded(content: Seq<u8>, label: Option<Seq<char>>)
    requires
        pipeline::classify(content, label) is Text,
    ensures
        ({
            let decision = pipeline::classify(content, label);
            let detected = decision->detected;
            &&& pipeline::decoded_content(content, detected) matches Some(text)
            &&& outcome::utf8_text(content, detected) == encode_utf8(text)
            &&& decision->total_lines == stats::line_total(text)
            &&& decision->has_trailing_newline == stats::ends_with_newline(text)
        }),
{
    pipeline::text_decision_decodes(content, label);
    encoding_laws::only_its_own_mark_is_left_out(content, label);
    let detected = pipeline::classify(content, label)->detected;
    let rest = content.skip(detected.bom_len as int);
    assert(content.skip(0) =~= content);
    if detected.charset is Utf8 {
        decode_utf8_encode_utf8(rest);
    }
}

/// Whether a content accepted like this is searched as these bytes: they are what the searcher goes
/// through and what is kept.
pub open spec fn searches(
    path: Seq<char>,
    content: Seq<u8>,
    matcher: GrepMatcher,
    plan: GrepSearchPlan,
    decision: DecisionSpec,
    used_fallback: bool,
    bytes: Seq<u8>,
) -> bool {
    let searched = outcome::text_searched(
        path,
        content,
        matcher,
        plan,
        decision,
        used_fallback,
    );
    let in_memory = outcome::walked_in_memory(plan, content, decision->detected);
    let walk = reported_of(
        matcher,
        plan.before() as nat,
        plan.after() as nat,
        in_memory,
        bytes,
    );
    &&& content.len() <= 8388608 && bytes.len() <= 8388608 ==> in_memory
    &&& content.len() > 8388608 && bytes.len() > 8388608 ==> !in_memory
    &&& searched matches Ok(found) ==> {
        &&& search::event_steps(matcher, search::begun(plan), walk.events) matches Ok(
            (state, _),
        )
        &&& found.result == state.output(
            path,
            decision->total_lines as usize,
            decision->has_trailing_newline,
            bytes,
        ).result
        &&& found.result matches Some(file) ==> file.path == path
        &&& found.result matches Some(file) ==> (file.payload matches PayloadSpec::Content(kept)
            ==> kept.text == bytes)
        &&& found.skip is None
        &&& found.used_fallback == used_fallback
    }
    &&& searched is Ok <==> {
        &&& search::event_steps(matcher, search::begun(plan), walk.events) matches Ok(
            (_, goes_on),
        )
        &&& goes_on ==> walk.fault is None
    }
}

proof fn decision_searches(
    path: Seq<char>,
    content: Seq<u8>,
    matcher: GrepMatcher,
    plan: GrepSearchPlan,
    decision: DecisionSpec,
    used_fallback: bool,
    bytes: Seq<u8>,
)
    requires
        decision is Text,
        outcome::utf8_text(content, decision->detected) == bytes,
    ensures
        searches(path, content, matcher, plan, decision, used_fallback, bytes),
{
    let in_memory = outcome::walked_in_memory(plan, content, decision->detected);
    assert(search::walk_of(matcher, plan, in_memory, bytes) == reported_of(
        matcher,
        plan.before() as nat,
        plan.after() as nat,
        in_memory,
        bytes,
    ));
}

/// The bytes that are handed to the searcher, and kept for showing lines, are the UTF-8 of the text
/// that the content has in its accepted encoding.
pub proof fn the_decoded_text_is_searched(
    path: Seq<char>,
    content: Seq<u8>,
    matcher: GrepMatcher,
    plan: GrepSearchPlan,
    label: Option<Seq<char>>,
    used_fallback: bool,
    text: Seq<char>,
)
    requires
        pipeline::classify(content, label) is Text,
        pipeline::decoded_content(content, pipeline::classify(content, label)->detected) == Some(
            text,
        ),
    ensures
        ({
            let decision = pipeline::classify(content, label);
            searches(path, content, matcher, plan, decision, used_fallback, encode_utf8(text))
        }),
{
    utf8_text_is_encoded(content, label);
    decision_searches(
        path,
        content,
        matcher,
        plan,
        pipeline::classify(content, label),
        used_fallback,
        encode_utf8(text),
    );
}

/// The same text gives the same matches in every encoding: only the note on the encoding differs.
pub proof fn the_encoding_changes_no_match(
    path: Seq<char>,
    left: Seq<u8>,
    right: Seq<u8>,
    left_label: Option<Seq<char>>,
    right_label: Option<Seq<char>>,
    matcher: GrepMatcher,
    plan: GrepSearchPlan,
    text: Seq<char>,
)
    requires
        pipeline::classify(left, left_label) is Text,
        pipeline::classify(right, right_label) is Text,
        pipeline::decoded_content(left, pipeline::classify(left, left_label)->detected) == Some(
            text,
        ),
        pipeline::decoded_content(right, pipeline::classify(right, right_label)->detected) == Some(
            text,
        ),
        left.len() <= MEMORY_SNAPSHOT_LIMIT,
        right.len() <= MEMORY_SNAPSHOT_LIMIT,
        encode_utf8(text).len() <= MEMORY_SNAPSHOT_LIMIT,
    ensures
        ({
            let first = outcome::content_searched(path, left, matcher, plan, left_label, None);
            let second = outcome::content_searched(path, right, matcher, plan, right_label, None);
            match (first, second) {
                (Ok(one), Ok(other)) => {
                    &&& one.result == other.result
                    &&& one.entries_seen == other.entries_seen
                    &&& one.skip == other.skip
                    &&& one.used_fallback == other.used_fallback
                },
                (Err(_), Err(_)) => true,
                _ => false,
            }
        }),
{
    utf8_text_is_encoded(left, left_label);
    utf8_text_is_encoded(right, right_label);
}

/// A content in no accepted encoding is searched as its text under the fallback, as if that
/// encoding had been named; without a fallback it is left out for that reason. Binary content
/// gives nothing.
pub proof fn the_fallback_reads_like_a_label(
    path: Seq<char>,
    content: Seq<u8>,
    matcher: GrepMatcher,
    plan: GrepSearchPlan,
    fallback: Seq<char>,
)
    ensures
        match pipeline::classify(content, None) {
            DecisionSpec::Binary => {
                &&& outcome::content_searched(path, content, matcher, plan, None, Some(fallback))
                    matches Ok(found)
                &&& found.result is None
                &&& found.skip is None
            },
            DecisionSpec::Rejected(reason) => {
                &&& outcome::content_searched(path, content, matcher, plan, None, None) matches Ok(
                    found,
                )
                &&& found.result is None
                &&& found.skip == Some(SkipSpec::Encoding(reason))
                &&& !(reason is BomMismatch) && pipeline::classify(content, Some(fallback)) is Text
                    ==> match (
                    outcome::content_searched(path, content, matcher, plan, None, Some(fallback)),
                    outcome::content_searched(path, content, matcher, plan, Some(fallback), None),
                ) {
                    (Ok(guessed), Ok(named)) => {
                        &&& guessed.result == named.result
                        &&& guessed.entries_seen == named.entries_seen
                        &&& guessed.used_fallback
                        &&& !named.used_fallback
                    },
                    (Err(guessed), Err(named)) => guessed == named,
                    _ => false,
                }
            },
            DecisionSpec::Text { .. } => outcome::content_searched(
                path,
                content,
                matcher,
                plan,
                None,
                Some(fallback),
            ) == outcome::content_searched(path, content, matcher, plan, None, None),
        },
{
}

/// The lines before each match that a request asks for.
pub open spec fn wanted_before(request: GrepRequest) -> int {
    match (request.context, request.before_context) {
        (Some(lines), _) => lines as int,
        (None, Some(lines)) => lines as int,
        (None, None) => 0,
    }
}

/// The lines after each match that a request asks for.
pub open spec fn wanted_after(request: GrepRequest) -> int {
    match (request.context, request.after_context) {
        (Some(lines), _) => lines as int,
        (None, Some(lines)) => lines as int,
        (None, None) => 0,
    }
}

/// A search has the pattern, the flags, the mode and the context of its request: matches are found
/// in either case, or across lines, only where asked for; the searcher and the page both take as
/// many lines before and after each match as the request has.
pub proof fn a_search_does_what_is_asked(run: GrepRun, request: GrepRequest, input: GrepInput)
    requires
        run::ran(run, request, input),
    ensures
        run.matcher.source().case_insensitive == (request.case_insensitive == Some(true)),
        run.matcher.source().multiline == (request.multiline == Some(true)),
        run.matcher.source().pattern == if request.multiline == Some(true) {
            request::multiline_pattern(request.pattern@)
        } else {
            request.pattern@
        },
        run.pattern@ == request.pattern@,
        run.reducer.rules.mode == match request.output_mode {
            Some(mode) => mode,
            None => OutputMode::FilesWithMatches,
        },
        run.reducer.rules.single_file == input.root->Ok_0.is_file,
        run.options.numbers == (request.line_numbers != Some(false)),
        run.options.only_matching == (request.only_matching == Some(true)),
        run.options.context.0 == wanted_before(request),
        run.options.context.1 == wanted_after(request),
        run.offset == match request.offset {
            Some(offset) => offset,
            None => 0,
        },
        request.output_mode == Some(OutputMode::Content) ==> {
            let plan = run.reducer.rules.plan;
            &&& plan.before() == wanted_before(request)
            &&& plan.after() == wanted_after(request)
            &&& plan is ContentOccurrence <==> request.only_matching == Some(true)
                || request.multiline == Some(true)
            &&& plan is ContentLine || plan is ContentOccurrence
            &&& plan.captured()->Some_0.multiline == (request.multiline == Some(true))
            &&& plan.captured()->Some_0.capture_match_text == (request.only_matching == Some(true))
            &&& plan.captured()->Some_0.skip_entries == 0
        },
        request.output_mode == Some(OutputMode::FilesWithMatches) || request.output_mode is None
            ==> run.reducer.rules.plan is Exists,
        request.output_mode == Some(OutputMode::Count) || request.output_mode == Some(
            OutputMode::Summary,
        ) ==> run.reducer.rules.plan is Count,
{
}

/// A page shows at most as many entries as the request has, 250 where it does not say, and never
/// more than four for each token of the budget and one. One entry more is looked for, to know
/// whether there is more.
pub proof fn a_page_is_as_long_as_asked(run: GrepRun, request: GrepRequest, input: GrepInput)
    requires
        run::ran(run, request, input),
        4 * input.budget + 1 < usize::MAX,
    ensures
        ({
            let asked = match request.head_limit {
                Some(limit) => limit as int,
                None => 250,
            };
            let most = 4 * input.budget + 1;
            run.head_limit == if asked == 0 || asked > most {
                most
            } else {
                asked
            }
        }),
        run.reducer.rules.probe_limit == run.head_limit + 1,
{
}

proof fn block_holds(line: spec_fn(u64) -> Seq<PlanLine>, start: int, end: int, wanted: PlanLine)
    requires
        0 <= start,
        end <= u64::MAX,
    ensures
        lines::block_lines(line, start, end).contains(wanted) <==> exists|n: u64|
            start <= n <= end && (#[trigger] line(n)).contains(wanted),
    decreases end - start + 1,
{
    let all = lines::block_lines(line, start, end);
    if end < start {
        assert(all =~= Seq::<PlanLine>::empty());
    } else {
        let before = lines::block_lines(line, start, end - 1);
        let last = line(end as u64);
        block_holds(line, start, end - 1, wanted);
        both_hold(before, last, wanted);
        if last.contains(wanted) {
            let n: u64 = end as u64;
            assert(start <= n <= end && line(n).contains(wanted));
        }
        if exists|n: u64| start <= n <= end && (#[trigger] line(n)).contains(wanted) {
            let n = choose|n: u64| start <= n <= end && (#[trigger] line(n)).contains(wanted);
            if n < end {
                assert(start <= n <= end - 1 && line(n).contains(wanted));
            }
        }
    }
}

proof fn both_hold<T>(left: Seq<T>, right: Seq<T>, wanted: T)
    ensures
        (left + right).contains(wanted) <==> left.contains(wanted) || right.contains(wanted),
{
    let all = left + right;
    if all.contains(wanted) {
        let i = all.index_of(wanted);
        if i < left.len() {
            assert(left[i] == wanted);
        } else {
            assert(right[i - left.len()] == wanted);
        }
    }
    if left.contains(wanted) {
        let i = left.index_of(wanted);
        assert(all[i] == wanted);
    }
    if right.contains(wanted) {
        let i = right.index_of(wanted);
        assert(all[left.len() + i] == wanted);
    }
}

proof fn blocks_hold(
    line: spec_fn(u64) -> Seq<PlanLine>,
    parts: Seq<(u64, u64)>,
    wanted: PlanLine,
)
    requires
        !(wanted is Separator),
    ensures
        lines::blocks(line, parts).contains(wanted) <==> exists|n: u64|
            layout::holds_line(parts, n) && (#[trigger] line(n)).contains(wanted),
    decreases parts.len(),
{
    let all = lines::blocks(line, parts);
    if parts.len() == 0 {
        assert(all =~= Seq::<PlanLine>::empty());
    } else {
        let rest = parts.drop_last();
        let (start, end) = parts.last();
        let before = lines::blocks(line, rest);
        let parted = if parts.len() > 1 {
            before.push(PlanLine::Separator)
        } else {
            before
        };
        let block = lines::block_lines(line, start as int, end as int);
        blocks_hold(line, rest, wanted);
        block_holds(line, start as int, end as int, wanted);
        both_hold(parted, block, wanted);
        both_hold(before, seq![PlanLine::Separator], wanted);
        assert(before.push(PlanLine::Separator) =~= before + seq![PlanLine::Separator]);
        assert forall|n: u64| layout::holds_line(parts, n) <==> layout::holds_line(rest, n) || (
        start <= n <= end) by {
            if layout::holds_line(rest, n) {
                let i = choose|i: int|
                    0 <= i < rest.len() && (#[trigger] rest[i]).0 <= n <= rest[i].1;
                assert(parts[i] == rest[i]);
            }
            if start <= n <= end {
                assert(parts[parts.len() - 1].0 <= n <= parts[parts.len() - 1].1);
            }
            if layout::holds_line(parts, n) {
                let i = choose|i: int|
                    0 <= i < parts.len() && (#[trigger] parts[i]).0 <= n <= parts[i].1;
                if i < rest.len() {
                    assert(rest[i] == parts[i]);
                }
            }
        }
    }
}

/// Whether a line lies at most so many lines before the first line of a range and at most so many
/// after its last, within a text.
pub open spec fn near(range: (u64, u64), before: int, after: int, total: int, line: u64) -> bool {
    range.0 - before <= line <= range.1 + after && 1 <= line <= total
}

proof fn around_is_near(
    content: ContentView,
    covered: Seq<(u64, u64)>,
    before: usize,
    after: usize,
    line: u64,
)
    ensures
        layout::holds_line(
            ranges::merged(lines::context_ranges(content, covered, before, after)),
            line,
        ) <==> exists|i: int|
            0 <= i < covered.len() && near(
                #[trigger] covered[i],
                before as int,
                after as int,
                content.total_lines as int,
                line,
            ),
{
    let around = lines::context_ranges(content, covered, before, after);
    ranges::merging_keeps_lines(around, line);
    let total = content.total_lines as int;
    assert forall|i: int| 0 <= i < covered.len() implies ((#[trigger] around[i]).0 <= line
        <= around[i].1 <==> near(covered[i], before as int, after as int, total, line)) by {
        assert(around[i] == ranges::around(
            covered[i].0,
            covered[i].1,
            before,
            after,
            content.total_lines,
        ));
    }
    if layout::holds_line(around, line) {
        let i = choose|i: int|
            0 <= i < around.len() && (#[trigger] around[i]).0 <= line <= around[i].1;
        assert(near(covered[i], before as int, after as int, total, line));
    }
    if exists|i: int|
        0 <= i < covered.len() && near(
            #[trigger] covered[i],
            before as int,
            after as int,
            total,
            line,
        ) {
        let i = choose|i: int|
            0 <= i < covered.len() && near(
                #[trigger] covered[i],
                before as int,
                after as int,
                total,
                line,
            );
        assert(around[i].0 <= line <= around[i].1);
    }
}

/// The first and the last line of an entry.
pub open spec fn lines_of_entry(content: ContentView, entry: ContentEntry) -> (u64, u64) {
    match entry {
        ContentEntry::MatchingLine(line) => (line, line),
        ContentEntry::Occurrence { start_line, occurrence_index } => (
            content.occurrences[start_line][occurrence_index as int].start_line,
            content.occurrences[start_line][occurrence_index as int].end_line,
        ),
    }
}

/// Whether a line belongs to one of the entries.
pub open spec fn belongs(content: ContentView, entries: Seq<ContentEntry>, line: u64) -> bool {
    exists|i: int|
        0 <= i < entries.len() && lines_of_entry(content, #[trigger] entries[i]).0 <= line
            <= lines_of_entry(content, entries[i]).1
}

/// Whether a line lies near one of the entries.
pub open spec fn near_an_entry(
    content: ContentView,
    entries: Seq<ContentEntry>,
    before: int,
    after: int,
    line: u64,
) -> bool {
    exists|i: int|
        0 <= i < entries.len() && near(
            lines_of_entry(content, #[trigger] entries[i]),
            before,
            after,
            content.total_lines as int,
            line,
        )
}

/// Whether the text of a line is at hand: it was kept, or it is the empty line behind the last line
/// feed.
pub open spec fn at_hand(content: ContentView, line: u64) -> bool {
    content.lines.dom().contains(line) || (content.has_trailing_newline && line
        == content.total_lines)
}

/// The lesser of two numbers.
pub open spec fn least(left: int, right: int) -> int {
    if left < right {
        left
    } else {
        right
    }
}

proof fn entries_have_their_lines(
    content: ContentView,
    entries: Seq<ContentEntry>,
    before: usize,
    after: usize,
    line: u64,
)
    ensures
        layout::holds_line(lines::entry_ranges(content, entries), line) <==> belongs(
            content,
            entries,
            line,
        ),
        layout::holds_line(
            ranges::merged(
                lines::context_ranges(
                    content,
                    lines::entry_ranges(content, entries),
                    before,
                    after,
                ),
            ),
            line,
        ) <==> near_an_entry(content, entries, before as int, after as int, line),
{
    let covered = lines::entry_ranges(content, entries);
    assert forall|i: int| 0 <= i < entries.len() implies #[trigger] covered[i] == lines_of_entry(
        content,
        entries[i],
    ) by {}
    around_is_near(content, covered, before, after, line);
    if layout::holds_line(covered, line) {
        let i = choose|i: int|
            0 <= i < covered.len() && (#[trigger] covered[i]).0 <= line <= covered[i].1;
        assert(lines_of_entry(content, entries[i]).0 <= line);
    }
    if belongs(content, entries, line) {
        let i = choose|i: int|
            0 <= i < entries.len() && lines_of_entry(content, #[trigger] entries[i]).0 <= line
                <= lines_of_entry(content, entries[i]).1;
        assert(covered[i].0 <= line <= covered[i].1);
    }
    let total = content.total_lines as int;
    if exists|i: int|
        0 <= i < covered.len() && near(
            #[trigger] covered[i],
            before as int,
            after as int,
            total,
            line,
        ) {
        let i = choose|i: int|
            0 <= i < covered.len() && near(
                #[trigger] covered[i],
                before as int,
                after as int,
                total,
                line,
            );
        assert(near(
            lines_of_entry(content, entries[i]),
            before as int,
            after as int,
            total,
            line,
        ));
    }
    if near_an_entry(content, entries, before as int, after as int, line) {
        let i = choose|i: int|
            0 <= i < entries.len() && near(
                lines_of_entry(content, #[trigger] entries[i]),
                before as int,
                after as int,
                total,
                line,
            );
        assert(near(covered[i], before as int, after as int, total, line));
    }
}

/// On a page of matching lines, the context of a file is made of exactly the lines that are near a
/// match and belong to none: as many lines before and after it as the request has, or as `depth`
/// leaves where the page must be shorter. The lines of the matches are shown as such.
pub proof fn context_is_the_lines_around_matches(
    run: GrepRun,
    request: GrepRequest,
    input: GrepInput,
    page: PageFacts,
    files: Seq<FileSpec>,
    file: usize,
    entries: Seq<ContentEntry>,
    depth: usize,
    line: u64,
)
    requires
        run::ran(run, request, input),
        request.only_matching != Some(true),
    ensures
        ({
            let kept = files[file as int].payload->Content_0;
            let group = lines::file_group(
                files,
                (file, entries),
                content::layout_of(page, run.options, depth),
            );
            let before = least(wanted_before(request), depth as int);
            let after = least(wanted_after(request), depth as int);
            &&& group.contains(PlanLine::Context { file_index: file, line_number: line }) <==> {
                &&& at_hand(kept, line)
                &&& !belongs(kept, entries, line)
                &&& near_an_entry(kept, entries, before, after, line)
            }
            &&& (exists|spans: Seq<LineMatchSpan>| #[trigger]
                group.contains(
                    PlanLine::Match { file_index: file, line_number: line, spans },
                )) <==> {
                &&& at_hand(kept, line)
                &&& belongs(kept, entries, line)
                &&& 1 <= line <= kept.total_lines
            }
        }),
{
    let kept = files[file as int].payload->Content_0;
    let laid = content::layout_of(page, run.options, depth);
    let group = lines::file_group(files, (file, entries), laid);
    let shows = lines::matching_line(file, kept, entries);
    let parts = ranges::merged(
        lines::context_ranges(
            kept,
            lines::entry_ranges(kept, entries),
            laid.before,
            laid.after,
        ),
    );
    assert(group == lines::blocks(shows, parts));
    entries_have_their_lines(kept, entries, laid.before, laid.after, line);
    let context = PlanLine::Context { file_index: file, line_number: line };
    blocks_hold(shows, parts, context);
    assert forall|n: u64| (#[trigger] shows(n)).contains(context) implies n == line by {
        let i = shows(n).index_of(context);
        assert(shows(n)[i] == context);
    }
    if at_hand(kept, line) && !belongs(kept, entries, line) {
        assert(shows(line)[0] == context);
        assert(shows(line).contains(context));
    }
    if shows(line).contains(context) {
        let i = shows(line).index_of(context);
        assert(shows(line)[i] == context);
    }
    if exists|spans: Seq<LineMatchSpan>| #[trigger]
        group.contains(PlanLine::Match { file_index: file, line_number: line, spans }) {
        let spans = choose|spans: Seq<LineMatchSpan>| #[trigger]
            group.contains(PlanLine::Match { file_index: file, line_number: line, spans });
        let found = PlanLine::Match { file_index: file, line_number: line, spans };
        blocks_hold(shows, parts, found);
        let n = choose|n: u64| layout::holds_line(parts, n) && (#[trigger] shows(n)).contains(found);
        let i = shows(n).index_of(found);
        assert(shows(n)[i] == found);
        assert(n == line);
    }
    if at_hand(kept, line) && belongs(kept, entries, line) && 1 <= line <= kept.total_lines {
        let found = shows(line)[0];
        assert(found is Match);
        blocks_hold(shows, parts, found);
        assert(shows(line).contains(found));
        let i = choose|i: int|
            0 <= i < entries.len() && lines_of_entry(kept, #[trigger] entries[i]).0 <= line
                <= lines_of_entry(kept, entries[i]).1;
        assert(near(
            lines_of_entry(kept, entries[i]),
            laid.before as int,
            laid.after as int,
            kept.total_lines as int,
            line,
        ));
        assert(group.contains(
            PlanLine::Match { file_index: file, line_number: line, spans: found->spans },
        ));
    }
}

/// Where a request asks for no lines before a match, no context stands above the first match; where
/// it asks for none after a match, none stands below the last.
pub proof fn no_context_on_a_side_not_asked_for(
    run: GrepRun,
    request: GrepRequest,
    input: GrepInput,
    page: PageFacts,
    files: Seq<FileSpec>,
    file: usize,
    entries: Seq<ContentEntry>,
    depth: usize,
    line: u64,
)
    requires
        run::ran(run, request, input),
        request.only_matching != Some(true),
    ensures
        ({
            let kept = files[file as int].payload->Content_0;
            let group = lines::file_group(
                files,
                (file, entries),
                content::layout_of(page, run.options, depth),
            );
            let shown = group.contains(
                PlanLine::Context { file_index: file, line_number: line },
            );
            &&& request.context is None && request.before_context is None && (forall|i: int|
                0 <= i < entries.len() ==> line < lines_of_entry(kept, #[trigger] entries[i]).0)
                ==> !shown
            &&& request.context is None && request.after_context is None && (forall|i: int|
                0 <= i < entries.len() ==> line > lines_of_entry(kept, #[trigger] entries[i]).1)
                ==> !shown
        }),
{
    context_is_the_lines_around_matches(
        run,
        request,
        input,
        page,
        files,
        file,
        entries,
        depth,
        line,
    );
}

proof fn values_are_found<T>(pairs: Seq<(u64, T)>, key: u64, value: T)
    ensures
        lines::values_at(pairs, key).contains(value) <==> pairs.contains((key, value)),
    decreases pairs.len(),
{
    let all = lines::values_at(pairs, key);
    if pairs.len() == 0 {
        assert(all =~= Seq::<T>::empty());
    } else {
        let rest = pairs.drop_last();
        let before = lines::values_at(rest, key);
        values_are_found(rest, key, value);
        both_hold(rest, seq![pairs.last()], (key, value));
        assert(rest + seq![pairs.last()] =~= pairs);
        assert(seq![pairs.last()].contains((key, value)) <==> pairs.last() == (key, value)) by {
            if pairs.last() == (key, value) {
                assert(seq![pairs.last()][0] == (key, value));
            }
        }
        if pairs.last().0 == key {
            both_hold(before, seq![pairs.last().1], value);
            assert(before + seq![pairs.last().1] =~= before.push(pairs.last().1));
            assert(seq![pairs.last().1].contains(value) <==> pairs.last().1 == value) by {
                if pairs.last().1 == value {
                    assert(seq![pairs.last().1][0] == value);
                }
            }
        }
    }
}

/// The first and the last line of an occurrence.
pub open spec fn lines_of_key(content: ContentView, key: (u64, usize)) -> (u64, u64) {
    let found = content.occurrences[key.0][key.1 as int];
    (found.start_line, found.end_line)
}

/// On a page of matched texts every selected occurrence is shown, on the line that it begins in and
/// under the number of that line, as far as that line is one of the file.
pub proof fn every_selected_occurrence_is_shown(
    run: GrepRun,
    request: GrepRequest,
    input: GrepInput,
    page: PageFacts,
    files: Seq<FileSpec>,
    file: usize,
    entries: Seq<ContentEntry>,
    depth: usize,
    key: (u64, usize),
)
    requires
        run::ran(run, request, input),
        request.only_matching == Some(true),
        entries.contains(
            ContentEntry::Occurrence { start_line: key.0, occurrence_index: key.1 },
        ),
        ({
            let kept = files[file as int].payload->Content_0;
            let (first, last) = lines_of_key(kept, key);
            1 <= first <= last && first <= kept.total_lines
        }),
    ensures
        ({
            let kept = files[file as int].payload->Content_0;
            lines::file_group(
                files,
                (file, entries),
                content::layout_of(page, run.options, depth),
            ).contains(
                PlanLine::OnlyMatch {
                    file_index: file,
                    start_line: key.0,
                    occurrence_index: key.1,
                    output_line: lines_of_key(kept, key).0,
                },
            )
        }),
{
    let kept = files[file as int].payload->Content_0;
    let laid = content::layout_of(page, run.options, depth);
    let keys = lines::keys_of_all(kept, entries);
    let (first, last) = lines_of_key(kept, key);
    key_is_taken(kept, entries, key);
    let at = keys.index_of(key);
    let covered = lines::covered_ranges(kept, keys);
    assert(covered[at] == (first, last));
    around_is_near(kept, covered, laid.before, laid.after, first);
    assert(near(
        covered[at],
        laid.before as int,
        laid.after as int,
        kept.total_lines as int,
        first,
    ));
    let parts = ranges::merged(lines::context_ranges(kept, covered, laid.before, laid.after));
    let shows = lines::only_line(file, kept, keys);
    let pairs = lines::keys_by_start(kept, keys);
    assert(pairs[at] == (first, key));
    values_are_found(pairs, first, key);
    let begun = lines::values_at(pairs, first);
    let i = begun.index_of(key);
    let shown = PlanLine::OnlyMatch {
        file_index: file,
        start_line: key.0,
        occurrence_index: key.1,
        output_line: first,
    };
    assert(shows(first)[i] == shown);
    assert(shows(first).contains(shown));
    blocks_hold(shows, parts, shown);
}

proof fn key_is_taken(content: ContentView, entries: Seq<ContentEntry>, key: (u64, usize))
    requires
        entries.contains(
            ContentEntry::Occurrence { start_line: key.0, occurrence_index: key.1 },
        ),
    ensures
        lines::keys_of_all(content, entries).contains(key),
    decreases entries.len(),
{
    let rest = entries.drop_last();
    let wanted = ContentEntry::Occurrence { start_line: key.0, occurrence_index: key.1 };
    let own = lines::keys_of(content, entries.last());
    both_hold(lines::keys_of_all(content, rest), own, key);
    if entries.last() == wanted {
        assert(own[0] == key);
    } else {
        let i = entries.index_of(wanted);
        assert(rest[i] == wanted);
        key_is_taken(content, rest, key);
    }
}

/// On a page of matched texts, the context of a file is made of exactly the lines that are near an
/// occurrence and that none begins in or covers: as many lines before and after it as the request
/// has, or as `depth` leaves where the page must be shorter.
pub proof fn context_is_the_lines_around_occurrences(
    run: GrepRun,
    request: GrepRequest,
    input: GrepInput,
    page: PageFacts,
    files: Seq<FileSpec>,
    file: usize,
    entries: Seq<ContentEntry>,
    depth: usize,
    line: u64,
)
    requires
        run::ran(run, request, input),
        request.only_matching == Some(true),
    ensures
        ({
            let kept = files[file as int].payload->Content_0;
            let keys = lines::keys_of_all(kept, entries);
            let group = lines::file_group(
                files,
                (file, entries),
                content::layout_of(page, run.options, depth),
            );
            let before = least(wanted_before(request), depth as int);
            let after = least(wanted_after(request), depth as int);
            group.contains(PlanLine::Context { file_index: file, line_number: line }) <==> {
                &&& at_hand(kept, line)
                &&& forall|i: int|
                    0 <= i < keys.len() ==> {
                        let (first, last) = lines_of_key(kept, #[trigger] keys[i]);
                        line != first && !(first <= line <= last)
                    }
                &&& exists|i: int|
                    0 <= i < keys.len() && near(
                        lines_of_key(kept, #[trigger] keys[i]),
                        before,
                        after,
                        kept.total_lines as int,
                        line,
                    )
            }
        }),
{
    let kept = files[file as int].payload->Content_0;
    let laid = content::layout_of(page, run.options, depth);
    let keys = lines::keys_of_all(kept, entries);
    let covered = lines::covered_ranges(kept, keys);
    let total = kept.total_lines as int;
    let before = least(wanted_before(request), depth as int);
    let after = least(wanted_after(request), depth as int);
    assert forall|i: int| 0 <= i < keys.len() implies #[trigger] covered[i] == lines_of_key(
        kept,
        keys[i],
    ) by {}
    around_is_near(kept, covered, laid.before, laid.after, line);
    let parts = ranges::merged(lines::context_ranges(kept, covered, laid.before, laid.after));
    let shows = lines::only_line(file, kept, keys);
    let context = PlanLine::Context { file_index: file, line_number: line };
    blocks_hold(shows, parts, context);
    assert forall|n: u64| (#[trigger] shows(n)).contains(context) implies n == line by {
        let i = shows(n).index_of(context);
        assert(shows(n)[i] == context);
    }
    let pairs = lines::keys_by_start(kept, keys);
    let begun = lines::values_at(pairs, line);
    let free = forall|i: int|
        0 <= i < keys.len() ==> {
            let (first, last) = lines_of_key(kept, #[trigger] keys[i]);
            line != first && !(first <= line <= last)
        };
    let close = exists|i: int|
        0 <= i < keys.len() && near(
            lines_of_key(kept, #[trigger] keys[i]),
            before,
            after,
            total,
            line,
        );
    assert(layout::holds_line(parts, line) <==> close) by {
        if layout::holds_line(parts, line) {
            let i = choose|i: int|
                0 <= i < covered.len() && near(
                    #[trigger] covered[i],
                    laid.before as int,
                    laid.after as int,
                    total,
                    line,
                );
            assert(near(lines_of_key(kept, keys[i]), before, after, total, line));
        }
        if close {
            let i = choose|i: int|
                0 <= i < keys.len() && near(
                    lines_of_key(kept, #[trigger] keys[i]),
                    before,
                    after,
                    total,
                    line,
                );
            assert(near(covered[i], laid.before as int, laid.after as int, total, line));
        }
    }
    assert(free <==> begun.len() == 0 && !layout::holds_line(covered, line)) by {
        if free {
            if begun.len() > 0 {
                values_are_found(pairs, line, begun[0]);
                assert(begun.contains(begun[0]));
                let i = pairs.index_of((line, begun[0]));
                assert(pairs[i] == (lines_of_key(kept, keys[i]).0, keys[i]));
            }
            if layout::holds_line(covered, line) {
                let i = choose|i: int|
                    0 <= i < covered.len() && (#[trigger] covered[i]).0 <= line <= covered[i].1;
                assert(lines_of_key(kept, keys[i]).0 <= line);
            }
        }
        if begun.len() == 0 && !layout::holds_line(covered, line) {
            assert forall|i: int| 0 <= i < keys.len() implies {
                let (first, last) = lines_of_key(kept, #[trigger] keys[i]);
                line != first && !(first <= line <= last)
            } by {
                let (first, last) = lines_of_key(kept, keys[i]);
                if line == first {
                    values_are_found(pairs, line, keys[i]);
                    assert(pairs[i] == (line, keys[i]));
                    assert(begun.contains(keys[i]));
                }
                if first <= line <= last {
                    assert(covered[i].0 <= line <= covered[i].1);
                }
            }
        }
    }
    if at_hand(kept, line) && free {
        assert(shows(line)[0] == context);
        assert(shows(line).contains(context));
    }
    if shows(line).contains(context) {
        let i = shows(line).index_of(context);
        assert(shows(line)[i] == context);
    }
}

/// Whether a pattern names a line feed nowhere: neither as such nor as `\n`.
pub open spec fn names_no_line_feed(pattern: Seq<char>) -> bool {
    forall|i: int|
        0 <= i < pattern.len() ==> #[trigger] pattern[i] != '\n' && !(i > 0 && pattern[i] == 'n'
            && pattern[i - 1] == '\\')
}

/// Across lines, a line feed in a pattern, as such or as `\n`, also matches with a carriage return
/// before it; an escaped backslash stays one, whatever follows it; and a pattern that names no line
/// feed stays as it is.
pub proof fn line_feeds_also_match_with_a_carriage_return(pattern: Seq<char>)
    ensures
        request::multiline_pattern(seq!['\n'] + pattern) == seq!['\\', 'r', '?', '\\', 'n']
            + request::multiline_pattern(pattern),
        request::multiline_pattern(seq!['\\', 'n'] + pattern) == seq![
            '\\',
            'r',
            '?',
            '\\',
            'n',
        ] + request::multiline_pattern(pattern),
        request::multiline_pattern(seq!['\\', '\\'] + pattern) == seq!['\\', '\\']
            + request::multiline_pattern(pattern),
        names_no_line_feed(pattern) ==> request::multiline_pattern(pattern) == pattern,
    decreases pattern.len(),
{
    assert((seq!['\n'] + pattern).skip(1) =~= pattern);
    assert((seq!['\\', 'n'] + pattern).skip(2) =~= pattern);
    assert((seq!['\\', '\\'] + pattern).skip(2) =~= pattern);
    if names_no_line_feed(pattern) {
        if pattern.len() == 0 {
            assert(request::multiline_pattern(pattern) =~= pattern);
        } else {
            assert(pattern[0] != '\n');
            if pattern.len() > 1 {
                assert(!(pattern[1] == 'n' && pattern[0] == '\\'));
            }
            let taken: int = if pattern[0] == '\\' && pattern.len() > 1 && pattern[1] == '\\' {
                2
            } else {
                1
            };
            let rest = pattern.skip(taken);
            assert(names_no_line_feed(rest)) by {
                assert forall|i: int| 0 <= i < rest.len() implies #[trigger] rest[i] != '\n' && !(i
                    > 0 && rest[i] == 'n' && rest[i - 1] == '\\') by {
                    assert(rest[i] == pattern[i + taken]);
                }
            }
            line_feeds_also_match_with_a_carriage_return(rest);
            assert(pattern =~= pattern.take(taken) + rest);
            if taken == 2 {
                assert(pattern.take(2) =~= seq!['\\', '\\']);
            } else {
                assert(pattern.take(1) =~= seq![pattern[0]]);
            }
        }
    }
}

/// An encoding other than UTF-8 is disclosed, by the name that it was read under; that the bytes
/// would be UTF-8 as well is told only of an encoding that was asked for.
pub proof fn other_encodings_are_disclosed(detected: DetectedSpec, warning: bool)
    ensures
        outcome::transcoding(detected, warning) is Some <==> detected.source_encoding is Some,
        detected.source_encoding matches Some(name) ==> {
            let note = outcome::transcoding(detected, warning)->Some_0;
            &&& ("(Note: decoded from "@ + name).is_prefix_of(note)
            &&& !(detected.origin is Explicit) ==> note == "(Note: decoded from "@ + name
                + "; output is UTF-8.)"@
            &&& detected.origin is Explicit && !warning ==> note == "(Note: decoded from "@ + name
                + " as requested; output is UTF-8.)"@
        },
{
    if let Some(name) = detected.source_encoding {
        let note = outcome::transcoding(detected, warning)->Some_0;
        let start = "(Note: decoded from "@ + name;
        assert(note.subrange(0, start.len() as int) =~= start);
    }
}

/// A count, and whether a file is listed, goes by the occurrences in the decoded text: a file without
/// any has no result, and any other one has its path and, where they are counted, their number.
pub proof fn occurrences_are_those_of_the_decoded_text(
    path: Seq<char>,
    content: Seq<u8>,
    matcher: GrepMatcher,
    label: Option<Seq<char>>,
    used_fallback: bool,
    text: Seq<char>,
)
    requires
        pipeline::classify(content, label) is Text,
        pipeline::decoded_content(content, pipeline::classify(content, label)->detected) == Some(
            text,
        ),
    ensures
        ({
            let decision = pipeline::classify(content, label);
            let counted = outcome::text_searched(
                path,
                content,
                matcher,
                GrepSearchPlan::Count,
                decision,
                used_fallback,
            );
            let listed = outcome::text_searched(
                path,
                content,
                matcher,
                GrepSearchPlan::Exists,
                decision,
                used_fallback,
            );
            let walk = reported_of(
                matcher,
                0,
                0,
                content.len() <= MEMORY_SNAPSHOT_LIMIT,
                encode_utf8(text),
            );
            let total = capture_laws::occurrences_in(matcher, walk.events);
            &&& counted matches Ok(found) ==> found.result == if total == 0 {
                None
            } else {
                Some(FileSpec { path, payload: PayloadSpec::Count(total as usize) })
            }
            &&& listed matches Ok(found) ==> found.result == if total == 0 {
                None
            } else {
                Some(FileSpec { path, payload: PayloadSpec::Exists })
            }
        }),
{
    let decision = pipeline::classify(content, label);
    the_decoded_text_is_searched(
        path,
        content,
        matcher,
        GrepSearchPlan::Count,
        label,
        used_fallback,
        text,
    );
    the_decoded_text_is_searched(
        path,
        content,
        matcher,
        GrepSearchPlan::Exists,
        label,
        used_fallback,
        text,
    );
    let walk = reported_of(
        matcher,
        0,
        0,
        content.len() <= MEMORY_SNAPSHOT_LIMIT,
        encode_utf8(text),
    );
    capture_laws::counting_counts_every_occurrence(matcher, walk.events);
    capture_laws::a_file_with_an_occurrence_is_listed(matcher, walk.events);
    uncaptured_text_is_held_as_it_was_read(content, decision->detected);
}

proof fn uncaptured_text_is_held_as_it_was_read(content: Seq<u8>, detected: DetectedSpec)
    ensures
        outcome::walked_in_memory(GrepSearchPlan::Count, content, detected) == (content.len()
            <= MEMORY_SNAPSHOT_LIMIT),
        outcome::walked_in_memory(GrepSearchPlan::Exists, content, detected) == (content.len()
            <= MEMORY_SNAPSHOT_LIMIT),
{
}

/// A captured content is searched under the labels of the request, a changed file is left out for
/// that reason, a binary one gives nothing, and what went wrong while it was read is told of it.
pub proof fn a_candidate_is_searched_under_its_labels(
    matcher: GrepMatcher,
    plan: GrepSearchPlan,
    encoding: SearchEncoding,
    candidate: GrepCandidate,
)
    ensures
        ({
            let searched = run::searched(matcher, plan, encoding, candidate);
            let explicit = match encoding.explicit {
                Some(label) => Some(label@),
                None => None,
            };
            let fallback = match encoding.fallback {
                Some(label) => Some(label@),
                None => None,
            };
            match candidate.capture {
                Ok(CaptureDisposition::Searchable(_)) => searched == outcome::content_searched(
                    candidate.path@,
                    candidate.content@,
                    matcher,
                    plan,
                    explicit,
                    fallback,
                ),
                Ok(CaptureDisposition::BinarySkipped(_)) => searched matches Ok(found)
                    && found.result is None && found.skip is None,
                Ok(CaptureDisposition::EncodingRejected { rejection, .. }) => searched matches Ok(
                    found,
                ) && found.result is None && found.skip == Some(SkipSpec::Encoding(rejection@)),
                Ok(CaptureDisposition::FileChanged) => searched matches Ok(found)
                    && found.result is None && found.skip == Some(SkipSpec::ChangedWhileSearched),
                Err(CaptureFailure::Cancelled) => searched matches Err(failure)
                    && failure is Cancelled,
                Err(CaptureFailure::EpochRetired) => searched matches Err(failure)
                    && failure is EpochRetired,
                Err(CaptureFailure::Io(message)) => searched matches Err(failure) && (failure
                    matches outcome::FailureSpec::Candidate(
                    SkipSpec::SearchFailure { message: told, .. },
                ) && told == message@),
                _ => searched matches Err(failure) && failure is Candidate,
            }
        }),
{
    reveal(run::searched);
}

/// A search is run exactly where its target was found, it names only the encoding that fits its
/// target, its labels select encodings, and its pattern and its name patterns compile.
pub proof fn an_accepted_search_is_sound(
    request: GrepRequest,
    root: Result<SearchRoot, String>,
    glob: Result<(), String>,
)
    ensures
        request::request_error(request, root, glob) is None <==> {
            &&& root matches Ok(target)
            &&& target.is_file ==> request.fallback_encoding is None
            &&& !target.is_file ==> request.encoding is None
            &&& request.encoding matches Some(label) ==> detect::explicit_charset(label@) is Some
            &&& request.fallback_encoding matches Some(label) ==> detect::explicit_charset(
                label@,
            ) is Some
            &&& matcher::matcher_rejection(
                if request.multiline == Some(true) {
                    request::multiline_pattern(request.pattern@)
                } else {
                    request.pattern@
                },
                request.case_insensitive == Some(true),
                request.multiline == Some(true),
            ) is None
            &&& glob is Ok
        },
        root matches Err(message) ==> request::request_error(request, root, glob) == Some(message@),
{
}

} // verus!
