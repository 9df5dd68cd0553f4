//! Writing a page of matches. What does not fit the budget gives way in turn: context lines, then
//! the width of long matches, then entries.

use crate::grep::capture;
use crate::grep::capture::{ContentEntry, ContentPayload, ContentView};
use crate::grep::lines;
use crate::grep::lines::{build_content_plan, PlanLine, PlanOptions, PlannedContentLine};
use crate::grep::outcome;
use crate::grep::outcome::stable_snapshot_error;
use crate::grep::render;
use crate::grep::render::{GrepPage, PageFacts, PageSpec};
use crate::grep::search::{FilePayload, FileResult, FileSpec};
use crate::grep::writing;
use crate::grep::writing::{
    context_prefix, format_context_line, format_match_line, format_only_match, match_prefix,
    MAX_MATCH_CHARS,
};
use crate::model::ToolResponse;
use crate::page;
use crate::page::finish_page;
use crate::paging;
use crate::paging::replay_compat_binary_probes;
use crate::text;
use crate::text::{chars_of, utf8_string};
use vstd::prelude::*;
use vstd::slice::{slice_subrange, slice_to_vec};
use vstd::string::*;
use vstd::utf8::*;

verus! {

/// What is wrong with a line of a page.
#[derive(Clone, Copy, Debug, PartialEq, Eq, Structural)]
pub enum FaultKind {
    MissingContext,
    MissingMatch,
    MissingOccurrence,
    Unreadable,
}

/// A line of a page that cannot be written.
#[derive(Clone, Copy, Debug, PartialEq, Eq, Structural)]
pub struct RenderFault {
    pub file_index: usize,
    pub kind: FaultKind,
}

/// The fault in words.
pub open spec fn fault_words(kind: FaultKind) -> Seq<char> {
    match kind {
        FaultKind::MissingContext => "captured context line is missing"@,
        FaultKind::MissingMatch => "captured matching line is missing"@,
        FaultKind::MissingOccurrence => "captured occurrence is missing"@,
        FaultKind::Unreadable => "captured text range is unreadable"@,
    }
}

fn words_of(kind: FaultKind) -> (words: &'static str)
    ensures
        words@ == fault_words(kind),
{
    match kind {
        FaultKind::MissingContext => "captured context line is missing",
        FaultKind::MissingMatch => "captured matching line is missing",
        FaultKind::MissingOccurrence => "captured occurrence is missing",
        FaultKind::Unreadable => "captured text range is unreadable",
    }
}

/// The characters of a range of a text; `None` for a range that is none of its characters.
pub open spec fn text_at(text: Seq<u8>, range: (u64, u64)) -> Option<Seq<char>> {
    if range.0 <= range.1 && range.1 <= text.len() && valid_utf8(
        text.subrange(range.0 as int, range.1 as int),
    ) {
        Some(decode_utf8(text.subrange(range.0 as int, range.1 as int)))
    } else {
        None
    }
}

fn chars_at(text: &Vec<u8>, range: (u64, u64)) -> (chars: Option<Vec<char>>)
    ensures
        match chars {
            Some(chars) => text_at(text@, range) == Some(chars@),
            None => text_at(text@, range) is None,
        },
{
    if range.0 > range.1 || range.1 > text.len() as u64 {
        return None;
    }
    let part = slice_subrange(text.as_slice(), range.0 as usize, range.1 as usize);
    match utf8_string(slice_to_vec(part)) {
        Some(found) => Some(chars_of(found.as_str())),
        None => None,
    }
}

/// Where the text of a line lies; the empty line behind the last line feed lies nowhere.
pub open spec fn line_range(content: ContentView, line: u64) -> Option<Option<(u64, u64)>> {
    if content.lines.contains_key(line) {
        Some(Some(content.lines[line]))
    } else if line == content.total_lines && content.has_trailing_newline {
        Some(None)
    } else {
        None
    }
}

fn result_line(content: &ContentPayload, line: u64) -> (range: Option<Option<(u64, u64)>>)
    ensures
        range == line_range(content@, line),
{
    match content.lines.get(&line) {
        Some(range) => Some(Some(*range)),
        None => if line == content.total_lines as u64 && content.has_trailing_newline {
            Some(None)
        } else {
            None
        },
    }
}

/// The length in bytes and the characters of a line.
pub open spec fn line_text(
    content: ContentView,
    line: u64,
    missing: FaultKind,
) -> Result<(usize, Seq<char>), FaultKind> {
    match line_range(content, line) {
        None => Err(missing),
        Some(None) => Ok((0, Seq::empty())),
        Some(Some(range)) => match text_at(content.text, range) {
            Some(chars) => Ok((capture::range_len(range), chars)),
            None => Err(FaultKind::Unreadable),
        },
    }
}

fn read_line(content: &ContentPayload, line: u64, missing: FaultKind) -> (result: Result<
    (usize, Vec<char>),
    FaultKind,
>)
    ensures
        match result {
            Ok((bytes, chars)) => line_text(content@, line, missing) == Ok::<
                (usize, Seq<char>),
                FaultKind,
            >((bytes, chars@)),
            Err(kind) => line_text(content@, line, missing) == Err::<
                (usize, Seq<char>),
                FaultKind,
            >(kind),
        },
{
    match result_line(content, line) {
        None => Err(missing),
        Some(None) => {
            let chars: Vec<char> = Vec::new();
            assert(chars@ =~= Seq::<char>::empty());
            Ok((0, chars))
        },
        Some(Some(range)) => match chars_at(&content.text, range) {
            Some(chars) => {
                let bytes = capture::len_of_range(range);
                Ok((bytes, chars))
            },
            None => Err(FaultKind::Unreadable),
        },
    }
}

/// A matched text.
pub open spec fn matched_text(content: ContentView, start_line: u64, index: usize) -> Result<
    Seq<char>,
    FaultKind,
> {
    if !lines::key_known(content, (start_line, index)) {
        Err(FaultKind::MissingOccurrence)
    } else {
        match content.occurrences[start_line][index as int].matched_text {
            None => Ok(Seq::empty()),
            Some(range) => match text_at(content.text, range) {
                Some(chars) => Ok(chars),
                None => Err(FaultKind::Unreadable),
            },
        }
    }
}

fn read_match(content: &ContentPayload, start_line: u64, index: usize) -> (result: Result<
    Vec<char>,
    FaultKind,
>)
    ensures
        match result {
            Ok(chars) => matched_text(content@, start_line, index) == Ok::<Seq<char>, FaultKind>(
                chars@,
            ),
            Err(kind) => matched_text(content@, start_line, index) == Err::<Seq<char>, FaultKind>(
                kind,
            ),
        },
{
    let there = match content.occurrences.get(&start_line) {
        Some(there) => there,
        None => {
            return Err(FaultKind::MissingOccurrence);
        },
    };
    assert(content@.occurrences[start_line] == capture::occurrence_views(there@));
    if index >= there.len() {
        return Err(FaultKind::MissingOccurrence);
    }
    assert(content@.occurrences[start_line][index as int] == there@[index as int]@);
    match there[index].matched_text {
        None => {
            let chars: Vec<char> = Vec::new();
            assert(chars@ =~= Seq::<char>::empty());
            Ok(chars)
        },
        Some(range) => match chars_at(&content.text, range) {
            Some(chars) => Ok(chars),
            None => Err(FaultKind::Unreadable),
        },
    }
}

/// A line of a page in writing.
pub open spec fn written(
    files: Seq<FileSpec>,
    line: PlanLine,
    numbers: bool,
    window: usize,
) -> Result<Seq<char>, RenderFault> {
    match line {
        PlanLine::Empty => Ok(""@),
        PlanLine::Header(file_index) => Ok(files[file_index as int].path),
        PlanLine::Separator => Ok("--"@),
        PlanLine::Context { file_index, line_number } => match line_text(
            lines::content_of(files[file_index as int]),
            line_number,
            FaultKind::MissingContext,
        ) {
            Ok((bytes, chars)) => Ok(
                writing::context_line(
                    writing::line_prefix(line_number, "-"@, numbers),
                    bytes,
                    chars,
                ),
            ),
            Err(kind) => Err(RenderFault { file_index, kind }),
        },
        PlanLine::Match { file_index, line_number, spans } => match line_text(
            lines::content_of(files[file_index as int]),
            line_number,
            FaultKind::MissingMatch,
        ) {
            Ok((bytes, chars)) => Ok(
                writing::match_line(
                    writing::line_prefix(line_number, ":"@, numbers),
                    bytes,
                    chars,
                    spans,
                    window,
                ),
            ),
            Err(kind) => Err(RenderFault { file_index, kind }),
        },
        PlanLine::OnlyMatch { file_index, start_line, occurrence_index, output_line } =>
            match matched_text(
            lines::content_of(files[file_index as int]),
            start_line,
            occurrence_index,
        ) {
            Ok(chars) => Ok(
                writing::only_match(
                    writing::line_prefix(output_line, ":"@, numbers),
                    chars,
                    window,
                ),
            ),
            Err(kind) => Err(RenderFault { file_index, kind }),
        },
    }
}

/// The lines of a page in writing, or the first that cannot be written.
pub open spec fn written_all(
    files: Seq<FileSpec>,
    plan: Seq<PlanLine>,
    numbers: bool,
    window: usize,
) -> Result<Seq<Seq<char>>, RenderFault>
    decreases plan.len(),
{
    if plan.len() == 0 {
        Ok(Seq::empty())
    } else {
        match written_all(files, plan.drop_last(), numbers, window) {
            Err(fault) => Err(fault),
            Ok(before) => match written(files, plan.last(), numbers, window) {
                Err(fault) => Err(fault),
                Ok(line) => Ok(before.push(line)),
            },
        }
    }
}

/// Whether a line of a page belongs to a captured file.
pub open spec fn line_placed(files: Seq<FileSpec>, line: PlanLine) -> bool {
    match line {
        PlanLine::Empty | PlanLine::Separator => true,
        PlanLine::Header(file_index) => file_index < files.len(),
        PlanLine::Context { file_index, .. } => file_index < files.len()
            && files[file_index as int].payload is Content,
        PlanLine::Match { file_index, .. } => file_index < files.len()
            && files[file_index as int].payload is Content,
        PlanLine::OnlyMatch { file_index, .. } => file_index < files.len()
            && files[file_index as int].payload is Content,
    }
}

/// Whether every line of a page belongs to a captured file.
pub open spec fn all_placed(files: Seq<FileSpec>, plan: Seq<PlanLine>) -> bool {
    forall|i: int| 0 <= i < plan.len() ==> line_placed(files, #[trigger] plan[i])
}

fn content_at(results: &Vec<FileResult>, file_index: usize) -> (content: &ContentPayload)
    requires
        file_index < results@.len(),
        lines::result_views(results@)[file_index as int].payload is Content,
    ensures
        content@ == lines::content_of(lines::result_views(results@)[file_index as int]),
{
    assert(lines::result_views(results@)[file_index as int] == results@[file_index as int]@);
    match &results[file_index].payload {
        FilePayload::Content(content) => content,
        _ => vstd::pervasive::unreached(),
    }
}

fn write_line(
    results: &Vec<FileResult>,
    line: &PlannedContentLine,
    numbers: bool,
    window: usize,
) -> (result: Result<String, RenderFault>)
    requires
        line_placed(lines::result_views(results@), line@),
    ensures
        match result {
            Ok(text) => written(lines::result_views(results@), line@, numbers, window) == Ok::<
                Seq<char>,
                RenderFault,
            >(text@),
            Err(fault) => written(lines::result_views(results@), line@, numbers, window) == Err::<
                Seq<char>,
                RenderFault,
            >(fault),
        },
{
    match line {
        PlannedContentLine::Empty => Ok("".to_owned()),
        PlannedContentLine::Header(file_index) => {
            assert(lines::result_views(results@)[*file_index as int]
                == results@[*file_index as int]@);
            Ok(results[*file_index].path.as_str().to_owned())
        },
        PlannedContentLine::Separator => Ok("--".to_owned()),
        PlannedContentLine::Context { file_index, line_number } => {
            let content = content_at(results, *file_index);
            match read_line(content, *line_number, FaultKind::MissingContext) {
                Ok((bytes, chars)) => Ok(
                    format_context_line(
                        context_prefix(*line_number, numbers),
                        bytes,
                        chars.as_slice(),
                    ),
                ),
                Err(kind) => Err(RenderFault { file_index: *file_index, kind }),
            }
        },
        PlannedContentLine::Match { file_index, line_number, spans } => {
            let content = content_at(results, *file_index);
            match read_line(content, *line_number, FaultKind::MissingMatch) {
                Ok((bytes, chars)) => Ok(
                    format_match_line(
                        match_prefix(*line_number, numbers),
                        bytes,
                        chars.as_slice(),
                        spans,
                        window,
                    ),
                ),
                Err(kind) => Err(RenderFault { file_index: *file_index, kind }),
            }
        },
        PlannedContentLine::OnlyMatch { file_index, start_line, occurrence_index, output_line } => {
            let content = content_at(results, *file_index);
            match read_match(content, *start_line, *occurrence_index) {
                Ok(chars) => Ok(
                    format_only_match(
                        match_prefix(*output_line, numbers),
                        chars.as_slice(),
                        window,
                    ),
                ),
                Err(kind) => Err(RenderFault { file_index: *file_index, kind }),
            }
        },
    }
}

proof fn failed_lines_stay(
    files: Seq<FileSpec>,
    plan: Seq<PlanLine>,
    numbers: bool,
    window: usize,
    count: int,
)
    requires
        0 <= count <= plan.len(),
        written_all(files, plan.take(count), numbers, window) is Err,
    ensures
        written_all(files, plan, numbers, window) == written_all(
            files,
            plan.take(count),
            numbers,
            window,
        ),
    decreases plan.len(),
{
    if count == plan.len() {
        assert(plan.take(count) =~= plan);
    } else {
        assert(plan.drop_last().take(count) =~= plan.take(count));
        failed_lines_stay(files, plan.drop_last(), numbers, window, count);
    }
}

/// Writes the lines of a page.
pub fn write_lines(
    results: &Vec<FileResult>,
    plan: &Vec<PlannedContentLine>,
    numbers: bool,
    window: usize,
) -> (result: Result<Vec<String>, RenderFault>)
    requires
        all_placed(lines::result_views(results@), lines::plan_views(plan@)),
    ensures
        match result {
            Ok(texts) => written_all(
                lines::result_views(results@),
                lines::plan_views(plan@),
                numbers,
                window,
            ) == Ok::<Seq<Seq<char>>, RenderFault>(text::views(texts@)),
            Err(fault) => written_all(
                lines::result_views(results@),
                lines::plan_views(plan@),
                numbers,
                window,
            ) == Err::<Seq<Seq<char>>, RenderFault>(fault),
        },
{
    let ghost files = lines::result_views(results@);
    let ghost all = lines::plan_views(plan@);
    let mut texts: Vec<String> = Vec::new();
    let mut index: usize = 0;
    assert(text::views(texts@) =~= Seq::<Seq<char>>::empty());
    assert(all.take(0) =~= Seq::<PlanLine>::empty());
    while index < plan.len()
        invariant
            index <= plan.len(),
            files == lines::result_views(results@),
            all == lines::plan_views(plan@),
            all_placed(files, all),
            written_all(files, all.take(index as int), numbers, window) == Ok::<
                Seq<Seq<char>>,
                RenderFault,
            >(text::views(texts@)),
        decreases plan.len() - index,
    {
        proof {
            assert(all.take(index + 1).drop_last() =~= all.take(index as int));
            assert(all.take(index + 1).last() == all[index as int]);
            assert(all[index as int] == plan@[index as int]@);
        }
        match write_line(results, &plan[index], numbers, window) {
            Ok(line) => {
                let ghost before = texts@;
                let ghost shown = line@;
                texts.push(line);
                assert(text::views(texts@) =~= text::views(before).push(shown));
            },
            Err(fault) => {
                proof {
                    failed_lines_stay(files, all, numbers, window, index + 1);
                }
                return Err(fault);
            },
        }
        index += 1;
    }
    assert(all.take(plan@.len() as int) =~= all);
    Ok(texts)
}

proof fn block_placed(
    files: Seq<FileSpec>,
    line: spec_fn(u64) -> Seq<PlanLine>,
    start: int,
    end: int,
)
    requires
        forall|number: u64| all_placed(files, #[trigger] line(number)),
    ensures
        all_placed(files, lines::block_lines(line, start, end)),
    decreases end - start + 1,
{
    if start <= end {
        block_placed(files, line, start, end - 1);
        assert(all_placed(files, line(end as u64)));
    }
}

proof fn blocks_placed(
    files: Seq<FileSpec>,
    line: spec_fn(u64) -> Seq<PlanLine>,
    ranges: Seq<(u64, u64)>,
)
    requires
        forall|number: u64| all_placed(files, #[trigger] line(number)),
    ensures
        all_placed(files, lines::blocks(line, ranges)),
    decreases ranges.len(),
{
    if ranges.len() > 0 {
        blocks_placed(files, line, ranges.drop_last());
        block_placed(files, line, ranges.last().0 as int, ranges.last().1 as int);
    }
}

proof fn group_placed(
    files: Seq<FileSpec>,
    group: (usize, Seq<ContentEntry>),
    options: PlanOptions,
)
    requires
        group.0 < files.len(),
        files[group.0 as int].payload is Content,
    ensures
        all_placed(files, lines::file_group(files, group, options)),
{
    let content = lines::content_of(files[group.0 as int]);
    let keys = lines::keys_of_all(content, group.1);
    let only = lines::only_line(group.0, content, keys);
    let matching = lines::matching_line(group.0, content, group.1);
    assert forall|number: u64| all_placed(files, #[trigger] only(number)) by {}
    assert forall|number: u64| all_placed(files, #[trigger] matching(number)) by {}
    blocks_placed(
        files,
        only,
        crate::grep::ranges::merged(
            lines::context_ranges(
                content,
                lines::covered_ranges(content, keys),
                options.before,
                options.after,
            ),
        ),
    );
    blocks_placed(
        files,
        matching,
        crate::grep::ranges::merged(
            lines::context_ranges(
                content,
                lines::entry_ranges(content, group.1),
                options.before,
                options.after,
            ),
        ),
    );
}

proof fn groups_placed(
    files: Seq<FileSpec>,
    groups: Seq<(usize, Seq<ContentEntry>)>,
    options: PlanOptions,
)
    requires
        forall|i: int|
            0 <= i < groups.len() ==> (#[trigger] groups[i]).0 < files.len()
                && files[groups[i].0 as int].payload is Content,
    ensures
        all_placed(files, lines::file_groups(files, groups, options)),
    decreases groups.len(),
{
    if groups.len() > 0 {
        let rest = groups.drop_last();
        assert forall|i: int| 0 <= i < rest.len() implies (#[trigger] rest[i]).0 < files.len()
            && files[rest[i].0 as int].payload is Content by {
            assert(rest[i] == groups[i]);
        }
        groups_placed(files, rest, options);
        assert(groups[groups.len() - 1] == groups.last());
        group_placed(files, groups.last(), options);
    }
}

proof fn grouped_files_known(files: Seq<FileSpec>, selected: Seq<(usize, ContentEntry)>)
    requires
        lines::selection_known(files, selected),
    ensures
        forall|i: int|
            0 <= i < lines::by_file(selected).len() ==> (
            #[trigger] lines::by_file(selected)[i]).0 < files.len()
                && files[lines::by_file(selected)[i].0 as int].payload is Content,
    decreases selected.len(),
{
    if selected.len() > 0 {
        let rest = selected.drop_last();
        assert(lines::selection_known(files, rest)) by {
            assert forall|i: int| 0 <= i < rest.len() implies {
                let (file, entry) = #[trigger] rest[i];
                &&& file < files.len()
                &&& files[file as int].payload is Content
                &&& capture::known(lines::content_of(files[file as int]).occurrences, entry)
                &&& capture::rising(lines::content_of(files[file as int]).occurrences)
            } by {
                assert(rest[i] == selected[i]);
            }
        }
        grouped_files_known(files, rest);
        assert(selected[selected.len() - 1] == selected.last());
        let before = lines::by_file(rest);
        let now = lines::by_file(selected);
        assert forall|i: int| 0 <= i < now.len() implies (#[trigger] now[i]).0 < files.len()
            && files[now[i].0 as int].payload is Content by {
            if i < before.len() - 1 {
                assert(now[i] == before[i]);
            } else if i < before.len() {
                assert(before[i].0 < files.len());
            }
        }
    }
}

/// Every line of a page belongs to a captured file.
proof fn plan_placed(
    files: Seq<FileSpec>,
    selected: Seq<(usize, ContentEntry)>,
    options: PlanOptions,
)
    requires
        lines::selection_known(files, selected),
    ensures
        all_placed(files, lines::content_plan(files, selected, options)),
{
    grouped_files_known(files, selected);
    groups_placed(files, lines::by_file(selected), options);
}

/// How a page of matches is written.
#[derive(Clone, Copy, Debug)]
pub struct ContentOptions {
    /// Show line numbers.
    pub numbers: bool,
    /// Show only the matched texts.
    pub only_matching: bool,
    /// The lines of context that are asked for, before and after.
    pub context: (usize, usize),
}

/// A form of a page: how many entries, how much context, and how wide a window.
pub type Choice = (usize, usize, usize);

/// The greatest depth of context that makes a difference.
pub open spec fn depth_of(options: ContentOptions) -> usize {
    render::greater(options.context.0, options.context.1)
}

/// How a form of a page is laid out.
pub open spec fn layout_of(page: PageFacts, options: ContentOptions, depth: usize) -> PlanOptions {
    PlanOptions {
        before: writing::lesser(options.context.0, depth),
        after: writing::lesser(options.context.1, depth),
        only_matching: options.only_matching,
        single_file: page.single_file_target,
    }
}

/// The lines of a form of a page.
pub open spec fn form_lines(
    page: PageFacts,
    files: Seq<FileSpec>,
    selected: Seq<(usize, ContentEntry)>,
    options: ContentOptions,
    form: Choice,
) -> Result<Seq<Seq<char>>, RenderFault> {
    written_all(
        files,
        lines::content_plan(
            files,
            selected.take(form.0 as int),
            layout_of(page, options, form.1),
        ),
        options.numbers,
        form.2,
    )
}

/// A form of a page if it fits, without lines on what was left out.
#[verifier::opaque]
pub open spec fn attempted(
    page: PageFacts,
    files: Seq<FileSpec>,
    selected: Seq<(usize, ContentEntry)>,
    options: ContentOptions,
    form: Choice,
    cost: spec_fn(Seq<char>) -> nat,
) -> Result<Option<Choice>, RenderFault> {
    match form_lines(page, files, selected, options, form) {
        Err(fault) => Err(fault),
        Ok(body) => if cost(page.units.page(page.note(form.0, "matches"@), body, 0))
            <= page.budget {
            Ok(Some(form))
        } else {
            Ok(None)
        },
    }
}

/// The form with as much context as the search settles on.
pub open spec fn deepened(
    page: PageFacts,
    files: Seq<FileSpec>,
    selected: Seq<(usize, ContentEntry)>,
    options: ContentOptions,
    bare: Choice,
    cost: spec_fn(Seq<char>) -> nat,
) -> Result<Option<Choice>, RenderFault> {
    paging::probed(
        0,
        depth_of(options) as int,
        Some(bare),
        |depth: int|
            attempted(
                page,
                files,
                selected,
                options,
                (bare.0, depth as usize, MAX_MATCH_CHARS),
                cost,
            ),
    )
}

/// The form without context and with as wide a window as the search settles on.
pub open spec fn narrowed(
    page: PageFacts,
    files: Seq<FileSpec>,
    selected: Seq<(usize, ContentEntry)>,
    options: ContentOptions,
    shown: usize,
    cost: spec_fn(Seq<char>) -> nat,
) -> Result<Option<Choice>, RenderFault> {
    paging::probed(
        1,
        MAX_MATCH_CHARS - 1,
        None,
        |window: int|
            attempted(page, files, selected, options, (shown, 0, window as usize), cost),
    )
}

/// The form of a page with so many entries: with all context and full matches; else with as much
/// context as the search settles on; else without context and with as wide a window as it
/// settles on.
#[verifier::opaque]
pub open spec fn degraded(
    page: PageFacts,
    files: Seq<FileSpec>,
    selected: Seq<(usize, ContentEntry)>,
    options: ContentOptions,
    shown: usize,
    cost: spec_fn(Seq<char>) -> nat,
) -> Result<Option<Choice>, RenderFault> {
    let deep = (shown, depth_of(options), MAX_MATCH_CHARS);
    let bare = (shown, 0, MAX_MATCH_CHARS);
    match attempted(page, files, selected, options, deep, cost) {
        Err(fault) => Err(fault),
        Ok(Some(form)) => Ok(Some(form)),
        Ok(None) => match attempted(page, files, selected, options, bare, cost) {
            Err(fault) => Err(fault),
            Ok(Some(form)) => deepened(page, files, selected, options, form, cost),
            Ok(None) => narrowed(page, files, selected, options, shown, cost),
        },
    }
}

/// The form of a page with as many of the entries as fit.
pub open spec fn fitted(
    page: PageFacts,
    files: Seq<FileSpec>,
    selected: Seq<(usize, ContentEntry)>,
    options: ContentOptions,
    maximum: usize,
    cost: spec_fn(Seq<char>) -> nat,
) -> Result<Option<Choice>, RenderFault> {
    if maximum == 0 {
        Ok(None)
    } else {
        match degraded(page, files, selected, options, maximum, cost) {
            Err(fault) => Err(fault),
            Ok(Some(form)) => Ok(Some(form)),
            Ok(None) => paging::probed(
                1,
                maximum - 1,
                None,
                |middle: int|
                    degraded(page, files, selected, options, middle as usize, cost),
            ),
        }
    }
}

/// The page of matches.
pub open spec fn content_page(
    page: PageFacts,
    files: Seq<FileSpec>,
    selected: Seq<(usize, ContentEntry)>,
    options: ContentOptions,
    cost: spec_fn(Seq<char>) -> nat,
) -> PageSpec {
    let maximum = render::initial_shown(page.head_limit, selected.len());
    match fitted(page, files, selected, options, maximum, cost) {
        Err(fault) => PageSpec::Error(
            outcome::snapshot_message(
                files[fault.file_index as int].path,
                fault_words(fault.kind),
            ),
        ),
        Ok(None) => PageSpec::Error(page.too_small()),
        Ok(Some(form)) => match form_lines(page, files, selected, options, form) {
            Err(fault) => PageSpec::Error(
                outcome::snapshot_message(
                    files[fault.file_index as int].path,
                    fault_words(fault.kind),
                ),
            ),
            Ok(body) => match page::finished(
                page.units,
                page.note(form.0, "matches"@),
                body,
                page.budget as nat,
                cost,
            ) {
                Some(text) => PageSpec::Text(text),
                None => PageSpec::Error(page.too_small()),
            },
        },
    }
}

fn lesser_of(left: usize, right: usize) -> (result: usize)
    ensures
        result == writing::lesser(left, right),
{
    if left < right {
        left
    } else {
        right
    }
}

proof fn fault_is_placed(
    files: Seq<FileSpec>,
    plan: Seq<PlanLine>,
    numbers: bool,
    window: usize,
)
    requires
        all_placed(files, plan),
    ensures
        written_all(files, plan, numbers, window) matches Err(fault) ==> fault.file_index
            < files.len(),
    decreases plan.len(),
{
    if plan.len() > 0 {
        let rest = plan.drop_last();
        assert forall|i: int| 0 <= i < rest.len() implies line_placed(files, #[trigger] rest[i]) by {
            assert(rest[i] == plan[i]);
        }
        fault_is_placed(files, rest, numbers, window);
        assert(line_placed(files, plan[plan.len() - 1]));
    }
}

/// Writes the lines of a form of a page.
fn write_form(
    page: &GrepPage,
    results: &Vec<FileResult>,
    selected: &Vec<(usize, ContentEntry)>,
    options: ContentOptions,
    form: Choice,
) -> (result: Result<Vec<String>, RenderFault>)
    requires
        form.0 <= selected@.len(),
        lines::selection_known(lines::result_views(results@), selected@),
    ensures
        match result {
            Ok(body) => form_lines(
                page@,
                lines::result_views(results@),
                selected@,
                options,
                form,
            ) == Ok::<Seq<Seq<char>>, RenderFault>(text::views(body@)),
            Err(fault) => fault.file_index < results@.len() && form_lines(
                page@,
                lines::result_views(results@),
                selected@,
                options,
                form,
            ) == Err::<Seq<Seq<char>>, RenderFault>(fault),
        },
{
    let plan_options = PlanOptions {
        before: lesser_of(options.context.0, form.1),
        after: lesser_of(options.context.1, form.1),
        only_matching: options.only_matching,
        single_file: page.single_file_target,
    };
    let plan = build_content_plan(results, selected, form.0, plan_options);
    proof {
        let files = lines::result_views(results@);
        let part = selected@.take(form.0 as int);
        assert(lines::selection_known(files, part)) by {
            assert forall|i: int| 0 <= i < part.len() implies {
                let (file, entry) = #[trigger] part[i];
                &&& file < files.len()
                &&& files[file as int].payload is Content
                &&& capture::known(lines::content_of(files[file as int]).occurrences, entry)
                &&& capture::rising(lines::content_of(files[file as int]).occurrences)
            } by {
                assert(part[i] == selected@[i]);
            }
        }
        plan_placed(files, part, plan_options);
        fault_is_placed(files, lines::plan_views(plan@), options.numbers, form.2);
    }
    write_lines(results, &plan, options.numbers, form.2)
}

fn attempt<F: Fn(&str) -> usize + Copy>(
    page: &GrepPage,
    results: &Vec<FileResult>,
    selected: &Vec<(usize, ContentEntry)>,
    options: ContentOptions,
    form: Choice,
    estimate: F,
) -> (result: Result<Option<Choice>, RenderFault>)
    requires
        page.units@.wf(),
        form.0 <= selected@.len(),
        lines::selection_known(lines::result_views(results@), selected@),
        forall|text: &str| #[trigger] call_requires(estimate, (text,)),
    ensures
        forall|cost: spec_fn(Seq<char>) -> nat| #[trigger]
            paging::estimates(estimate, cost) ==> result == attempted(
                page@,
                lines::result_views(results@),
                selected@,
                options,
                form,
                cost,
            ),
        result matches Ok(Some(found)) ==> found == form,
        result matches Err(fault) ==> fault.file_index < results@.len(),
{
    reveal(attempted);
    match write_form(page, results, selected, options, form) {
        Err(fault) => Err(fault),
        Ok(body) => {
            let note = page.paged_note(form.0, "matches");
            let count = body.len();
            let written = page.units.write(&note, &body, count, 0);
            let page_text = written.as_str();
            let tokens = estimate(page_text);
            proof {
                assert(text::views(body@).take(count as int) =~= text::views(body@));
                assert(call_ensures(estimate, (page_text,), tokens));
            }
            if tokens <= page.budget {
                Ok(Some(form))
            } else {
                Ok(None)
            }
        },
    }
}

fn deepen<F: Fn(&str) -> usize + Copy>(
    page: &GrepPage,
    results: &Vec<FileResult>,
    selected: &Vec<(usize, ContentEntry)>,
    options: ContentOptions,
    bare: Choice,
    deep: usize,
    estimate: F,
) -> (result: Result<Option<Choice>, RenderFault>)
    requires
        page.units@.wf(),
        deep == depth_of(options),
        bare.0 <= selected@.len(),
        lines::selection_known(lines::result_views(results@), selected@),
        forall|text: &str| #[trigger] call_requires(estimate, (text,)),
    ensures
        forall|cost: spec_fn(Seq<char>) -> nat| #[trigger]
            paging::estimates(estimate, cost) ==> result == deepened(
                page@,
                lines::result_views(results@),
                selected@,
                options,
                bare,
                cost,
            ),
        result matches Ok(Some(form)) ==> form.0 == bare.0,
        result matches Err(fault) ==> fault.file_index < results@.len(),
{
    let probe = |depth: usize| -> (answer: Result<Option<Choice>, RenderFault>)
        ensures
            forall|cost: spec_fn(Seq<char>) -> nat| #[trigger]
                paging::estimates(estimate, cost) ==> answer == attempted(
                    page@,
                    lines::result_views(results@),
                    selected@,
                    options,
                    (bare.0, depth, MAX_MATCH_CHARS),
                    cost,
                ),
            answer matches Ok(Some(found)) ==> found.0 == bare.0,
            answer matches Err(fault) ==> fault.file_index < results@.len(),
        {
            attempt(page, results, selected, options, (bare.0, depth, MAX_MATCH_CHARS), estimate)
        };
    let result = replay_compat_binary_probes(0, deep, Some(bare), &probe);
    proof {
        let files = lines::result_views(results@);
        assert forall|cost: spec_fn(Seq<char>) -> nat| #[trigger]
            paging::estimates(estimate, cost) implies result == deepened(
            page@,
            files,
            selected@,
            options,
            bare,
            cost,
        ) by {
            let answer = |depth: int|
                attempted(
                    page@,
                    files,
                    selected@,
                    options,
                    (bare.0, depth as usize, MAX_MATCH_CHARS),
                    cost,
                );
            assert(paging::describes(probe, answer));
        }
    }
    result
}

fn narrow<F: Fn(&str) -> usize + Copy>(
    page: &GrepPage,
    results: &Vec<FileResult>,
    selected: &Vec<(usize, ContentEntry)>,
    options: ContentOptions,
    shown: usize,
    estimate: F,
) -> (result: Result<Option<Choice>, RenderFault>)
    requires
        page.units@.wf(),
        shown <= selected@.len(),
        lines::selection_known(lines::result_views(results@), selected@),
        forall|text: &str| #[trigger] call_requires(estimate, (text,)),
    ensures
        forall|cost: spec_fn(Seq<char>) -> nat| #[trigger]
            paging::estimates(estimate, cost) ==> result == narrowed(
                page@,
                lines::result_views(results@),
                selected@,
                options,
                shown,
                cost,
            ),
        result matches Ok(Some(form)) ==> form.0 == shown,
        result matches Err(fault) ==> fault.file_index < results@.len(),
{
    let probe = |window: usize| -> (answer: Result<Option<Choice>, RenderFault>)
        ensures
            forall|cost: spec_fn(Seq<char>) -> nat| #[trigger]
                paging::estimates(estimate, cost) ==> answer == attempted(
                    page@,
                    lines::result_views(results@),
                    selected@,
                    options,
                    (shown, 0, window),
                    cost,
                ),
            answer matches Ok(Some(found)) ==> found.0 == shown,
            answer matches Err(fault) ==> fault.file_index < results@.len(),
        { attempt(page, results, selected, options, (shown, 0, window), estimate) };
    let result = replay_compat_binary_probes(1, MAX_MATCH_CHARS - 1, None, &probe);
    proof {
        let files = lines::result_views(results@);
        assert forall|cost: spec_fn(Seq<char>) -> nat| #[trigger]
            paging::estimates(estimate, cost) implies result == narrowed(
            page@,
            files,
            selected@,
            options,
            shown,
            cost,
        ) by {
            let answer = |window: int|
                attempted(page@, files, selected@, options, (shown, 0, window as usize), cost);
            assert(paging::describes(probe, answer));
        }
    }
    result
}

/// Finds the form of a page with so many entries.
fn render_content_page_with_degradation<F: Fn(&str) -> usize + Copy>(
    page: &GrepPage,
    results: &Vec<FileResult>,
    selected: &Vec<(usize, ContentEntry)>,
    options: ContentOptions,
    shown: usize,
    estimate: F,
) -> (result: Result<Option<Choice>, RenderFault>)
    requires
        page.units@.wf(),
        shown <= selected@.len(),
        lines::selection_known(lines::result_views(results@), selected@),
        forall|text: &str| #[trigger] call_requires(estimate, (text,)),
    ensures
        forall|cost: spec_fn(Seq<char>) -> nat| #[trigger]
            paging::estimates(estimate, cost) ==> result == degraded(
                page@,
                lines::result_views(results@),
                selected@,
                options,
                shown,
                cost,
            ),
        result matches Ok(Some(form)) ==> form.0 == shown,
        result matches Err(fault) ==> fault.file_index < results@.len(),
{
    reveal(degraded);
    let deep = if options.context.0 < options.context.1 {
        options.context.1
    } else {
        options.context.0
    };
    match attempt(page, results, selected, options, (shown, deep, MAX_MATCH_CHARS), estimate) {
        Err(fault) => Err(fault),
        Ok(Some(form)) => Ok(Some(form)),
        Ok(None) => match attempt(
            page,
            results,
            selected,
            options,
            (shown, 0, MAX_MATCH_CHARS),
            estimate,
        ) {
            Err(fault) => Err(fault),
            Ok(Some(form)) => deepen(page, results, selected, options, form, deep, estimate),
            Ok(None) => narrow(page, results, selected, options, shown, estimate),
        },
    }
}

/// Finds the form of a page with as many of the entries as fit.
fn fit_largest_content_output<F: Fn(&str) -> usize + Copy>(
    page: &GrepPage,
    results: &Vec<FileResult>,
    selected: &Vec<(usize, ContentEntry)>,
    options: ContentOptions,
    maximum: usize,
    estimate: F,
) -> (result: Result<Option<Choice>, RenderFault>)
    requires
        page.units@.wf(),
        maximum <= selected@.len(),
        lines::selection_known(lines::result_views(results@), selected@),
        forall|text: &str| #[trigger] call_requires(estimate, (text,)),
    ensures
        forall|cost: spec_fn(Seq<char>) -> nat| #[trigger]
            paging::estimates(estimate, cost) ==> result == fitted(
                page@,
                lines::result_views(results@),
                selected@,
                options,
                maximum,
                cost,
            ),
        result matches Ok(Some(form)) ==> form.0 <= selected@.len(),
        result matches Err(fault) ==> fault.file_index < results@.len(),
{
    if maximum == 0 {
        return Ok(None);
    }
    match render_content_page_with_degradation(
        page,
        results,
        selected,
        options,
        maximum,
        estimate,
    ) {
        Err(fault) => {
            return Err(fault);
        },
        Ok(Some(form)) => {
            return Ok(Some(form));
        },
        Ok(None) => {},
    }
    let ghost files = lines::result_views(results@);
    let probe = |middle: usize| -> (answer: Result<Option<Choice>, RenderFault>)
        requires
            middle <= maximum,
        ensures
            forall|cost: spec_fn(Seq<char>) -> nat| #[trigger]
                paging::estimates(estimate, cost) ==> answer == degraded(
                    page@,
                    lines::result_views(results@),
                    selected@,
                    options,
                    middle,
                    cost,
                ),
            answer matches Ok(Some(found)) ==> found.0 == middle,
            answer matches Err(fault) ==> fault.file_index < results@.len(),
        {
            render_content_page_with_degradation(
                page,
                results,
                selected,
                options,
                middle,
                estimate,
            )
        };
    let result = replay_compat_binary_probes(1, maximum - 1, None, &probe);
    proof {
        assert forall|cost: spec_fn(Seq<char>) -> nat| #[trigger]
            paging::estimates(estimate, cost) implies result == fitted(
            page@,
            files,
            selected@,
            options,
            maximum,
            cost,
        ) by {
            let answer = |middle: int|
                degraded(page@, files, selected@, options, middle as usize, cost);
            assert(paging::describes(probe, answer));
        }
    }
    result
}

/// The entries of files, each with the position of its file.
pub open spec fn selection(files: Seq<FileSpec>) -> Seq<(usize, ContentEntry)>
    decreases files.len(),
{
    if files.len() == 0 {
        Seq::empty()
    } else {
        let entries = lines::content_of(files.last()).entries;
        selection(files.drop_last()) + entries.map(
            |i: int, entry: ContentEntry| ((files.len() - 1) as usize, entry),
        )
    }
}

/// Whether every file has captured entries, all of which stand for something.
pub open spec fn files_known(files: Seq<FileSpec>) -> bool {
    forall|i: int|
        0 <= i < files.len() ==> {
            let file = #[trigger] files[i];
            &&& file.payload is Content
            &&& lines::entries_known(lines::content_of(file), lines::content_of(file).entries)
        }
}

fn select_entries(results: &Vec<FileResult>) -> (selected: Vec<(usize, ContentEntry)>)
    requires
        files_known(lines::result_views(results@)),
    ensures
        selected@ == selection(lines::result_views(results@)),
        lines::selection_known(lines::result_views(results@), selected@),
{
    let ghost files = lines::result_views(results@);
    let mut selected: Vec<(usize, ContentEntry)> = Vec::new();
    let mut index: usize = 0;
    assert(files.take(0) =~= Seq::<FileSpec>::empty());
    while index < results.len()
        invariant
            index <= results.len(),
            files == lines::result_views(results@),
            files_known(files),
            selected@ == selection(files.take(index as int)),
            lines::selection_known(files, selected@),
        decreases results.len() - index,
    {
        proof {
            assert(files[index as int] == results@[index as int]@);
            assert(files.take(index + 1).drop_last() =~= files.take(index as int));
            assert(files.take(index + 1).last() == files[index as int]);
        }
        let content = content_at(results, index);
        let ghost before = selected@;
        let ghost entries = content@.entries;
        let ghost added = entries.map(|i: int, entry: ContentEntry| (index, entry));
        let mut at: usize = 0;
        assert(before + added.take(0) =~= before);
        while at < content.entries.len()
            invariant
                at <= content.entries@.len(),
                entries == content.entries@,
                index < files.len(),
                files[index as int].payload is Content,
                content@ == lines::content_of(files[index as int]),
                lines::entries_known(content@, entries),
                added == entries.map(|i: int, entry: ContentEntry| (index, entry)),
                selected@ == before + added.take(at as int),
                lines::selection_known(files, selected@),
            decreases content.entries@.len() - at,
        {
            let entry = content.entries[at];
            let ghost sofar = selected@;
            selected.push((index, entry));
            proof {
                assert(capture::known(content@.occurrences, entries[at as int]));
                assert(selected@ =~= before + added.take(at + 1));
                assert forall|i: int| 0 <= i < selected@.len() implies {
                    let (file, entry) = #[trigger] selected@[i];
                    &&& file < files.len()
                    &&& files[file as int].payload is Content
                    &&& capture::known(lines::content_of(files[file as int]).occurrences, entry)
                    &&& capture::rising(lines::content_of(files[file as int]).occurrences)
                } by {
                    if i < sofar.len() {
                        assert(selected@[i] == sofar[i]);
                    }
                }
            }
            at += 1;
        }
        proof {
            assert(added.take(content.entries@.len() as int) =~= added);
            assert((files.take(index + 1).len() - 1) as usize == index);
            assert(selected@ =~= selection(files.take(index + 1)));
        }
        index += 1;
    }
    assert(files.take(results@.len() as int) =~= files);
    selected
}

fn fault_response(results: &Vec<FileResult>, fault: RenderFault) -> (response: ToolResponse)
    requires
        fault.file_index < results@.len(),
    ensures
        render::responds(
            response,
            PageSpec::Error(
                outcome::snapshot_message(
                    lines::result_views(results@)[fault.file_index as int].path,
                    fault_words(fault.kind),
                ),
            ),
        ),
{
    assert(lines::result_views(results@)[fault.file_index as int]
        == results@[fault.file_index as int]@);
    ToolResponse::error(
        stable_snapshot_error(results[fault.file_index].path.as_str(), words_of(fault.kind)),
    )
}

fn write_content_page<F: Fn(&str) -> usize + Copy>(
    results: &Vec<FileResult>,
    options: ContentOptions,
    page: &GrepPage,
    estimate: F,
) -> (response: ToolResponse)
    requires
        page.units@.wf(),
        files_known(lines::result_views(results@)),
        forall|text: &str| #[trigger] call_requires(estimate, (text,)),
    ensures
        forall|cost: spec_fn(Seq<char>) -> nat| #[trigger]
            paging::estimates(estimate, cost) ==> render::responds(
                response,
                content_page(
                    page@,
                    lines::result_views(results@),
                    selection(lines::result_views(results@)),
                    options,
                    cost,
                ),
            ),
{
    let selected = select_entries(results);
    let maximum = render::initial(page.head_limit, selected.len());
    let found = fit_largest_content_output(page, results, &selected, options, maximum, estimate);
    match found {
        Err(fault) => fault_response(results, fault),
        Ok(None) => page.budget_too_small(),
        Ok(Some(form)) => match write_form(page, results, &selected, options, form) {
            Err(fault) => fault_response(results, fault),
            Ok(body) => {
                let note = page.paged_note(form.0, "matches");
                let count = body.len();
                assert(text::views(body@).take(count as int) =~= text::views(body@));
                match finish_page(&page.units, &note, &body, count, page.budget, &estimate) {
                    Some(text) => ToolResponse::text(text),
                    None => page.budget_too_small(),
                }
            },
        },
    }
}

/// Writes a page of matches.
pub fn format_content_mode<F: Fn(&str) -> usize>(
    results: &Vec<FileResult>,
    options: ContentOptions,
    page: &GrepPage,
    estimate: &F,
) -> (response: ToolResponse)
    requires
        page.units@.wf(),
        files_known(lines::result_views(results@)),
        forall|text: &str| #[trigger] call_requires(*estimate, (text,)),
    ensures
        forall|cost: spec_fn(Seq<char>) -> nat| #[trigger]
            paging::estimates(*estimate, cost) ==> render::responds(
                response,
                content_page(
                    page@,
                    lines::result_views(results@),
                    selection(lines::result_views(results@)),
                    options,
                    cost,
                ),
            ),
{
    let response = write_content_page(results, options, page, estimate);
    proof {
        assert forall|cost: spec_fn(Seq<char>) -> nat| #[trigger]
            paging::estimates(*estimate, cost) implies paging::estimates(estimate, cost) by {}
    }
    response
}

} // verus!
