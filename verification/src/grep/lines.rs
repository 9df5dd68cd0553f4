//! Which lines a page of matches has, file by file, block by block.

use crate::grep::capture;
use crate::grep::capture::{ContentEntry, ContentPayload, ContentView, Occurrence, OccurrenceSpec};
use crate::grep::layout;
use crate::grep::layout::LineMatchSpan;
use crate::grep::ranges;
use crate::grep::ranges::{context_range, merge_ranges, LineRanges};
use crate::grep::search::{FilePayload, FileResult, FileSpec};
use std::collections::BTreeMap;
use vstd::prelude::*;

verus! {

/// The values that go with a key, in their order.
pub open spec fn values_at<T>(pairs: Seq<(u64, T)>, key: u64) -> Seq<T>
    decreases pairs.len(),
{
    if pairs.len() == 0 {
        Seq::empty()
    } else {
        let before = values_at(pairs.drop_last(), key);
        if pairs.last().0 == key {
            before.push(pairs.last().1)
        } else {
            before
        }
    }
}

/// Values by key.
struct Grouping<T> {
    map: BTreeMap<u64, Vec<T>>,
    pairs: Ghost<Seq<(u64, T)>>,
}

impl<T: Copy> Grouping<T> {
    spec fn agrees(&self, key: u64) -> bool {
        if self.map@.contains_key(key) {
            self.map@[key]@ == values_at(self.pairs@, key) && self.map@[key]@.len() > 0
        } else {
            values_at(self.pairs@, key).len() == 0
        }
    }

    spec fn wf(&self) -> bool {
        forall|key: u64| #[trigger] self.agrees(key)
    }

    fn new() -> (grouping: Self)
        ensures
            grouping.wf(),
            grouping.pairs@ == Seq::<(u64, T)>::empty(),
    {
        Grouping { map: BTreeMap::new(), pairs: Ghost(Seq::empty()) }
    }

    fn push(&mut self, key: u64, value: T)
        requires
            old(self).wf(),
        ensures
            final(self).wf(),
            final(self).pairs@ == old(self).pairs@.push((key, value)),
    {
        let ghost before = *self;
        let ghost earlier = values_at(before.pairs@, key);
        assert(self.agrees(key));
        let mut values = match self.map.remove(&key) {
            Some(values) => values,
            None => Vec::new(),
        };
        assert(values@ =~= earlier);
        values.push(value);
        let ghost now = values@;
        let _ = self.map.insert(key, values);
        self.pairs = Ghost(before.pairs@.push((key, value)));
        proof {
            assert(self.pairs@.drop_last() =~= before.pairs@);
            assert forall|other: u64| #[trigger] self.agrees(other) by {
                assert(before.agrees(other));
                if other == key {
                    assert(self.map@[key]@ == now);
                }
            }
        }
    }

    fn get(&self, key: u64) -> (values: Option<&Vec<T>>)
        requires
            self.wf(),
        ensures
            match values {
                Some(values) => values@ == values_at(self.pairs@, key) && values@.len() > 0,
                None => values_at(self.pairs@, key).len() == 0,
            },
    {
        proof {
            assert(self.agrees(key));
        }
        self.map.get(&key)
    }
}

/// One line of a page, before it is written.
#[derive(Debug)]
pub enum PlannedContentLine {
    /// An empty line between files.
    Empty,
    /// The path of a file.
    Header(usize),
    /// A mark between blocks of lines.
    Separator,
    /// A line around a match.
    Context { file_index: usize, line_number: u64 },
    /// A line with matches.
    Match { file_index: usize, line_number: u64, spans: Vec<LineMatchSpan> },
    /// A matched text alone.
    OnlyMatch {
        file_index: usize,
        start_line: u64,
        occurrence_index: usize,
        output_line: u64,
    },
}

/// The mathematical value of a [`PlannedContentLine`].
pub enum PlanLine {
    Empty,
    Header(usize),
    Separator,
    Context { file_index: usize, line_number: u64 },
    Match { file_index: usize, line_number: u64, spans: Seq<LineMatchSpan> },
    OnlyMatch { file_index: usize, start_line: u64, occurrence_index: usize, output_line: u64 },
}

impl View for PlannedContentLine {
    type V = PlanLine;

    open spec fn view(&self) -> PlanLine {
        match self {
            PlannedContentLine::Empty => PlanLine::Empty,
            PlannedContentLine::Header(file_index) => PlanLine::Header(*file_index),
            PlannedContentLine::Separator => PlanLine::Separator,
            PlannedContentLine::Context { file_index, line_number } => PlanLine::Context {
                file_index: *file_index,
                line_number: *line_number,
            },
            PlannedContentLine::Match { file_index, line_number, spans } => PlanLine::Match {
                file_index: *file_index,
                line_number: *line_number,
                spans: spans@,
            },
            PlannedContentLine::OnlyMatch {
                file_index,
                start_line,
                occurrence_index,
                output_line,
            } => PlanLine::OnlyMatch {
                file_index: *file_index,
                start_line: *start_line,
                occurrence_index: *occurrence_index,
                output_line: *output_line,
            },
        }
    }
}

/// The lines as mathematical values.
pub open spec fn plan_views(lines: Seq<PlannedContentLine>) -> Seq<PlanLine> {
    lines.map(|i: int, line: PlannedContentLine| line@)
}

fn push_line(lines: &mut Vec<PlannedContentLine>, line: PlannedContentLine)
    ensures
        plan_views(final(lines)@) == plan_views(old(lines)@).push(line@),
{
    let ghost before = lines@;
    let ghost shown = line@;
    lines.push(line);
    assert(plan_views(lines@) =~= plan_views(before).push(shown));
}

/// Whether the text of a line is there: it was captured, or it is the empty line behind the last
/// line feed.
pub open spec fn line_there(content: ContentView, line: u64) -> bool {
    content.lines.contains_key(line) || (line == content.total_lines
        && content.has_trailing_newline)
}

fn is_line_there(content: &ContentPayload, line: u64) -> (there: bool)
    ensures
        there == line_there(content@, line),
{
    content.lines.contains_key(&line) || (line == content.total_lines as u64
        && content.has_trailing_newline)
}

/// The occurrences of one line as keys.
pub open spec fn keys_of(content: ContentView, entry: ContentEntry) -> Seq<(u64, usize)> {
    match entry {
        ContentEntry::MatchingLine(line) => if content.occurrences.contains_key(line) {
            Seq::new(content.occurrences[line].len(), |i: int| (line, i as usize))
        } else {
            Seq::empty()
        },
        ContentEntry::Occurrence { start_line, occurrence_index } => seq![
            (start_line, occurrence_index),
        ],
    }
}

/// The occurrences of entries as keys.
pub open spec fn keys_of_all(content: ContentView, entries: Seq<ContentEntry>) -> Seq<(u64, usize)>
    decreases entries.len(),
{
    if entries.len() == 0 {
        Seq::empty()
    } else {
        keys_of_all(content, entries.drop_last()) + keys_of(content, entries.last())
    }
}

/// The occurrence that a key stands for.
pub open spec fn occurrence_of(content: ContentView, key: (u64, usize)) -> OccurrenceSpec {
    content.occurrences[key.0][key.1 as int]
}

/// Whether a key stands for an occurrence.
pub open spec fn key_known(content: ContentView, key: (u64, usize)) -> bool {
    content.occurrences.contains_key(key.0) && key.1 < content.occurrences[key.0].len()
}

/// The keys by the line in which their occurrences begin.
pub open spec fn keys_by_start(content: ContentView, keys: Seq<(u64, usize)>) -> Seq<
    (u64, (u64, usize)),
> {
    keys.map(|i: int, key: (u64, usize)| (occurrence_of(content, key).start_line, key))
}

/// The lines that occurrences cover.
pub open spec fn covered_ranges(content: ContentView, keys: Seq<(u64, usize)>) -> Seq<(u64, u64)> {
    keys.map(
        |i: int, key: (u64, usize)|
            (occurrence_of(content, key).start_line, occurrence_of(content, key).end_line),
    )
}

/// The lines around ranges.
pub open spec fn context_ranges(
    content: ContentView,
    covered: Seq<(u64, u64)>,
    before: usize,
    after: usize,
) -> Seq<(u64, u64)> {
    covered.map(
        |i: int, range: (u64, u64)|
            ranges::around(range.0, range.1, before, after, content.total_lines),
    )
}

/// The lines from `start` to `end`, each planned by `line`.
pub open spec fn block_lines(line: spec_fn(u64) -> Seq<PlanLine>, start: int, end: int) -> Seq<
    PlanLine,
>
    decreases end - start + 1,
{
    if end < start {
        Seq::empty()
    } else {
        block_lines(line, start, end - 1) + line(end as u64)
    }
}

/// Blocks of lines with a mark between them.
pub open spec fn blocks(line: spec_fn(u64) -> Seq<PlanLine>, ranges: Seq<(u64, u64)>) -> Seq<
    PlanLine,
>
    decreases ranges.len(),
{
    if ranges.len() == 0 {
        Seq::empty()
    } else {
        let before = blocks(line, ranges.drop_last());
        let parted = if ranges.len() > 1 {
            before.push(PlanLine::Separator)
        } else {
            before
        };
        parted + block_lines(line, ranges.last().0 as int, ranges.last().1 as int)
    }
}

/// What a line of a page of matched texts shows: the texts that begin in it, else the line itself
/// unless a match covers it.
pub open spec fn only_line(
    file_index: usize,
    content: ContentView,
    keys: Seq<(u64, usize)>,
) -> spec_fn(u64) -> Seq<PlanLine> {
    |line: u64|
        {
            let begun = values_at(keys_by_start(content, keys), line);
            if begun.len() > 0 {
                begun.map(
                    |i: int, key: (u64, usize)|
                        PlanLine::OnlyMatch {
                            file_index,
                            start_line: key.0,
                            occurrence_index: key.1,
                            output_line: line,
                        },
                )
            } else if layout::holds_line(covered_ranges(content, keys), line) || !line_there(
                content,
                line,
            ) {
                Seq::empty()
            } else {
                seq![PlanLine::Context { file_index, line_number: line }]
            }
        }
}

/// The lines of one file on a page of matched texts.
pub open spec fn only_group(
    file_index: usize,
    content: ContentView,
    entries: Seq<ContentEntry>,
    before: usize,
    after: usize,
) -> Seq<PlanLine> {
    let keys = keys_of_all(content, entries);
    blocks(
        only_line(file_index, content, keys),
        ranges::merged(
            context_ranges(content, covered_ranges(content, keys), before, after),
        ),
    )
}

/// The lines that an entry covers.
pub open spec fn entry_range(content: ContentView, entry: ContentEntry) -> (u64, u64) {
    match entry {
        ContentEntry::MatchingLine(line) => (line, line),
        ContentEntry::Occurrence { start_line, occurrence_index } => {
            let found = occurrence_of(content, (start_line, occurrence_index));
            (found.start_line, found.end_line)
        },
    }
}

/// The lines that entries cover.
pub open spec fn entry_ranges(content: ContentView, entries: Seq<ContentEntry>) -> Seq<
    (u64, u64),
> {
    entries.map(|i: int, entry: ContentEntry| entry_range(content, entry))
}

/// Spans by their line.
pub open spec fn by_line(spans: Seq<LineMatchSpan>) -> Seq<(u64, LineMatchSpan)> {
    spans.map(|i: int, span: LineMatchSpan| (span.line_number, span))
}

/// The spans of occurrences, by their line.
pub open spec fn spans_of_keys(content: ContentView, keys: Seq<(u64, usize)>) -> Seq<
    (u64, LineMatchSpan),
>
    decreases keys.len(),
{
    if keys.len() == 0 {
        Seq::empty()
    } else {
        spans_of_keys(content, keys.drop_last()) + by_line(
            occurrence_of(content, keys.last()).line_spans,
        )
    }
}

/// What a line of a page of matching lines shows: the line with the spans of its matches, or as
/// context.
pub open spec fn matching_line(
    file_index: usize,
    content: ContentView,
    entries: Seq<ContentEntry>,
) -> spec_fn(u64) -> Seq<PlanLine> {
    |line: u64|
        if !line_there(content, line) {
            Seq::empty()
        } else if layout::holds_line(entry_ranges(content, entries), line) {
            seq![
                PlanLine::Match {
                    file_index,
                    line_number: line,
                    spans: values_at(
                        spans_of_keys(content, keys_of_all(content, entries)),
                        line,
                    ),
                },
            ]
        } else {
            seq![PlanLine::Context { file_index, line_number: line }]
        }
}

/// The lines of one file on a page of matching lines.
pub open spec fn matching_group(
    file_index: usize,
    content: ContentView,
    entries: Seq<ContentEntry>,
    before: usize,
    after: usize,
) -> Seq<PlanLine> {
    blocks(
        matching_line(file_index, content, entries),
        ranges::merged(context_ranges(content, entry_ranges(content, entries), before, after)),
    )
}

/// Entries of one file after the other.
pub open spec fn by_file(selected: Seq<(usize, ContentEntry)>) -> Seq<(usize, Seq<ContentEntry>)>
    decreases selected.len(),
{
    if selected.len() == 0 {
        Seq::empty()
    } else {
        let before = by_file(selected.drop_last());
        let (file, entry) = selected.last();
        if before.len() > 0 && before.last().0 == file {
            before.drop_last().push((file, before.last().1.push(entry)))
        } else {
            before.push((file, seq![entry]))
        }
    }
}

/// How a page of matches is laid out.
#[derive(Clone, Copy, Debug, PartialEq, Eq, Structural)]
pub struct PlanOptions {
    pub before: usize,
    pub after: usize,
    /// Show only the matched texts.
    pub only_matching: bool,
    /// Only one file is searched, so that its path is not shown.
    pub single_file: bool,
}

/// What was captured of a file.
pub open spec fn content_of(file: FileSpec) -> ContentView {
    file.payload->Content_0
}

/// The lines of one file on a page.
pub open spec fn file_group(
    results: Seq<FileSpec>,
    group: (usize, Seq<ContentEntry>),
    options: PlanOptions,
) -> Seq<PlanLine> {
    let content = content_of(results[group.0 as int]);
    if options.only_matching {
        only_group(group.0, content, group.1, options.before, options.after)
    } else {
        matching_group(group.0, content, group.1, options.before, options.after)
    }
}

/// The lines of files on a page, each below the path of its file unless there is only one.
pub open spec fn file_groups(
    results: Seq<FileSpec>,
    groups: Seq<(usize, Seq<ContentEntry>)>,
    options: PlanOptions,
) -> Seq<PlanLine>
    decreases groups.len(),
{
    if groups.len() == 0 {
        Seq::empty()
    } else {
        let before = file_groups(results, groups.drop_last(), options);
        let headed = if options.single_file {
            before
        } else if groups.len() > 1 {
            before.push(PlanLine::Empty).push(PlanLine::Header(groups.last().0))
        } else {
            before.push(PlanLine::Header(groups.last().0))
        };
        headed + file_group(results, groups.last(), options)
    }
}

/// The lines of a page of matches.
pub open spec fn content_plan(
    results: Seq<FileSpec>,
    selected: Seq<(usize, ContentEntry)>,
    options: PlanOptions,
) -> Seq<PlanLine> {
    file_groups(results, by_file(selected), options)
}

/// Whether every entry stands for something that was captured.
pub open spec fn entries_known(content: ContentView, entries: Seq<ContentEntry>) -> bool {
    capture::all_known(content.occurrences, entries)
}

proof fn keys_are_known(content: ContentView, entries: Seq<ContentEntry>)
    requires
        entries_known(content, entries),
        forall|line: u64|
            content.occurrences.contains_key(line) ==> (
            #[trigger] content.occurrences[line]).len() <= usize::MAX,
    ensures
        forall|i: int|
            0 <= i < keys_of_all(content, entries).len() ==> key_known(
                content,
                #[trigger] keys_of_all(content, entries)[i],
            ),
    decreases entries.len(),
{
    if entries.len() > 0 {
        let rest = entries.drop_last();
        assert(entries_known(content, rest)) by {
            assert forall|i: int| 0 <= i < rest.len() implies capture::known(
                content.occurrences,
                #[trigger] rest[i],
            ) by {
                assert(rest[i] == entries[i]);
            }
        }
        keys_are_known(content, rest);
        assert(capture::known(content.occurrences, entries[entries.len() - 1]));
        let keys = keys_of_all(content, entries);
        let before = keys_of_all(content, rest);
        assert forall|i: int| 0 <= i < keys.len() implies key_known(content, #[trigger] keys[i]) by {
            if i < before.len() {
                assert(keys[i] == before[i]);
            }
        }
    }
}

fn occurrence_for(content: &ContentPayload, key: (u64, usize)) -> (found: &Occurrence)
    requires
        key_known(content@, key),
    ensures
        found@ == occurrence_of(content@, key),
{
    let there = content.occurrences.get(&key.0).unwrap();
    &there[key.1]
}

fn push_keys(content: &ContentPayload, entry: ContentEntry, keys: &mut Vec<(u64, usize)>)
    ensures
        final(keys)@ == old(keys)@ + keys_of(content@, entry),
{
    let ghost before = keys@;
    match entry {
        ContentEntry::MatchingLine(line) => {
            match content.occurrences.get(&line) {
                Some(there) => {
                    let mut index: usize = 0;
                    while index < there.len()
                        invariant
                            index <= there.len(),
                            keys@ == before + Seq::new(
                                index as nat,
                                |i: int| (line, i as usize),
                            ),
                        decreases there.len() - index,
                    {
                        keys.push((line, index));
                        assert(keys@ =~= before + Seq::new(
                            (index + 1) as nat,
                            |i: int| (line, i as usize),
                        ));
                        index += 1;
                    }
                    assert(keys@ =~= before + keys_of(content@, entry));
                },
                None => {
                    assert(keys@ =~= before + keys_of(content@, entry));
                },
            }
        },
        ContentEntry::Occurrence { start_line, occurrence_index } => {
            keys.push((start_line, occurrence_index));
            assert(keys@ =~= before + keys_of(content@, entry));
        },
    }
}

/// The occurrences of entries as keys.
fn occurrence_keys(content: &ContentPayload, entries: &Vec<ContentEntry>) -> (keys: Vec<
    (u64, usize),
>)
    requires
        entries_known(content@, entries@),
    ensures
        keys@ == keys_of_all(content@, entries@),
        forall|i: int| 0 <= i < keys@.len() ==> key_known(content@, #[trigger] keys@[i]),
{
    let mut keys: Vec<(u64, usize)> = Vec::new();
    let mut index: usize = 0;
    while index < entries.len()
        invariant
            index <= entries.len(),
            keys@ == keys_of_all(content@, entries@.take(index as int)),
        decreases entries.len() - index,
    {
        proof {
            assert(entries@.take(index + 1).drop_last() =~= entries@.take(index as int));
            assert(entries@.take(index + 1).last() == entries@[index as int]);
        }
        push_keys(content, entries[index], &mut keys);
        index += 1;
    }
    proof {
        assert(entries@.take(entries@.len() as int) =~= entries@);
        assert forall|line: u64| content@.occurrences.contains_key(line) implies (
        #[trigger] content@.occurrences[line]).len() <= usize::MAX by {
            assert(content@.occurrences[line].len() == content.occurrences@[line]@.len());
            vec_len_fits(content.occurrences@[line]);
        }
        keys_are_known(content@, entries@);
    }
    keys
}

proof fn vec_len_fits(occurrences: Vec<Occurrence>)
    ensures
        occurrences@.len() <= usize::MAX,
{
    assert(occurrences.len() == occurrences@.len());
}

fn surround(content: &ContentPayload, covered: &Vec<(u64, u64)>, before: usize, after: usize) -> (
    around: Vec<(u64, u64)>)
    ensures
        around@ == context_ranges(content@, covered@, before, after),
{
    let mut around: Vec<(u64, u64)> = Vec::new();
    let mut index: usize = 0;
    while index < covered.len()
        invariant
            index <= covered.len(),
            around@ == context_ranges(content@, covered@.take(index as int), before, after),
        decreases covered.len() - index,
    {
        let range = covered[index];
        around.push(context_range(range.0, range.1, before, after, content.total_lines));
        assert(around@ =~= context_ranges(content@, covered@.take(index + 1), before, after));
        index += 1;
    }
    assert(covered@.take(covered@.len() as int) =~= covered@);
    around
}

fn plan_only_line(
    file_index: usize,
    content: &ContentPayload,
    Ghost(keys): Ghost<Seq<(u64, usize)>>,
    starts: &Grouping<(u64, usize)>,
    covered: &LineRanges,
    line: u64,
    lines: &mut Vec<PlannedContentLine>,
)
    requires
        starts.wf(),
        starts.pairs@ == keys_by_start(content@, keys),
        covered.wf(),
        covered.ranges() == ranges::merged(covered_ranges(content@, keys)),
    ensures
        plan_views(final(lines)@) == plan_views(old(lines)@) + only_line(
            file_index,
            content@,
            keys,
        )(line),
{
    let ghost before = plan_views(lines@);
    let ghost shown = only_line(file_index, content@, keys)(line);
    proof {
        ranges::merging_keeps_lines(covered_ranges(content@, keys), line);
    }
    if let Some(begun) = starts.get(line) {
        let mut index: usize = 0;
        assert(before + shown.take(0) =~= before);
        while index < begun.len()
            invariant
                index <= begun.len(),
                begun@ == values_at(keys_by_start(content@, keys), line),
                begun@.len() > 0,
                shown == only_line(file_index, content@, keys)(line),
                plan_views(lines@) == before + shown.take(index as int),
            decreases begun.len() - index,
        {
            let key = begun[index];
            push_line(
                lines,
                PlannedContentLine::OnlyMatch {
                    file_index,
                    start_line: key.0,
                    occurrence_index: key.1,
                    output_line: line,
                },
            );
            proof {
                assert(shown.len() == begun@.len());
                assert(shown[index as int] == (PlanLine::OnlyMatch {
                    file_index,
                    start_line: key.0,
                    occurrence_index: key.1,
                    output_line: line,
                }));
                assert((before + shown.take(index as int)).push(shown[index as int]) =~= before
                    + shown.take(index + 1));
            }
            index += 1;
        }
        assert(shown.take(begun@.len() as int) =~= shown);
    } else if covered.ranges_contain(line) || !is_line_there(content, line) {
        assert(before + shown =~= before);
    } else {
        push_line(lines, PlannedContentLine::Context { file_index, line_number: line });
        assert(plan_views(lines@) =~= before + shown);
    }
}

/// Plans the lines of one file on a page of matched texts.
pub fn plan_only_matching_group(
    file_index: usize,
    content: &ContentPayload,
    entries: &Vec<ContentEntry>,
    before: usize,
    after: usize,
    lines: &mut Vec<PlannedContentLine>,
)
    requires
        entries_known(content@, entries@),
    ensures
        plan_views(final(lines)@) == plan_views(old(lines)@) + only_group(
            file_index,
            content@,
            entries@,
            before,
            after,
        ),
{
    let ghost base = plan_views(lines@);
    let keys = occurrence_keys(content, entries);
    let mut starts: Grouping<(u64, usize)> = Grouping::new();
    let mut covered: Vec<(u64, u64)> = Vec::new();
    let mut index: usize = 0;
    proof {
        assert(keys_by_start(content@, keys@.take(0)) =~= Seq::<(u64, (u64, usize))>::empty());
        assert(covered_ranges(content@, keys@.take(0)) =~= Seq::<(u64, u64)>::empty());
    }
    while index < keys.len()
        invariant
            index <= keys.len(),
            forall|i: int| 0 <= i < keys@.len() ==> key_known(content@, #[trigger] keys@[i]),
            starts.wf(),
            starts.pairs@ == keys_by_start(content@, keys@.take(index as int)),
            covered@ == covered_ranges(content@, keys@.take(index as int)),
        decreases keys.len() - index,
    {
        let key = keys[index];
        let found = occurrence_for(content, key);
        starts.push(found.start_line, key);
        covered.push((found.start_line, found.end_line));
        proof {
            assert(starts.pairs@ =~= keys_by_start(content@, keys@.take(index + 1)));
            assert(covered@ =~= covered_ranges(content@, keys@.take(index + 1)));
        }
        index += 1;
    }
    assert(keys@.take(keys@.len() as int) =~= keys@);
    let merged = merge_ranges(&surround(content, &covered, before, after));
    proof {
        assert forall|i: int| 0 <= i < covered@.len() implies (#[trigger] covered@[i]).0
            <= covered@[i].1 by {
            let key = keys@[i];
            assert(key_known(content@, key));
            assert(content@.occurrences[key.0][key.1 as int].start_line
                <= content@.occurrences[key.0][key.1 as int].end_line);
        }
        ranges::merged_ranges_are_apart(covered@);
    }
    let ranges = LineRanges::new(merge_ranges(&covered));
    let ghost line_plan = only_line(file_index, content@, keys@);
    let mut block: usize = 0;
    assert(base + blocks(line_plan, merged@.take(0)) =~= base);
    while block < merged.len()
        invariant
            block <= merged.len(),
            starts.wf(),
            starts.pairs@ == keys_by_start(content@, keys@),
            ranges.wf(),
            ranges.ranges() == ranges::merged(covered_ranges(content@, keys@)),
            line_plan == only_line(file_index, content@, keys@),
            plan_views(lines@) == base + blocks(line_plan, merged@.take(block as int)),
        decreases merged.len() - block,
    {
        let (start, end) = merged[block];
        if block > 0 {
            push_line(lines, PlannedContentLine::Separator);
        }
        let ghost parted = plan_views(lines@);
        let mut line: u64 = start;
        assert(parted + block_lines(line_plan, start as int, start - 1) =~= parted);
        let mut more = start <= end;
        while more
            invariant
                start <= line,
                more ==> line <= end,
                !more ==> start > end || line == end,
                starts.wf(),
                starts.pairs@ == keys_by_start(content@, keys@),
                ranges.wf(),
                ranges.ranges() == ranges::merged(covered_ranges(content@, keys@)),
                line_plan == only_line(file_index, content@, keys@),
                plan_views(lines@) == parted + block_lines(
                    line_plan,
                    start as int,
                    if more {
                        line - 1
                    } else {
                        end as int
                    },
                ),
            decreases
                    if more {
                        end - line + 1
                    } else {
                        0
                    },
        {
            let ghost sofar = plan_views(lines@);
            plan_only_line(file_index, content, Ghost(keys@), &starts, &ranges, line, lines);
            proof {
                assert(sofar + line_plan(line) =~= parted + block_lines(
                    line_plan,
                    start as int,
                    line as int,
                ));
            }
            if line == end {
                more = false;
            } else {
                line += 1;
            }
        }
        proof {
            let now = merged@.take(block + 1);
            assert(now.drop_last() =~= merged@.take(block as int));
            assert(now.last() == merged@[block as int]);
            assert(plan_views(lines@) =~= base + blocks(line_plan, now));
        }
        block += 1;
    }
    assert(merged@.take(merged@.len() as int) =~= merged@);
}

fn push_spans(found: &Occurrence, spans: &mut Grouping<LineMatchSpan>)
    requires
        old(spans).wf(),
    ensures
        final(spans).wf(),
        final(spans).pairs@ == old(spans).pairs@ + by_line(found@.line_spans),
{
    let ghost before = spans.pairs@;
    let mut index: usize = 0;
    assert(before + by_line(found.line_spans@.take(0)) =~= before);
    while index < found.line_spans.len()
        invariant
            index <= found.line_spans.len(),
            spans.wf(),
            spans.pairs@ == before + by_line(found.line_spans@.take(index as int)),
        decreases found.line_spans.len() - index,
    {
        let span = found.line_spans[index];
        spans.push(span.line_number, span);
        assert(spans.pairs@ =~= before + by_line(found.line_spans@.take(index + 1)));
        index += 1;
    }
    assert(found.line_spans@.take(found.line_spans@.len() as int) =~= found.line_spans@);
}

fn plan_matching_line(
    file_index: usize,
    content: &ContentPayload,
    Ghost(entries): Ghost<Seq<ContentEntry>>,
    spans: &Grouping<LineMatchSpan>,
    covered: &LineRanges,
    line: u64,
    lines: &mut Vec<PlannedContentLine>,
)
    requires
        spans.wf(),
        spans.pairs@ == spans_of_keys(content@, keys_of_all(content@, entries)),
        covered.wf(),
        covered.ranges() == ranges::merged(entry_ranges(content@, entries)),
    ensures
        plan_views(final(lines)@) == plan_views(old(lines)@) + matching_line(
            file_index,
            content@,
            entries,
        )(line),
{
    let ghost before = plan_views(lines@);
    let ghost shown = matching_line(file_index, content@, entries)(line);
    proof {
        ranges::merging_keeps_lines(entry_ranges(content@, entries), line);
    }
    if !is_line_there(content, line) {
        assert(before + shown =~= before);
    } else if covered.ranges_contain(line) {
        let kept = match spans.get(line) {
            Some(there) => vstd::slice::slice_to_vec(there.as_slice()),
            None => Vec::new(),
        };
        assert(kept@ =~= values_at(spans.pairs@, line));
        push_line(
            lines,
            PlannedContentLine::Match { file_index, line_number: line, spans: kept },
        );
        assert(plan_views(lines@) =~= before + shown);
    } else {
        push_line(lines, PlannedContentLine::Context { file_index, line_number: line });
        assert(plan_views(lines@) =~= before + shown);
    }
}

/// Plans the lines of one file on a page of matching lines.
pub fn plan_matching_line_group(
    file_index: usize,
    content: &ContentPayload,
    entries: &Vec<ContentEntry>,
    before: usize,
    after: usize,
    lines: &mut Vec<PlannedContentLine>,
)
    requires
        entries_known(content@, entries@),
    ensures
        plan_views(final(lines)@) == plan_views(old(lines)@) + matching_group(
            file_index,
            content@,
            entries@,
            before,
            after,
        ),
{
    let ghost base = plan_views(lines@);
    let keys = occurrence_keys(content, entries);
    let mut spans: Grouping<LineMatchSpan> = Grouping::new();
    let mut index: usize = 0;
    while index < keys.len()
        invariant
            index <= keys.len(),
            forall|i: int| 0 <= i < keys@.len() ==> key_known(content@, #[trigger] keys@[i]),
            spans.wf(),
            spans.pairs@ == spans_of_keys(content@, keys@.take(index as int)),
        decreases keys.len() - index,
    {
        proof {
            assert(keys@.take(index + 1).drop_last() =~= keys@.take(index as int));
            assert(keys@.take(index + 1).last() == keys@[index as int]);
        }
        let found = occurrence_for(content, keys[index]);
        push_spans(found, &mut spans);
        index += 1;
    }
    assert(keys@.take(keys@.len() as int) =~= keys@);
    let mut covered: Vec<(u64, u64)> = Vec::new();
    let mut at: usize = 0;
    while at < entries.len()
        invariant
            at <= entries.len(),
            entries_known(content@, entries@),
            covered@ == entry_ranges(content@, entries@.take(at as int)),
            forall|i: int| 0 <= i < covered@.len() ==> (#[trigger] covered@[i]).0 <= covered@[i].1,
        decreases entries.len() - at,
    {
        assert(capture::known(content@.occurrences, entries@[at as int]));
        let range = match entries[at] {
            ContentEntry::MatchingLine(line) => (line, line),
            ContentEntry::Occurrence { start_line, occurrence_index } => {
                let found = occurrence_for(content, (start_line, occurrence_index));
                assert(found@ == content@.occurrences[start_line][occurrence_index as int]);
                (found.start_line, found.end_line)
            },
        };
        covered.push(range);
        assert(covered@ =~= entry_ranges(content@, entries@.take(at + 1)));
        at += 1;
    }
    assert(entries@.take(entries@.len() as int) =~= entries@);
    let merged = merge_ranges(&surround(content, &covered, before, after));
    proof {
        ranges::merged_ranges_are_apart(covered@);
    }
    let ranges = LineRanges::new(merge_ranges(&covered));
    let ghost line_plan = matching_line(file_index, content@, entries@);
    let mut block: usize = 0;
    assert(base + blocks(line_plan, merged@.take(0)) =~= base);
    while block < merged.len()
        invariant
            block <= merged.len(),
            spans.wf(),
            spans.pairs@ == spans_of_keys(content@, keys_of_all(content@, entries@)),
            ranges.wf(),
            ranges.ranges() == ranges::merged(entry_ranges(content@, entries@)),
            line_plan == matching_line(file_index, content@, entries@),
            plan_views(lines@) == base + blocks(line_plan, merged@.take(block as int)),
        decreases merged.len() - block,
    {
        let (start, end) = merged[block];
        if block > 0 {
            push_line(lines, PlannedContentLine::Separator);
        }
        let ghost parted = plan_views(lines@);
        let mut line: u64 = start;
        assert(parted + block_lines(line_plan, start as int, start - 1) =~= parted);
        let mut more = start <= end;
        while more
            invariant
                start <= line,
                more ==> line <= end,
                !more ==> start > end || line == end,
                spans.wf(),
                spans.pairs@ == spans_of_keys(content@, keys_of_all(content@, entries@)),
                ranges.wf(),
                ranges.ranges() == ranges::merged(entry_ranges(content@, entries@)),
                line_plan == matching_line(file_index, content@, entries@),
                plan_views(lines@) == parted + block_lines(
                    line_plan,
                    start as int,
                    if more {
                        line - 1
                    } else {
                        end as int
                    },
                ),
            decreases
                    if more {
                        end - line + 1
                    } else {
                        0
                    },
        {
            let ghost sofar = plan_views(lines@);
            plan_matching_line(file_index, content, Ghost(entries@), &spans, &ranges, line, lines);
            proof {
                assert(sofar + line_plan(line) =~= parted + block_lines(
                    line_plan,
                    start as int,
                    line as int,
                ));
            }
            if line == end {
                more = false;
            } else {
                line += 1;
            }
        }
        proof {
            let now = merged@.take(block + 1);
            assert(now.drop_last() =~= merged@.take(block as int));
            assert(now.last() == merged@[block as int]);
            assert(plan_views(lines@) =~= base + blocks(line_plan, now));
        }
        block += 1;
    }
    assert(merged@.take(merged@.len() as int) =~= merged@);
}

/// Whether an entry belongs to a captured file and stands for something there.
pub open spec fn selection_known(
    results: Seq<FileSpec>,
    selected: Seq<(usize, ContentEntry)>,
) -> bool {
    forall|i: int|
        0 <= i < selected.len() ==> {
            let (file, entry) = #[trigger] selected[i];
            &&& file < results.len()
            &&& results[file as int].payload is Content
            &&& capture::known(content_of(results[file as int]).occurrences, entry)
            &&& capture::rising(content_of(results[file as int]).occurrences)
        }
}

spec fn group_views(groups: Seq<(usize, Vec<ContentEntry>)>) -> Seq<(usize, Seq<ContentEntry>)> {
    groups.map(|i: int, group: (usize, Vec<ContentEntry>)| (group.0, group.1@))
}

spec fn groups_known(results: Seq<FileSpec>, groups: Seq<(usize, Seq<ContentEntry>)>) -> bool {
    forall|i: int|
        0 <= i < groups.len() ==> {
            let group = #[trigger] groups[i];
            &&& group.0 < results.len()
            &&& results[group.0 as int].payload is Content
            &&& entries_known(content_of(results[group.0 as int]), group.1)
        }
}

fn group_by_file(
    Ghost(results): Ghost<Seq<FileSpec>>,
    selected: &Vec<(usize, ContentEntry)>,
    shown: usize,
) -> (groups: Vec<(usize, Vec<ContentEntry>)>)
    requires
        shown <= selected@.len(),
        selection_known(results, selected@),
    ensures
        group_views(groups@) == by_file(selected@.take(shown as int)),
        groups_known(results, group_views(groups@)),
{
    let mut groups: Vec<(usize, Vec<ContentEntry>)> = Vec::new();
    let mut index: usize = 0;
    assert(group_views(groups@) =~= by_file(selected@.take(0)));
    while index < shown
        invariant
            index <= shown <= selected@.len(),
            selection_known(results, selected@),
            group_views(groups@) == by_file(selected@.take(index as int)),
            groups_known(results, group_views(groups@)),
        decreases shown - index,
    {
        let (file, entry) = selected[index];
        let ghost before = group_views(groups@);
        proof {
            assert(selected@.take(index + 1).drop_last() =~= selected@.take(index as int));
            assert(selected@.take(index + 1).last() == selected@[index as int]);
            assert(selected@[index as int] == (file, entry));
            assert(before.len() == groups@.len());
            if groups@.len() > 0 {
                assert(before.last() == (groups@.last().0, groups@.last().1@));
            }
        }
        let count = groups.len();
        if count > 0 && groups[count - 1].0 == file {
            let mut entries = match groups.pop() {
                Some((_, entries)) => entries,
                None => Vec::new(),
            };
            let ghost kept = group_views(groups@);
            let ghost earlier = entries@;
            assert(kept =~= before.drop_last());
            entries.push(entry);
            let ghost now = entries@;
            groups.push((file, entries));
            proof {
                assert(group_views(groups@) =~= kept.push((file, now)));
                assert(before[count - 1].1 == earlier);
                assert(entries_known(content_of(results[file as int]), earlier));
                assert(entries_known(content_of(results[file as int]), now)) by {
                    assert forall|i: int| 0 <= i < now.len() implies capture::known(
                        content_of(results[file as int]).occurrences,
                        #[trigger] now[i],
                    ) by {
                        if i < earlier.len() {
                            assert(now[i] == earlier[i]);
                        }
                    }
                }
                assert forall|i: int| 0 <= i < group_views(groups@).len() implies {
                    let group = #[trigger] group_views(groups@)[i];
                    &&& group.0 < results.len()
                    &&& results[group.0 as int].payload is Content
                    &&& entries_known(content_of(results[group.0 as int]), group.1)
                } by {
                    if i < kept.len() {
                        assert(group_views(groups@)[i] == before[i]);
                    }
                }
            }
        } else {
            let mut entries: Vec<ContentEntry> = Vec::new();
            entries.push(entry);
            let ghost now = entries@;
            groups.push((file, entries));
            proof {
                assert(now =~= seq![entry]);
                assert(group_views(groups@) =~= before.push((file, now)));
                assert forall|i: int| 0 <= i < group_views(groups@).len() implies {
                    let group = #[trigger] group_views(groups@)[i];
                    &&& group.0 < results.len()
                    &&& results[group.0 as int].payload is Content
                    &&& entries_known(content_of(results[group.0 as int]), group.1)
                } by {
                    if i < before.len() {
                        assert(group_views(groups@)[i] == before[i]);
                    }
                }
            }
        }
        index += 1;
    }
    groups
}

/// Files as mathematical values.
pub open spec fn result_views(results: Seq<FileResult>) -> Seq<FileSpec> {
    results.map(|i: int, result: FileResult| result@)
}

/// Plans the lines of a page with the first `shown` of the selected entries.
pub fn build_content_plan(
    results: &Vec<FileResult>,
    selected: &Vec<(usize, ContentEntry)>,
    shown: usize,
    options: PlanOptions,
) -> (lines: Vec<PlannedContentLine>)
    requires
        shown <= selected@.len(),
        selection_known(result_views(results@), selected@),
    ensures
        plan_views(lines@) == content_plan(
            result_views(results@),
            selected@.take(shown as int),
            options,
        ),
{
    let ghost files = result_views(results@);
    let groups = group_by_file(Ghost(files), selected, shown);
    let ghost parts = group_views(groups@);
    let mut lines: Vec<PlannedContentLine> = Vec::new();
    let mut index: usize = 0;
    assert(plan_views(lines@) =~= file_groups(files, parts.take(0), options));
    while index < groups.len()
        invariant
            index <= groups.len(),
            files == result_views(results@),
            parts == group_views(groups@),
            groups_known(files, parts),
            plan_views(lines@) == file_groups(files, parts.take(index as int), options),
        decreases groups.len() - index,
    {
        let file_index = groups[index].0;
        proof {
            assert(parts.take(index + 1).drop_last() =~= parts.take(index as int));
            assert(parts.take(index + 1).last() == parts[index as int]);
            assert(parts[index as int] == (file_index, groups@[index as int].1@));
            assert(files[file_index as int] == results@[file_index as int]@);
        }
        if !options.single_file {
            if index > 0 {
                push_line(&mut lines, PlannedContentLine::Empty);
            }
            push_line(&mut lines, PlannedContentLine::Header(file_index));
        }
        if let FilePayload::Content(content) = &results[file_index].payload {
            if options.only_matching {
                plan_only_matching_group(
                    file_index,
                    content,
                    &groups[index].1,
                    options.before,
                    options.after,
                    &mut lines,
                );
            } else {
                plan_matching_line_group(
                    file_index,
                    content,
                    &groups[index].1,
                    options.before,
                    options.after,
                    &mut lines,
                );
            }
        }
        index += 1;
    }
    assert(parts.take(groups@.len() as int) =~= parts);
    lines
}

} // verus!
