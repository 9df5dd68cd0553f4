//! Writing a page: paths, counts, matches or totals under one head note, within a token budget.

use crate::grep::lines;
use crate::grep::plan;
use crate::grep::plan::OutputMode;
use crate::grep::search::{FileResult, FileSpec};
use crate::head_note;
use crate::head_note::{counted, CoverageTotal, CoveredRange, HeadMetric, HeadNote, NoteSpec};
use crate::model::ToolResponse;
use crate::page;
use crate::page::{finish_page, settle, NoteUnits, UnitsSpec};
use crate::paging;
use crate::text;
use crate::text::decimal_text;
use vstd::prelude::*;
use vstd::string::*;
use vstd::utf8::*;

verus! {

/// A text in quotes, with what would be hard to see in it spelled out.
pub uninterp spec fn debug_quoted(text: Seq<char>) -> Seq<char>;

/// The `Debug` form of a string, as `format!("{:?}")` writes it.
#[verifier::external_body]
fn quoted(text: &str) -> (quoted: String)
    ensures
        quoted@ == debug_quoted(text@),
{
    format!("{:?}", text)
}

/// Everything that a page tells beside its entries.
#[derive(Debug)]
pub struct GrepPage {
    pub pattern: String,
    pub offset: usize,
    /// How many entries are shown at most; 0 for no such limit.
    pub head_limit: usize,
    pub budget: usize,
    /// The name of the variable that sets the budget.
    pub budget_variable: String,
    pub scan_complete: bool,
    pub total_entries_seen: usize,
    pub single_file_target: bool,
    pub units: NoteUnits,
}

/// The mathematical value of a [`GrepPage`].
pub struct PageFacts {
    pub pattern: Seq<char>,
    pub offset: usize,
    pub head_limit: usize,
    pub budget: usize,
    pub budget_variable: Seq<char>,
    pub scan_complete: bool,
    pub total_entries_seen: usize,
    pub single_file_target: bool,
    pub units: UnitsSpec,
}

impl View for GrepPage {
    type V = PageFacts;

    open spec fn view(&self) -> PageFacts {
        PageFacts {
            pattern: self.pattern@,
            offset: self.offset,
            head_limit: self.head_limit,
            budget: self.budget,
            budget_variable: self.budget_variable@,
            scan_complete: self.scan_complete,
            total_entries_seen: self.total_entries_seen,
            single_file_target: self.single_file_target,
            units: self.units@,
        }
    }
}

/// A page, or the message of the error in its place.
pub enum PageSpec {
    Text(Seq<char>),
    Error(Seq<char>),
}

/// Whether a response is this page.
pub open spec fn responds(response: ToolResponse, page: PageSpec) -> bool {
    match page {
        PageSpec::Text(text) => !response.is_error && response.is_single_text(text),
        PageSpec::Error(message) => response.is_error && response.is_single_text(message),
    }
}

/// The greater of two numbers.
pub open spec fn greater(left: usize, right: usize) -> usize {
    if left < right {
        right
    } else {
        left
    }
}

impl PageFacts {
    /// What the page is about.
    pub open spec fn subject(self) -> Seq<char> {
        "grep "@ + debug_quoted(self.pattern)
    }

    /// The message for a budget that holds no page.
    pub open spec fn too_small(self) -> Seq<char> {
        self.budget_variable + "="@ + text::decimal(self.budget as nat)
            + " is too small to return the grep head note and one result. Increase it and retry."@
    }

    /// Which entries of how many are shown. A scan that ended early proves only that there is at
    /// least one more.
    pub open spec fn coverage(self, shown: usize, unit: Seq<char>) -> Seq<char> {
        let last = plan::sat(self.offset, shown);
        let proven = greater(self.total_entries_seen, last);
        let range = CoveredRange { first: plan::sat(self.offset, 1), last };
        unit + " "@ + range.written() + if self.scan_complete {
            " of "@ + text::decimal(proven as nat)
        } else {
            " of at least "@ + text::decimal(greater(proven, plan::sat(last, 1)) as nat)
        }
    }

    /// The note above these entries.
    pub open spec fn note(self, shown: usize, unit: Seq<char>) -> NoteSpec {
        NoteSpec {
            subject: self.subject(),
            metric: self.coverage(shown, unit),
            facts: Seq::empty(),
        }
    }

    /// A page without entries.
    pub open spec fn bodyless(self, note: NoteSpec, cost: spec_fn(Seq<char>) -> nat) -> PageSpec {
        match page::finished(self.units, note, Seq::empty(), self.budget as nat, cost) {
            Some(text) => PageSpec::Text(text),
            None => PageSpec::Error(self.too_small()),
        }
    }
}

impl GrepPage {
    fn write_subject(&self) -> (subject: String)
        ensures
            subject@ == self@.subject(),
    {
        let mut subject = "grep ".to_owned();
        subject.append(quoted(self.pattern.as_str()).as_str());
        subject
    }

    pub(crate) fn paged_note(&self, shown: usize, unit: &'static str) -> (note: HeadNote)
        ensures
            note@ == self@.note(shown, unit@),
    {
        let last = self.offset.saturating_add(shown);
        let proven = if self.total_entries_seen < last {
            last
        } else {
            self.total_entries_seen
        };
        let total = if self.scan_complete {
            CoverageTotal::Exact(proven)
        } else {
            let beyond = last.saturating_add(1);
            CoverageTotal::AtLeast(
                if proven < beyond {
                    beyond
                } else {
                    proven
                },
            )
        };
        let mut ranges: Vec<CoveredRange> = Vec::new();
        let range = CoveredRange::new(self.offset.saturating_add(1), last);
        ranges.push(range);
        let ghost written = head_note::written_ranges(ranges@);
        let metric = HeadMetric::Coverage { unit, ranges, total };
        proof {
            assert(written =~= seq![range.written()]);
            reveal_with_fuel(text::joined, 2);
            assert(seq![range.written()].drop_last() =~= Seq::<Seq<char>>::empty());
            assert(metric.written() =~= self@.coverage(shown, unit@));
        }
        HeadNote::new(self.write_subject(), metric)
    }

    pub(crate) fn budget_too_small(&self) -> (response: ToolResponse)
        ensures
            responds(response, PageSpec::Error(self@.too_small())),
    {
        let mut message = self.budget_variable.as_str().to_owned();
        message.append("=");
        message.append(decimal_text(self.budget as u64).as_str());
        message.append(
            " is too small to return the grep head note and one result. Increase it and retry.",
        );
        ToolResponse::error(message)
    }

    fn bodyless_response<F: Fn(&str) -> usize>(&self, note: &HeadNote, estimate: &F) -> (response:
        ToolResponse)
        requires
            self.units@.wf(),
            forall|text: &str| #[trigger] call_requires(*estimate, (text,)),
        ensures
            forall|cost: spec_fn(Seq<char>) -> nat| #[trigger]
                paging::estimates(*estimate, cost) ==> responds(
                    response,
                    self@.bodyless(note@, cost),
                ),
    {
        let body: Vec<String> = Vec::new();
        assert(text::views(body@).take(0) =~= Seq::<Seq<char>>::empty());
        match finish_page(&self.units, note, &body, 0, self.budget, estimate) {
            Some(text) => ToolResponse::text(text),
            None => self.budget_too_small(),
        }
    }
}

/// The page of a summary: totals of a full scan.
pub open spec fn summary_page(
    page: PageFacts,
    occurrences: usize,
    files: usize,
    cost: spec_fn(Seq<char>) -> nat,
) -> PageSpec {
    page.bodyless(
        NoteSpec {
            subject: page.subject(),
            metric: head_note::counted_spec(occurrences as nat, "occurrence"@, "occurrences"@)
                + " in "@ + head_note::counted_spec(files as nat, "file"@, "files"@),
            facts: Seq::empty(),
        },
        cost,
    )
}

/// Writes the totals of a full scan.
pub fn format_summary<F: Fn(&str) -> usize>(
    occurrences: usize,
    files: usize,
    page: &GrepPage,
    estimate: &F,
) -> (response: ToolResponse)
    requires
        page.units@.wf(),
        forall|text: &str| #[trigger] call_requires(*estimate, (text,)),
    ensures
        forall|cost: spec_fn(Seq<char>) -> nat| #[trigger]
            paging::estimates(*estimate, cost) ==> responds(
                response,
                summary_page(page@, occurrences, files, cost),
            ),
{
    let note = HeadNote::new(
        page.write_subject(),
        HeadMetric::count_in_files(occurrences, "occurrence", "occurrences", files),
    );
    page.bodyless_response(&note, estimate)
}

/// The noun for the entries of a mode, for one and for many.
pub open spec fn entry_noun(mode: OutputMode) -> (Seq<char>, Seq<char>) {
    if mode == OutputMode::Content {
        ("match"@, "matches"@)
    } else {
        ("file"@, "files"@)
    }
}

/// The page of a search that found nothing: it counts files where it lists paths, else matches.
pub open spec fn zero_page(
    mode: OutputMode,
    page: PageFacts,
    cost: spec_fn(Seq<char>) -> nat,
) -> PageSpec {
    page.bodyless(
        NoteSpec {
            subject: page.subject(),
            metric: if mode == OutputMode::FilesWithMatches {
                head_note::counted_spec(0, "file"@, "files"@)
            } else {
                head_note::counted_spec(0, "match"@, "matches"@)
            },
            facts: Seq::empty(),
        },
        cost,
    )
}

/// Writes that nothing was found.
pub fn zero_result<F: Fn(&str) -> usize>(mode: OutputMode, page: &GrepPage, estimate: &F) -> (
    response: ToolResponse)
    requires
        mode != OutputMode::Summary,
        page.units@.wf(),
        forall|text: &str| #[trigger] call_requires(*estimate, (text,)),
    ensures
        forall|cost: spec_fn(Seq<char>) -> nat| #[trigger]
            paging::estimates(*estimate, cost) ==> responds(
                response,
                zero_page(mode, page@, cost),
            ),
{
    let metric = if mode == OutputMode::FilesWithMatches {
        HeadMetric::count(0, "file", "files")
    } else {
        HeadMetric::count(0, "match", "matches")
    };
    let note = HeadNote::new(page.write_subject(), metric);
    page.bodyless_response(&note, estimate)
}

/// The page past the last entry.
pub open spec fn exhausted_page(
    mode: OutputMode,
    page: PageFacts,
    cost: spec_fn(Seq<char>) -> nat,
) -> PageSpec {
    let (singular, plural) = entry_noun(mode);
    let exist = head_note::counted_spec(page.total_entries_seen as nat, singular, plural)
        + " exist"@;
    page.bodyless(
        NoteSpec {
            subject: page.subject(),
            metric: head_note::counted_spec(0, singular, plural),
            facts: seq![
                if page.scan_complete {
                    exist
                } else {
                    "at least "@ + exist
                },
            ],
        },
        cost,
    )
}

/// Writes that the offset is past the last entry.
pub fn offset_exhausted<F: Fn(&str) -> usize>(mode: OutputMode, page: &GrepPage, estimate: &F) -> (
    response: ToolResponse)
    requires
        mode != OutputMode::Summary,
        page.units@.wf(),
        forall|text: &str| #[trigger] call_requires(*estimate, (text,)),
    ensures
        forall|cost: spec_fn(Seq<char>) -> nat| #[trigger]
            paging::estimates(*estimate, cost) ==> responds(
                response,
                exhausted_page(mode, page@, cost),
            ),
{
    let content = mode == OutputMode::Content;
    let (singular, plural) = if content {
        ("match", "matches")
    } else {
        ("file", "files")
    };
    let mut exist = counted(page.total_entries_seen, singular, plural);
    exist.append(" exist");
    let extent = if page.scan_complete {
        exist
    } else {
        let mut extent = "at least ".to_owned();
        extent.append(exist.as_str());
        extent
    };
    let metric = HeadMetric::count(0, singular, plural);
    let ghost words = extent@;
    let note = HeadNote::new(page.write_subject(), metric).fact(extent);
    assert(note@.facts =~= seq![words]);
    page.bodyless_response(&note, estimate)
}

/// How many of so many entries a page starts out with.
pub open spec fn initial_shown(head_limit: usize, entries: nat) -> usize {
    if head_limit == 0 || head_limit > entries {
        entries as usize
    } else {
        head_limit
    }
}

/// What a page of lines costs, by the number of lines, without lines on what was left out.
pub open spec fn line_costs(
    page: PageFacts,
    all: Seq<Seq<char>>,
    unit: Seq<char>,
    cost: spec_fn(Seq<char>) -> nat,
) -> spec_fn(int) -> nat {
    |shown: int| cost(page.units.page(page.note(shown as usize, unit), all.take(shown), 0))
}

/// The page of lines: all of them where they fit, else as many as the search settles on.
pub open spec fn line_page(
    page: PageFacts,
    all: Seq<Seq<char>>,
    unit: Seq<char>,
    cost: spec_fn(Seq<char>) -> nat,
) -> PageSpec {
    let maximum = all.len();
    let costs = line_costs(page, all, unit, cost);
    let budget = page.budget as nat;
    let selected = if maximum == 0 {
        None
    } else if costs(maximum as int) <= budget {
        Some(maximum as usize)
    } else if maximum > 1 {
        page::settled(1, maximum - 1, None, costs, budget)
    } else {
        None
    };
    match selected {
        None => PageSpec::Error(page.too_small()),
        Some(shown) => match page::finished(
            page.units,
            page.note(shown, unit),
            all.take(shown as int),
            budget,
            cost,
        ) {
            Some(text) => PageSpec::Text(text),
            None => PageSpec::Error(page.too_small()),
        },
    }
}

/// Writes a page of lines.
pub fn render_line_grep<F: Fn(&str) -> usize>(
    lines: &Vec<String>,
    page: &GrepPage,
    unit: &'static str,
    estimate: &F,
) -> (response: ToolResponse)
    requires
        page.units@.wf(),
        forall|text: &str| #[trigger] call_requires(*estimate, (text,)),
    ensures
        forall|cost: spec_fn(Seq<char>) -> nat| #[trigger]
            paging::estimates(*estimate, cost) ==> responds(
                response,
                line_page(page@, text::views(lines@), unit@, cost),
            ),
{
    let maximum = lines.len();
    if maximum == 0 {
        return page.budget_too_small();
    }
    let tokens = |shown: usize| -> (count: usize)
        requires
            shown <= maximum,
        ensures
            exists|page_text: &str| #[trigger]
                call_ensures(estimate, (page_text,), count) && page_text@ == page@.units.page(
                    page@.note(shown, unit@),
                    text::views(lines@).take(shown as int),
                    0,
                ),
        {
            let note = page.paged_note(shown, unit);
            let written = page.units.write(&note, lines, shown, 0);
            let page_text = written.as_str();
            let count = estimate(page_text);
            assert(call_ensures(estimate, (page_text,), count));
            count
        };
    let full = tokens(maximum);
    let ghost all = text::views(lines@);
    proof {
        assert forall|cost: spec_fn(Seq<char>) -> nat| #[trigger]
            paging::estimates(*estimate, cost) implies full == line_costs(
            page@,
            all,
            unit@,
            cost,
        )(maximum as int) by {}
    }
    let selected = if full <= page.budget {
        Some(maximum)
    } else if maximum > 1 {
        let found = settle(1, maximum - 1, None, page.budget, &tokens);
        proof {
            assert forall|cost: spec_fn(Seq<char>) -> nat| #[trigger]
                paging::estimates(*estimate, cost) implies found == page::settled(
                1,
                maximum - 1,
                None,
                line_costs(page@, all, unit@, cost),
                page.budget as nat,
            ) by {
                assert(page::counts(tokens, line_costs(page@, all, unit@, cost)));
            }
        }
        found
    } else {
        None
    };
    match selected {
        None => page.budget_too_small(),
        Some(shown) => {
            let note = page.paged_note(shown, unit);
            match finish_page(&page.units, &note, lines, shown, page.budget, estimate) {
                Some(text) => ToolResponse::text(text),
                None => page.budget_too_small(),
            }
        },
    }
}

/// The paths of the files of a page.
pub open spec fn path_lines(files: Seq<FileSpec>) -> Seq<Seq<char>> {
    files.map(|i: int, file: FileSpec| file.path)
}

/// The paths of the files of a page with their counts.
pub open spec fn count_lines(files: Seq<FileSpec>) -> Seq<Seq<char>> {
    files.map(|i: int, file: FileSpec| file.path + ":"@ + text::decimal(file.total() as nat))
}

pub(crate) fn initial(head_limit: usize, entries: usize) -> (shown: usize)
    ensures
        shown == initial_shown(head_limit, entries as nat),
        shown <= entries,
{
    if head_limit == 0 || head_limit > entries {
        entries
    } else {
        head_limit
    }
}

/// Writes a page of paths.
pub fn format_files_mode<F: Fn(&str) -> usize>(
    results: &Vec<FileResult>,
    page: &GrepPage,
    estimate: &F,
) -> (response: ToolResponse)
    requires
        page.units@.wf(),
        forall|text: &str| #[trigger] call_requires(*estimate, (text,)),
    ensures
        forall|cost: spec_fn(Seq<char>) -> nat| #[trigger]
            paging::estimates(*estimate, cost) ==> responds(
                response,
                line_page(
                    page@,
                    path_lines(
                        lines::result_views(results@).take(
                            initial_shown(page.head_limit, results@.len()) as int,
                        ),
                    ),
                    "files"@,
                    cost,
                ),
            ),
{
    let count = initial(page.head_limit, results.len());
    let mut paths: Vec<String> = Vec::new();
    let mut index: usize = 0;
    let ghost files = lines::result_views(results@);
    while index < count
        invariant
            index <= count <= results@.len(),
            files == lines::result_views(results@),
            text::views(paths@) == path_lines(files.take(index as int)),
        decreases count - index,
    {
        let ghost before = paths@;
        let path = results[index].path.as_str().to_owned();
        let ghost shown = path@;
        paths.push(path);
        proof {
            assert(text::views(paths@) =~= text::views(before).push(shown));
            assert(path_lines(files.take(index + 1)) =~= path_lines(files.take(index as int)).push(
                shown,
            ));
        }
        index += 1;
    }
    render_line_grep(&paths, page, "files", estimate)
}

/// Writes a page of paths with their counts.
pub fn format_count_mode<F: Fn(&str) -> usize>(
    results: &Vec<FileResult>,
    page: &GrepPage,
    estimate: &F,
) -> (response: ToolResponse)
    requires
        page.units@.wf(),
        forall|text: &str| #[trigger] call_requires(*estimate, (text,)),
    ensures
        forall|cost: spec_fn(Seq<char>) -> nat| #[trigger]
            paging::estimates(*estimate, cost) ==> responds(
                response,
                line_page(
                    page@,
                    count_lines(
                        lines::result_views(results@).take(
                            initial_shown(page.head_limit, results@.len()) as int,
                        ),
                    ),
                    "files"@,
                    cost,
                ),
            ),
{
    let count = initial(page.head_limit, results.len());
    let mut rows: Vec<String> = Vec::new();
    let mut index: usize = 0;
    let ghost files = lines::result_views(results@);
    while index < count
        invariant
            index <= count <= results@.len(),
            files == lines::result_views(results@),
            text::views(rows@) == count_lines(files.take(index as int)),
        decreases count - index,
    {
        let ghost before = rows@;
        let mut row = results[index].path.as_str().to_owned();
        row.append(":");
        row.append(decimal_text(results[index].occurrence_count() as u64).as_str());
        let ghost shown = row@;
        rows.push(row);
        proof {
            assert(text::views(rows@) =~= text::views(before).push(shown));
            assert(count_lines(files.take(index + 1)) =~= count_lines(
                files.take(index as int),
            ).push(shown));
        }
        index += 1;
    }
    render_line_grep(&rows, page, "files", estimate)
}

} // verus!
