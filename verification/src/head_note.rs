//! The one-line note that heads every successful response: subject, metric and facts.

pub mod laws;

use crate::model::ToolResponse;
use crate::text;
use crate::text::{decimal_text, join_first, single_line};
use vstd::prelude::*;
use vstd::string::*;

verus! {

/// A one-based inclusive range shown in a response body.
#[derive(Clone, Copy, Debug, PartialEq, Eq, Structural)]
pub struct CoveredRange {
    pub first: usize,
    pub last: usize,
}

impl CoveredRange {
    /// A range with these bounds.
    pub fn new(first: usize, last: usize) -> (range: Self)
        ensures
            range.first == first,
            range.last == last,
    {
        CoveredRange { first, last }
    }

    /// Whether the range has exactly these bounds.
    pub fn is(&self, first: usize, last: usize) -> (same: bool)
        ensures
            same == (self.first == first && self.last == last),
    {
        self.first == first && self.last == last
    }

    /// How the range is written: one number, or two with a hyphen.
    pub open spec fn written(self) -> Seq<char> {
        if self.first == self.last {
            text::decimal(self.first as nat)
        } else {
            text::decimal(self.first as nat) + "-"@ + text::decimal(self.last as nat)
        }
    }

    fn write(&self) -> (text: String)
        ensures
            text@ == self.written(),
    {
        let mut text = decimal_text(self.first as u64);
        if self.first != self.last {
            text.append("-");
            text.append(decimal_text(self.last as u64).as_str());
        }
        text
    }
}

/// The scale that a coverage is measured against.
#[derive(Clone, Copy, Debug, PartialEq, Eq, Structural)]
pub enum CoverageTotal {
    /// The complete set has this size.
    Exact(usize),
    /// At least so many entries exist; scanning stopped.
    AtLeast(usize),
    /// The size of a file that is too large to count.
    FileBytes(u64),
}

/// What a response counts.
#[derive(Debug, PartialEq, Eq)]
#[allow(inconsistent_fields)]
pub enum HeadMetric {
    /// Ranges of the body against a total.
    Coverage { unit: &'static str, ranges: Vec<CoveredRange>, total: CoverageTotal },
    /// An exact count.
    Count { count: usize, singular: &'static str, plural: &'static str },
    /// An exact count and the number of files that it is spread over.
    CountInFiles { count: usize, singular: &'static str, plural: &'static str, files: usize },
    /// An event that needs no body.
    Event(String),
}

/// The noun that goes with a count.
pub open spec fn noun_spec(count: nat, singular: Seq<char>, plural: Seq<char>) -> Seq<char> {
    if count == 1 {
        singular
    } else {
        plural
    }
}

/// The noun that goes with a count.
pub fn noun<'a>(count: usize, singular: &'a str, plural: &'a str) -> (word: &'a str)
    ensures
        word@ == noun_spec(count as nat, singular@, plural@),
{
    if count == 1 {
        singular
    } else {
        plural
    }
}

/// A count with its noun.
pub open spec fn counted_spec(count: nat, singular: Seq<char>, plural: Seq<char>) -> Seq<char> {
    text::decimal(count) + " "@ + noun_spec(count, singular, plural)
}

/// Writes a count with its noun.
pub fn counted(count: usize, singular: &str, plural: &str) -> (text: String)
    ensures
        text@ == counted_spec(count as nat, singular@, plural@),
{
    let mut text = decimal_text(count as u64);
    text.append(" ");
    text.append(noun(count, singular, plural));
    text
}

/// The ranges in writing.
pub open spec fn written_ranges(ranges: Seq<CoveredRange>) -> Seq<Seq<char>> {
    ranges.map(|i: int, range: CoveredRange| range.written())
}

fn write_ranges(ranges: &Vec<CoveredRange>) -> (text: String)
    ensures
        text@ == text::joined(written_ranges(ranges@), " and "@),
{
    let mut written: Vec<String> = Vec::new();
    let mut index: usize = 0;
    while index < ranges.len()
        invariant
            index <= ranges.len(),
            text::views(written@) == written_ranges(ranges@.take(index as int)),
            written@.len() == index,
        decreases ranges.len() - index,
    {
        let ghost before = written@;
        let range = ranges[index].write();
        let ghost shown = range@;
        written.push(range);
        proof {
            assert(text::views(written@) =~= text::views(before).push(shown));
            assert(written_ranges(ranges@.take(index + 1)) =~= written_ranges(
                ranges@.take(index as int),
            ).push(shown));
        }
        index += 1;
    }
    assert(ranges@.take(ranges@.len() as int) =~= ranges@);
    assert(written@.take(written@.len() as int) =~= written@);
    join_first(written.as_slice(), written.len(), " and ")
}

impl HeadMetric {
    /// The metric in writing.
    pub open spec fn written(&self) -> Seq<char> {
        match self {
            HeadMetric::Coverage { unit, ranges, total } => {
                let covered = unit@ + " "@ + text::joined(written_ranges(ranges@), " and "@);
                match total {
                    CoverageTotal::Exact(total) => covered + " of "@ + text::decimal(
                        *total as nat,
                    ),
                    CoverageTotal::AtLeast(total) => covered + " of at least "@ + text::decimal(
                        *total as nat,
                    ),
                    CoverageTotal::FileBytes(bytes) => covered + " of a "@ + text::decimal(
                        *bytes as nat,
                    ) + "-byte file"@,
                }
            },
            HeadMetric::Count { count, singular, plural } => counted_spec(
                *count as nat,
                singular@,
                plural@,
            ),
            HeadMetric::CountInFiles { count, singular, plural, files } => counted_spec(
                *count as nat,
                singular@,
                plural@,
            ) + " in "@ + counted_spec(*files as nat, "file"@, "files"@),
            HeadMetric::Event(event) => text::single_line_spec(event@),
        }
    }

    /// An exact count.
    pub fn count(count: usize, singular: &'static str, plural: &'static str) -> (metric: Self)
        ensures
            metric == (HeadMetric::Count { count, singular, plural }),
    {
        HeadMetric::Count { count, singular, plural }
    }

    /// An exact count spread over files.
    pub fn count_in_files(
        count: usize,
        singular: &'static str,
        plural: &'static str,
        files: usize,
    ) -> (metric: Self)
        ensures
            metric == (HeadMetric::CountInFiles { count, singular, plural, files }),
    {
        HeadMetric::CountInFiles { count, singular, plural, files }
    }

    /// An event.
    pub fn event(event: String) -> (metric: Self)
        ensures
            metric == HeadMetric::Event(event),
    {
        HeadMetric::Event(event)
    }

    /// The metric in writing.
    pub fn render(&self) -> (text: String)
        ensures
            text@ == self.written(),
    {
        match self {
            HeadMetric::Coverage { unit, ranges, total } => {
                let mut text = str::to_owned(unit);
                text.append(" ");
                text.append(write_ranges(ranges).as_str());
                match total {
                    CoverageTotal::Exact(total) => {
                        text.append(" of ");
                        text.append(decimal_text(*total as u64).as_str());
                    },
                    CoverageTotal::AtLeast(total) => {
                        text.append(" of at least ");
                        text.append(decimal_text(*total as u64).as_str());
                    },
                    CoverageTotal::FileBytes(bytes) => {
                        text.append(" of a ");
                        text.append(decimal_text(*bytes).as_str());
                        text.append("-byte file");
                    },
                }
                text
            },
            HeadMetric::Count { count, singular, plural } => counted(*count, singular, plural),
            HeadMetric::CountInFiles { count, singular, plural, files } => {
                let mut text = counted(*count, singular, plural);
                text.append(" in ");
                text.append(counted(*files, "file", "files").as_str());
                text
            },
            HeadMetric::Event(event) => single_line(event.as_str()),
        }
    }
}

/// The note that heads a response.
#[derive(Debug, PartialEq, Eq)]
pub struct HeadNote {
    subject: String,
    metric_text: String,
    facts: Vec<String>,
}

/// The mathematical value of a [`HeadNote`].
pub struct NoteSpec {
    pub subject: Seq<char>,
    pub metric: Seq<char>,
    pub facts: Seq<Seq<char>>,
}

impl View for HeadNote {
    type V = NoteSpec;

    closed spec fn view(&self) -> NoteSpec {
        NoteSpec {
            subject: self.subject@,
            metric: self.metric_text@,
            facts: text::views(self.facts@),
        }
    }
}

impl NoteSpec {
    /// The note with one more fact.
    pub open spec fn with_fact(self, fact: Seq<char>) -> NoteSpec {
        NoteSpec { facts: self.facts.push(fact), ..self }
    }

    /// The note with more facts.
    pub open spec fn with_facts(self, facts: Seq<Seq<char>>) -> NoteSpec {
        NoteSpec { facts: self.facts + facts, ..self }
    }

    /// Metric and facts, each on one line.
    pub open spec fn clauses(self) -> Seq<Seq<char>> {
        seq![self.metric] + self.facts.map(
            |i: int, fact: Seq<char>| text::single_line_spec(fact),
        )
    }

    /// The line that the note is.
    pub open spec fn line(self) -> Seq<char> {
        "=== "@ + text::single_line_spec(self.subject) + " ("@ + text::joined(self.clauses(), "; "@)
            + ") ==="@
    }

    /// The note above a body; an empty body adds nothing.
    pub open spec fn page(self, body: Seq<char>) -> Seq<char> {
        if body.len() == 0 {
            self.line()
        } else {
            self.line() + "\n"@ + body
        }
    }
}

/// A note without facts.
pub open spec fn note_spec(subject: Seq<char>, metric: HeadMetric) -> NoteSpec {
    NoteSpec { subject, metric: metric.written(), facts: Seq::empty() }
}

impl HeadNote {
    /// A note without facts.
    pub fn new(subject: String, metric: HeadMetric) -> (note: Self)
        ensures
            note@ == note_spec(subject@, metric),
    {
        let note = HeadNote { subject, metric_text: metric.render(), facts: Vec::new() };
        assert(note@.facts =~= Seq::<Seq<char>>::empty());
        note
    }

    /// The note with one more fact.
    pub fn fact(self, fact: String) -> (note: Self)
        ensures
            note@ == self@.with_fact(fact@),
    {
        let mut facts = self.facts;
        let ghost before = facts@;
        let ghost shown = fact@;
        facts.push(fact);
        assert(text::views(facts@) =~= text::views(before).push(shown));
        HeadNote { subject: self.subject, metric_text: self.metric_text, facts }
    }

    /// A copy of the note.
    pub fn duplicate(&self) -> (note: Self)
        ensures
            note@ == self@,
    {
        let mut facts: Vec<String> = Vec::new();
        let mut index: usize = 0;
        while index < self.facts.len()
            invariant
                index <= self.facts.len(),
                facts@.len() == index,
                forall|i: int| 0 <= i < index ==> #[trigger] facts@[i]@ == self.facts@[i]@,
            decreases self.facts.len() - index,
        {
            facts.push(self.facts[index].clone());
            index += 1;
        }
        assert(text::views(facts@) =~= text::views(self.facts@));
        HeadNote {
            subject: self.subject.clone(),
            metric_text: self.metric_text.clone(),
            facts,
        }
    }

    /// The line that the note is.
    pub fn render(&self) -> (line: String)
        ensures
            line@ == self@.line(),
    {
        let mut clauses: Vec<String> = Vec::new();
        clauses.push(self.metric_text.clone());
        let mut index: usize = 0;
        while index < self.facts.len()
            invariant
                index <= self.facts.len(),
                clauses@.len() == index + 1,
                clauses@[0]@ == self.metric_text@,
                forall|i: int|
                    0 <= i < index ==> (#[trigger] clauses@[i + 1])@ == text::single_line_spec(
                        self.facts@[i]@,
                    ),
            decreases self.facts.len() - index,
        {
            clauses.push(single_line(self.facts[index].as_str()));
            index += 1;
        }
        proof {
            let want = self@.clauses();
            assert forall|i: int| 0 <= i < want.len() implies text::views(clauses@)[i] == want[i] by {
                if i > 0 {
                    assert(clauses@[(i - 1) + 1]@ == text::single_line_spec(self.facts@[i - 1]@));
                }
            }
            assert(text::views(clauses@) =~= want);
            assert(clauses@.take(clauses@.len() as int) =~= clauses@);
        }
        let mut line = "=== ".to_owned();
        line.append(single_line(self.subject.as_str()).as_str());
        line.append(" (");
        line.append(join_first(clauses.as_slice(), clauses.len(), "; ").as_str());
        line.append(") ===");
        line
    }

    /// The note above a body.
    pub fn render_with_body(&self, body: &str) -> (page: String)
        ensures
            page@ == self@.page(body@),
    {
        let mut page = self.render();
        if !body.is_empty() {
            page.append("\n");
            page.append(body);
        }
        page
    }

    /// A successful response with the note at its head.
    pub fn into_text_response(self, body: &str) -> (response: ToolResponse)
        ensures
            !response.is_error,
            response.is_single_text(self@.page(body@)),
    {
        ToolResponse::text(self.render_with_body(body))
    }
}

/// Whether a text has no line break.
pub open spec fn one_line(text: Seq<char>) -> bool {
    forall|i: int| 0 <= i < text.len() ==> #[trigger] text[i] != '\n' && text[i] != '\r'
}

proof fn joined_is_one_line(parts: Seq<Seq<char>>, separator: Seq<char>)
    requires
        one_line(separator),
        forall|i: int| 0 <= i < parts.len() ==> one_line(#[trigger] parts[i]),
    ensures
        one_line(text::joined(parts, separator)),
    decreases parts.len(),
{
    if parts.len() > 1 {
        assert forall|i: int| 0 <= i < parts.drop_last().len() implies one_line(
            #[trigger] parts.drop_last()[i],
        ) by {
            assert(parts.drop_last()[i] == parts[i]);
        }
        joined_is_one_line(parts.drop_last(), separator);
        let head = text::joined(parts.drop_last(), separator);
        let all = text::joined(parts, separator);
        assert(one_line(parts[parts.len() - 1]));
        assert forall|i: int| 0 <= i < all.len() implies #[trigger] all[i] != '\n' && all[i]
            != '\r' by {
            if i < head.len() {
                assert(all[i] == head[i]);
            } else if i < head.len() + separator.len() {
                assert(all[i] == separator[i - head.len()]);
            } else {
                assert(all[i] == parts.last()[i - head.len() - separator.len()]);
            }
        }
    }
}

/// A head note is one line whatever its subject and facts hold, as long as its metric is.
pub proof fn note_is_one_line(note: NoteSpec)
    requires
        one_line(note.metric),
    ensures
        one_line(note.line()),
{
    reveal_strlit("=== ");
    reveal_strlit(" (");
    reveal_strlit("; ");
    reveal_strlit(") ===");
    let clauses = note.clauses();
    assert forall|i: int| 0 <= i < clauses.len() implies one_line(#[trigger] clauses[i]) by {
        if i > 0 {
            text::single_line_has_no_break(note.facts[i - 1]);
        }
    }
    joined_is_one_line(clauses, "; "@);
    text::single_line_has_no_break(note.subject);
    let subject = text::single_line_spec(note.subject);
    let middle = text::joined(clauses, "; "@);
    let line = note.line();
    assert forall|i: int| 0 <= i < line.len() implies #[trigger] line[i] != '\n' && line[i]
        != '\r' by {
        if i < 4 {
            assert(line[i] == "=== "@[i]);
        } else if i < 4 + subject.len() {
            assert(line[i] == subject[i - 4]);
        } else if i < 4 + subject.len() + 2 {
            assert(line[i] == " ("@[i - 4 - subject.len()]);
        } else if i < 6 + subject.len() + middle.len() {
            assert(line[i] == middle[i - 6 - subject.len()]);
        } else {
            assert(line[i] == ") ==="@[i - 6 - subject.len() - middle.len()]);
        }
    }
}

} // verus!
