//! What a head note promises, said of its words alone.

use crate::head_note;
use crate::head_note::{CoverageTotal, CoveredRange, HeadMetric, NoteSpec};
use crate::text;
use crate::text::laws as text_laws;
use vstd::prelude::*;
use vstd::string::*;

verus! {

/// A note names its subject, and in brackets its metric and its facts, parted by semicolons.
pub proof fn a_note_lists_its_facts(note: NoteSpec, fact: Seq<char>)
    ensures
        note.facts.len() == 0 ==> note.line() == "=== "@ + text::single_line_spec(note.subject)
            + " ("@ + note.metric + ") ==="@,
        ({
            let inside = text::joined(note.clauses(), "; "@);
            &&& note.line() == "=== "@ + text::single_line_spec(note.subject) + " ("@ + inside
                + ") ==="@
            &&& note.with_fact(fact).line() == "=== "@ + text::single_line_spec(note.subject)
                + " ("@ + (inside + "; "@ + text::single_line_spec(fact)) + ") ==="@
        }),
{
    let told = note.with_fact(fact);
    let clauses = note.clauses();
    assert(told.clauses() =~= clauses.push(text::single_line_spec(fact)));
    text_laws::joining_puts_the_separator_between(
        clauses,
        text::single_line_spec(fact),
        "; "@,
    );
    if note.facts.len() == 0 {
        assert(clauses =~= seq![note.metric]);
        text_laws::joining_puts_the_separator_between(clauses, note.metric, "; "@);
    }
}

/// A count is written with the noun for one only where it is one.
pub proof fn counts_agree_with_their_nouns(count: nat, singular: Seq<char>, plural: Seq<char>)
    ensures
        count == 1 ==> head_note::counted_spec(count, singular, plural) == text::decimal(1).push(
            ' ',
        ) + singular,
        count != 1 ==> head_note::counted_spec(count, singular, plural) == text::decimal(
            count,
        ).push(' ') + plural,
{
    reveal_strlit(" ");
    assert(text::decimal(count) + " "@ =~= text::decimal(count).push(' '));
}

/// A page has its note on the first line, then its body, then what was left out, each on lines of
/// their own.
pub proof fn a_page_begins_with_its_note(note: NoteSpec, body: Seq<char>)
    ensures
        body.len() == 0 ==> note.page(body) == note.line(),
        body.len() > 0 ==> note.page(body) == note.line().push('\n') + body,
{
    reveal_strlit("\n");
    assert(note.line() + "\n"@ =~= note.line().push('\n'));
}

/// A metric tells what is covered of how much, or how many there are of something, also in how many
/// files. A range is told by its first and last number, a single one by that alone.
pub proof fn metrics_tell_what_is_covered(metric: HeadMetric, range: CoveredRange)
    ensures
        range.first == range.last ==> range.written() == text::decimal(range.first as nat),
        range.first != range.last ==> range.written() == text::decimal(range.first as nat).push(
            '-',
        ) + text::decimal(range.last as nat),
        metric matches HeadMetric::Coverage { unit, ranges, total } ==> (ranges@ == seq![range]
            ==> metric.written() == unit@ + " "@ + range.written() + match total {
            CoverageTotal::Exact(total) => " of "@ + text::decimal(total as nat),
            CoverageTotal::AtLeast(total) => " of at least "@ + text::decimal(total as nat),
            CoverageTotal::FileBytes(bytes) => " of a "@ + text::decimal(bytes as nat)
                + "-byte file"@,
        }),
        metric matches HeadMetric::CountInFiles { count, singular, plural, files } ==> metric.written()
            == head_note::counted_spec(count as nat, singular@, plural@) + " in "@
            + head_note::counted_spec(files as nat, "file"@, "files"@),
{
    reveal_strlit("-");
    let first = text::decimal(range.first as nat);
    assert(first + "-"@ =~= first.push('-'));
    if let HeadMetric::Coverage { unit, ranges, total } = metric {
        if ranges@ == seq![range] {
            assert(head_note::written_ranges(ranges@) =~= seq![range.written()]);
            text_laws::joining_puts_the_separator_between(
                seq![range.written()],
                range.written(),
                " and "@,
            );
            let told = unit@ + " "@ + range.written();
            match total {
                CoverageTotal::Exact(total) => {
                    assert(metric.written() =~= told + (" of "@ + text::decimal(total as nat)));
                },
                CoverageTotal::AtLeast(total) => {
                    assert(metric.written() =~= told + (" of at least "@ + text::decimal(
                        total as nat,
                    )));
                },
                CoverageTotal::FileBytes(bytes) => {
                    assert(metric.written() =~= told + (" of a "@ + text::decimal(bytes as nat)
                        + "-byte file"@));
                },
            }
        }
    }
}

} // verus!
