//! Reports of a batch replacement, cut to a token budget.

use crate::head_note;
use crate::head_note::{counted, HeadMetric, HeadNote, NoteSpec};
use crate::model::ToolResponse;
use crate::paging;
use crate::text;
use crate::text::{contains_text, decimal_text, join_first, starts_with_text};
use vstd::prelude::*;
use vstd::string::*;

verus! {

/// Something worth telling about one path.
#[derive(Debug)]
pub struct Issue {
    pub path: String,
    pub message: String,
}

/// The mathematical value of an [`Issue`].
pub struct IssueSpec {
    pub path: Seq<char>,
    pub message: Seq<char>,
}

impl View for Issue {
    type V = IssueSpec;

    open spec fn view(&self) -> IssueSpec {
        IssueSpec { path: self.path@, message: self.message@ }
    }
}

/// The mathematical values of issues.
pub open spec fn issue_views(issues: Seq<Issue>) -> Seq<IssueSpec> {
    issues.map(|i: int, issue: Issue| issue@)
}

/// A file whose content a replacement would change.
#[derive(Debug)]
pub struct AnalyzedFile {
    /// The path as it is shown.
    pub path: String,
    /// Identity of the directory entry.
    pub name_identity: Vec<u8>,
    /// Identity of the file.
    pub identity: Vec<u8>,
    /// Revision of the content that was analyzed.
    pub revision: String,
    /// The number of replacements.
    pub matches: usize,
    /// Previews of the first replacements.
    pub previews: Vec<String>,
    /// Whether there are fewer previews than replacements.
    pub previews_truncated: bool,
    /// Whether the content was decoded with the fallback encoding.
    pub used_fallback: bool,
}

/// The mathematical value of an [`AnalyzedFile`].
pub struct AnalyzedSpec {
    pub path: Seq<char>,
    pub name_identity: Seq<u8>,
    pub identity: Seq<u8>,
    pub revision: Seq<char>,
    pub matches: nat,
    pub previews: Seq<Seq<char>>,
    pub previews_truncated: bool,
    pub used_fallback: bool,
}

impl View for AnalyzedFile {
    type V = AnalyzedSpec;

    open spec fn view(&self) -> AnalyzedSpec {
        AnalyzedSpec {
            path: self.path@,
            name_identity: self.name_identity@,
            identity: self.identity@,
            revision: self.revision@,
            matches: self.matches as nat,
            previews: text::views(self.previews@),
            previews_truncated: self.previews_truncated,
            used_fallback: self.used_fallback,
        }
    }
}

/// The mathematical values of analyzed files.
pub open spec fn file_views(files: Seq<AnalyzedFile>) -> Seq<AnalyzedSpec> {
    files.map(|i: int, file: AnalyzedFile| file@)
}

/// Paths and how many replacements were written to each.
pub open spec fn success_views(successes: Seq<(String, usize)>) -> Seq<(Seq<char>, nat)> {
    successes.map(|i: int, success: (String, usize)| (success.0@, success.1 as nat))
}

/// The lines of a dry run: each path with its previews.
pub open spec fn file_lines(files: Seq<AnalyzedSpec>) -> Seq<Seq<char>>
    decreases files.len(),
{
    if files.len() == 0 {
        Seq::empty()
    } else {
        file_lines(files.drop_last()).push(files.last().path) + files.last().previews
    }
}

/// The line about an issue.
pub open spec fn issue_line(issue: IssueSpec, label: Seq<char>) -> Seq<char> {
    issue.path + " — "@ + label + ": "@ + issue.message
}

/// The lines about issues.
pub open spec fn issue_lines(issues: Seq<IssueSpec>, label: Seq<char>) -> Seq<Seq<char>> {
    issues.map(|i: int, issue: IssueSpec| issue_line(issue, label))
}

/// The lines about written files.
pub open spec fn success_lines(successes: Seq<(Seq<char>, nat)>) -> Seq<Seq<char>> {
    successes.map(
        |i: int, success: (Seq<char>, nat)|
            success.0 + ": "@ + head_note::counted_spec(
                success.1,
                "replacement"@,
                "replacements"@,
            ),
    )
}

fn push_file_lines(lines: &mut Vec<String>, files: &Vec<AnalyzedFile>)
    ensures
        text::views(final(lines)@) == text::views(old(lines)@) + file_lines(file_views(files@)),
{
    let ghost start = text::views(lines@);
    let ghost shown = file_views(files@);
    let mut index: usize = 0;
    assert(shown.take(0) =~= Seq::<AnalyzedSpec>::empty());
    assert(start + file_lines(shown.take(0)) =~= start);
    while index < files.len()
        invariant
            index <= files.len(),
            shown == file_views(files@),
            text::views(lines@) == start + file_lines(shown.take(index as int)),
        decreases files.len() - index,
    {
        let file = &files[index];
        let ghost before = text::views(lines@);
        proof {
            assert(shown.take(index + 1).drop_last() =~= shown.take(index as int));
            assert(shown.take(index + 1).last() == file@);
        }
        lines.push(file.path.clone());
        assert(text::views(lines@) =~= before.push(file@.path));
        let mut shown_previews: usize = 0;
        assert(before.push(file@.path) + file@.previews.take(0) =~= before.push(file@.path));
        while shown_previews < file.previews.len()
            invariant
                shown_previews <= file.previews.len(),
                text::views(lines@) == before.push(file@.path) + file@.previews.take(
                    shown_previews as int,
                ),
            decreases file.previews.len() - shown_previews,
        {
            let ghost held = text::views(lines@);
            lines.push(file.previews[shown_previews].clone());
            proof {
                let added = file@.previews[shown_previews as int];
                assert(text::views(lines@) =~= held.push(added));
                assert(file@.previews.take(shown_previews + 1) =~= file@.previews.take(
                    shown_previews as int,
                ).push(added));
            }
            shown_previews += 1;
        }
        proof {
            assert(file@.previews.take(file@.previews.len() as int) =~= file@.previews);
            assert(text::views(lines@) =~= start + file_lines(shown.take(index + 1)));
        }
        index += 1;
    }
    assert(shown.take(shown.len() as int) =~= shown);
}

fn push_issue_lines(lines: &mut Vec<String>, issues: &Vec<Issue>, label: &str)
    ensures
        text::views(final(lines)@) == text::views(old(lines)@) + issue_lines(
            issue_views(issues@),
            label@,
        ),
{
    let ghost start = text::views(lines@);
    let ghost wanted = issue_lines(issue_views(issues@), label@);
    let mut index: usize = 0;
    assert(start + wanted.take(0) =~= start);
    while index < issues.len()
        invariant
            index <= issues.len(),
            wanted == issue_lines(issue_views(issues@), label@),
            text::views(lines@) == start + wanted.take(index as int),
        decreases issues.len() - index,
    {
        let issue = &issues[index];
        let ghost before = text::views(lines@);
        let mut line = issue.path.clone();
        line.append(" — ");
        line.append(label);
        line.append(": ");
        line.append(issue.message.as_str());
        let ghost added = line@;
        lines.push(line);
        proof {
            assert(wanted[index as int] == added);
            assert(text::views(lines@) =~= before.push(added));
            assert(wanted.take(index + 1) =~= wanted.take(index as int).push(added));
        }
        index += 1;
    }
    assert(wanted.take(wanted.len() as int) =~= wanted);
}

fn push_success_lines(lines: &mut Vec<String>, successes: &Vec<(String, usize)>)
    ensures
        text::views(final(lines)@) == text::views(old(lines)@) + success_lines(
            success_views(successes@),
        ),
{
    let ghost start = text::views(lines@);
    let ghost wanted = success_lines(success_views(successes@));
    let mut index: usize = 0;
    assert(start + wanted.take(0) =~= start);
    while index < successes.len()
        invariant
            index <= successes.len(),
            wanted == success_lines(success_views(successes@)),
            text::views(lines@) == start + wanted.take(index as int),
        decreases successes.len() - index,
    {
        let ghost before = text::views(lines@);
        let mut line = successes[index].0.clone();
        line.append(": ");
        line.append(counted(successes[index].1, "replacement", "replacements").as_str());
        let ghost added = line@;
        lines.push(line);
        proof {
            assert(wanted[index as int] == added);
            assert(text::views(lines@) =~= before.push(added));
            assert(wanted.take(index + 1) =~= wanted.take(index as int).push(added));
        }
        index += 1;
    }
    assert(wanted.take(wanted.len() as int) =~= wanted);
}

/// Whether `grant` is what `expand` returns for every number of tokens.
pub open spec fn expands<G: Fn(usize) -> Option<usize>>(
    expand: G,
    grant: spec_fn(nat) -> Option<nat>,
) -> bool {
    forall|required: usize, value: Option<usize>|
        #[trigger] call_ensures(expand, (required,), value) ==> match value {
            Some(value) => grant(required as nat) == Some(value as nat),
            None => grant(required as nat) is None,
        }
}

/// The report with only its first lines.
pub open spec fn report_page(note: NoteSpec, lines: Seq<Seq<char>>, shown: int) -> Seq<char> {
    note.with_fact(
        "report shows "@ + text::decimal(shown as nat) + " of "@ + text::decimal(lines.len())
            + " lines"@,
    ).page(text::joined(lines.take(shown), "\n"@))
}

/// The report with as many lines as the budget was found to allow, or with none.
pub open spec fn cut_report(
    note: NoteSpec,
    lines: Seq<Seq<char>>,
    budget: nat,
    cost: spec_fn(Seq<char>) -> nat,
) -> Seq<char> {
    let fits = |shown: int|
        if cost(report_page(note, lines, shown)) <= budget {
            Ok::<Option<int>, ()>(Some(shown))
        } else {
            Ok::<Option<int>, ()>(None)
        };
    match paging::probed(0, lines.len() as int, None, fits) {
        Ok(Some(shown)) => report_page(note, lines, shown),
        _ => report_page(note, lines, 0),
    }
}

/// The report: whole when it fits, else cut, else with a greater budget, else refused.
pub open spec fn report_spec(
    note: NoteSpec,
    lines: Seq<Seq<char>>,
    budget: nat,
    capped: bool,
    cost: spec_fn(Seq<char>) -> nat,
    grant: spec_fn(nat) -> Option<nat>,
) -> Result<Seq<char>, Seq<char>>
    decreases usize::MAX - budget,
{
    let base = if capped {
        note.with_fact("preview details were capped before rendering"@)
    } else {
        note
    };
    let full = base.page(text::joined(lines, "\n"@));
    if !capped && cost(full) <= budget {
        Ok(full)
    } else {
        let output = cut_report(base, lines, budget, cost);
        if cost(output) <= budget {
            Ok(output)
        } else {
            match grant(cost(output)) {
                Some(value) => if budget < value <= usize::MAX {
                    report_spec(base, lines, value, false, cost, grant)
                } else {
                    Err(small_budget(budget))
                },
                None => Err(small_budget(budget)),
            }
        }
    }
}

/// The message about a budget that holds not even the head note.
pub open spec fn small_budget(budget: nat) -> Seq<char> {
    "FASTCTX_TOKEN_BUDGET="@ + text::decimal(budget)
        + " is too small to return the replace head note. That budget is fixed for this session; retrying cannot raise it."@
}

/// Whether a response is the report or its refusal.
pub open spec fn responds(response: ToolResponse, report: Result<Seq<char>, Seq<char>>) -> bool {
    match report {
        Ok(text) => !response.is_error && response.is_single_text(text),
        Err(message) => response.is_error && response.is_single_text(message),
    }
}

fn write_page(note: &HeadNote, lines: &Vec<String>, shown: usize) -> (page: String)
    requires
        shown <= lines.len(),
    ensures
        page@ == report_page(note@, text::views(lines@), shown as int),
{
    let mut fact = "report shows ".to_owned();
    fact.append(decimal_text(shown as u64).as_str());
    fact.append(" of ");
    fact.append(decimal_text(lines.len() as u64).as_str());
    fact.append(" lines");
    proof {
        assert(text::views(lines@.take(shown as int)) =~= text::views(lines@).take(shown as int));
        assert(text::views(lines@).len() == lines@.len());
    }
    note.duplicate().fact(fact).render_with_body(join_first(lines.as_slice(), shown, "\n").as_str())
}

fn write_cut<F: Fn(&str) -> usize>(
    note: &HeadNote,
    lines: &Vec<String>,
    budget: usize,
    estimate: &F,
) -> (output: String)
    requires
        forall|text: &str| #[trigger] call_requires(*estimate, (text,)),
    ensures
        forall|cost: spec_fn(Seq<char>) -> nat|
            #[trigger] paging::estimates(*estimate, cost) ==> output@ == cut_report(
                note@,
                text::views(lines@),
                budget as nat,
                cost,
            ),
{
    let ghost shown_lines = text::views(lines@);
    let mut low: usize = 0;
    let mut high: usize = lines.len();
    let mut best: Option<usize> = None;
    let ghost mut found: Option<int> = None;
    assert(shown_lines.len() == lines@.len());
    while low <= high
        invariant_except_break
            forall|text: &str| #[trigger] call_requires(*estimate, (text,)),
            shown_lines == text::views(lines@),
            shown_lines.len() == lines@.len(),
            high <= lines.len(),
            low <= high + 1,
            best matches Some(shown) ==> shown <= lines.len() && found == Some(shown as int),
            best is None ==> found is None,
            forall|cost: spec_fn(Seq<char>) -> nat|
                #[trigger] paging::estimates(*estimate, cost) ==> probe_of(
                    note@,
                    shown_lines,
                    budget as nat,
                    cost,
                    0,
                    lines@.len() as int,
                    None,
                ) == probe_of(
                    note@,
                    shown_lines,
                    budget as nat,
                    cost,
                    low as int,
                    high as int,
                    found,
                ),
            low > high ==> forall|cost: spec_fn(Seq<char>) -> nat| #[trigger]
                paging::estimates(*estimate, cost) ==> probe_of(
                    note@,
                    shown_lines,
                    budget as nat,
                    cost,
                    low as int,
                    high as int,
                    found,
                ) == Ok::<Option<int>, ()>(found),
        ensures
            best matches Some(shown) ==> shown <= lines.len() && found == Some(shown as int),
            best is None ==> found is None,
            forall|cost: spec_fn(Seq<char>) -> nat|
                #[trigger] paging::estimates(*estimate, cost) ==> probe_of(
                    note@,
                    shown_lines,
                    budget as nat,
                    cost,
                    0,
                    lines@.len() as int,
                    None,
                ) == Ok::<Option<int>, ()>(found),
        decreases high + 1 - low,
    {
        let shown: usize = low + (high - low) / 2;
        let candidate = write_page(note, lines, shown);
        let candidate_text = candidate.as_str();
        let tokens = estimate(candidate_text);
        let ghost before = found;
        let ghost old_low = low as int;
        let ghost old_high = high as int;
        proof {
            assert forall|cost: spec_fn(Seq<char>) -> nat|
                #[trigger] paging::estimates(*estimate, cost) implies {
                let whole = probe_of(
                    note@,
                    shown_lines,
                    budget as nat,
                    cost,
                    0,
                    lines@.len() as int,
                    None,
                );
                if tokens <= budget {
                    whole == probe_of(
                        note@,
                        shown_lines,
                        budget as nat,
                        cost,
                        shown + 1,
                        old_high,
                        Some(shown as int),
                    )
                } else {
                    whole == probe_of(
                        note@,
                        shown_lines,
                        budget as nat,
                        cost,
                        old_low,
                        shown - 1,
                        before,
                    )
                }
            } by {
                assert(call_ensures(*estimate, (candidate_text,), tokens));
                probe_step(note@, shown_lines, budget as nat, cost, old_low, old_high, before);
            }
            assert forall|cost: spec_fn(Seq<char>) -> nat, from: int, to: int, kept: Option<int>|
                #![trigger probe_of(note@, shown_lines, budget as nat, cost, from, to, kept)]
                0 <= from && from > to implies probe_of(
                note@,
                shown_lines,
                budget as nat,
                cost,
                from,
                to,
                kept,
            ) == Ok::<Option<int>, ()>(kept) by {
                probe_step(note@, shown_lines, budget as nat, cost, from, to, kept);
            }
        }
        if tokens <= budget {
            best = Some(shown);
            proof {
                found = Some(shown as int);
            }
            if shown == usize::MAX {
                break;
            }
            low = shown + 1;
        } else if shown == 0 {
            break;
        } else {
            high = shown - 1;
        }
    }
    proof {
        reveal(probe_of);
    }
    match best {
        Some(shown) => write_page(note, lines, shown),
        None => write_page(note, lines, 0),
    }
}

#[verifier::opaque]
spec fn probe_of(
    note: NoteSpec,
    lines: Seq<Seq<char>>,
    budget: nat,
    cost: spec_fn(Seq<char>) -> nat,
    low: int,
    high: int,
    best: Option<int>,
) -> Result<Option<int>, ()> {
    paging::probed(
        low,
        high,
        best,
        |shown: int|
            if cost(report_page(note, lines, shown)) <= budget {
                Ok::<Option<int>, ()>(Some(shown))
            } else {
                Ok::<Option<int>, ()>(None)
            },
    )
}

proof fn probe_step(
    note: NoteSpec,
    lines: Seq<Seq<char>>,
    budget: nat,
    cost: spec_fn(Seq<char>) -> nat,
    low: int,
    high: int,
    best: Option<int>,
)
    requires
        low >= 0,
    ensures
        probe_of(note, lines, budget, cost, low, high, best) == if low > high {
            Ok::<Option<int>, ()>(best)
        } else {
            let middle = low + (high - low) / 2;
            if cost(report_page(note, lines, middle)) <= budget {
                probe_of(note, lines, budget, cost, middle + 1, high, Some(middle))
            } else {
                probe_of(note, lines, budget, cost, low, middle - 1, best)
            }
        },
{
    reveal(probe_of);
}

/// Renders a report within a budget. `expand` gives the budget that a required number of tokens
/// can be granted.
pub fn render_report<F: Fn(&str) -> usize, G: Fn(usize) -> Option<usize>>(
    note: HeadNote,
    lines: &Vec<String>,
    budget: usize,
    capped: bool,
    estimate: &F,
    expand: &G,
) -> (response: ToolResponse)
    requires
        forall|text: &str| #[trigger] call_requires(*estimate, (text,)),
        forall|required: usize| #[trigger] call_requires(*expand, (required,)),
    ensures
        forall|cost: spec_fn(Seq<char>) -> nat, grant: spec_fn(nat) -> Option<nat>|
            #[trigger] paging::estimates(*estimate, cost) && #[trigger] expands(*expand, grant) ==> responds(
                response,
                report_spec(note@, text::views(lines@), budget as nat, capped, cost, grant),
            ),
    decreases usize::MAX - budget,
{
    let ghost shown_lines = text::views(lines@);
    let base = if capped {
        note.fact("preview details were capped before rendering".to_owned())
    } else {
        note
    };
    proof {
        assert(lines@.take(lines@.len() as int) =~= lines@);
    }
    let full = base.render_with_body(join_first(lines.as_slice(), lines.len(), "\n").as_str());
    if !capped {
        let full_text = full.as_str();
        let tokens = estimate(full_text);
        proof {
            assert forall|cost: spec_fn(Seq<char>) -> nat|
                #[trigger] paging::estimates(*estimate, cost) implies tokens == cost(full@) by {
                assert(call_ensures(*estimate, (full_text,), tokens));
            }
        }
        if tokens <= budget {
            return ToolResponse::text(full);
        }
    }
    let output = write_cut(&base, lines, budget, estimate);
    let output_text = output.as_str();
    let required = estimate(output_text);
    proof {
        assert forall|cost: spec_fn(Seq<char>) -> nat|
            #[trigger] paging::estimates(*estimate, cost) implies required == cost(output@) by {
            assert(call_ensures(*estimate, (output_text,), required));
        }
    }
    if required <= budget {
        return ToolResponse::text(output);
    }
    let expanded = expand(required);
    if let Some(value) = expanded {
        if value > budget {
            return render_report(base, lines, value, false, estimate, expand);
        }
    }
    let mut message = "FASTCTX_TOKEN_BUDGET=".to_owned();
    message.append(decimal_text(budget as u64).as_str());
    message.append(
        " is too small to return the replace head note. That budget is fixed for this session; retrying cannot raise it.",
    );
    ToolResponse::error(message)
}

/// A note with the number of skipped, failed and unreachable paths, as far as there are any.
pub open spec fn with_losses(
    note: NoteSpec,
    skipped: nat,
    failed: nat,
    failed_suffix: Seq<char>,
    unreachable: nat,
) -> NoteSpec {
    let with_skipped = if skipped > 0 {
        note.with_fact(head_note::counted_spec(skipped, "file"@, "files"@) + " skipped"@)
    } else {
        note
    };
    let with_failed = if failed > 0 {
        with_skipped.with_fact(
            head_note::counted_spec(failed, "file"@, "files"@) + failed_suffix,
        )
    } else {
        with_skipped
    };
    if unreachable > 0 {
        with_failed.with_fact(
            head_note::counted_spec(unreachable, "path"@, "paths"@) + " unreachable"@,
        )
    } else {
        with_failed
    }
}

fn add_losses(
    note: HeadNote,
    skipped: usize,
    failed: usize,
    failed_suffix: &str,
    unreachable: usize,
) -> (result: HeadNote)
    ensures
        result@ == with_losses(
            note@,
            skipped as nat,
            failed as nat,
            failed_suffix@,
            unreachable as nat,
        ),
{
    let mut result = note;
    if skipped > 0 {
        let mut fact = counted(skipped, "file", "files");
        fact.append(" skipped");
        result = result.fact(fact);
    }
    if failed > 0 {
        let mut fact = counted(failed, "file", "files");
        fact.append(failed_suffix);
        result = result.fact(fact);
    }
    if unreachable > 0 {
        let mut fact = counted(unreachable, "path", "paths");
        fact.append(" unreachable");
        result = result.fact(fact);
    }
    result
}

/// The number of files decoded with the fallback encoding.
pub open spec fn fallback_count(files: Seq<AnalyzedSpec>) -> nat
    decreases files.len(),
{
    if files.len() == 0 {
        0
    } else {
        fallback_count(files.drop_last()) + if files.last().used_fallback {
            1nat
        } else {
            0nat
        }
    }
}

/// The fact about files decoded with the fallback encoding, if there are any.
pub open spec fn fallback_fact(files: Seq<AnalyzedSpec>, encoding: Option<Seq<char>>) -> Option<
    Seq<char>,
> {
    if fallback_count(files) == 0 {
        None
    } else {
        Some(
            head_note::counted_spec(fallback_count(files), "file"@, "files"@)
                + " decoded using fallback encoding "@ + match encoding {
                Some(encoding) => encoding,
                None => "the requested fallback"@,
            },
        )
    }
}

/// The view of an optional label.
pub open spec fn label_view(label: Option<&str>) -> Option<Seq<char>> {
    match label {
        Some(label) => Some(label@),
        None => None,
    }
}

/// Says how many files were decoded with the fallback encoding.
pub fn fallback_facts(files: &Vec<AnalyzedFile>, encoding: Option<&str>) -> (fact: Option<String>)
    ensures
        match fact {
            Some(fact) => fallback_fact(file_views(files@), label_view(encoding)) == Some(fact@),
            None => fallback_fact(file_views(files@), label_view(encoding)) is None,
        },
{
    let ghost shown = file_views(files@);
    let mut count: usize = 0;
    let mut index: usize = 0;
    assert(shown.take(0) =~= Seq::<AnalyzedSpec>::empty());
    while index < files.len()
        invariant
            index <= files.len(),
            count <= index,
            shown == file_views(files@),
            count == fallback_count(shown.take(index as int)),
        decreases files.len() - index,
    {
        proof {
            assert(shown.take(index + 1).drop_last() =~= shown.take(index as int));
            assert(shown.take(index + 1).last() == files@[index as int]@);
        }
        if files[index].used_fallback {
            count += 1;
        }
        index += 1;
    }
    assert(shown.take(shown.len() as int) =~= shown);
    if count == 0 {
        return None;
    }
    let mut fact = counted(count, "file", "files");
    fact.append(" decoded using fallback encoding ");
    fact.append(
        match encoding {
            Some(encoding) => encoding,
            None => "the requested fallback",
        },
    );
    Some(fact)
}

/// The note with one more fact, if there is one.
pub open spec fn with_optional_fact(note: NoteSpec, fact: Option<Seq<char>>) -> NoteSpec {
    match fact {
        Some(fact) => note.with_fact(fact),
        None => note,
    }
}

/// Whether the previews of some file were cut.
pub open spec fn any_truncated(files: Seq<AnalyzedSpec>) -> bool {
    exists|i: int| 0 <= i < files.len() && (#[trigger] files[i]).previews_truncated
}

/// The note of a dry run.
pub open spec fn dry_run_note(
    total_matches: usize,
    files: usize,
    skipped: nat,
    failed: nat,
    unreachable: nat,
) -> NoteSpec {
    with_losses(
        head_note::note_spec(
            "replace dry run"@,
            HeadMetric::CountInFiles {
                count: total_matches,
                singular: "match",
                plural: "matches",
                files,
            },
        ).with_fact("nothing written"@),
        skipped,
        failed,
        " failed"@,
        unreachable,
    )
}

/// The paths that a walk could not enter: those worth a line, and how many there were.
#[derive(Debug)]
pub struct Unreachable {
    pub issues: Vec<Issue>,
    pub total: usize,
}

/// Reports what a replacement would do.
pub fn format_dry_run<F: Fn(&str) -> usize, G: Fn(usize) -> Option<usize>>(
    analyzed: &Vec<AnalyzedFile>,
    skipped: &Vec<Issue>,
    failures: &Vec<Issue>,
    unreachable: &Unreachable,
    total_matches: usize,
    budget: usize,
    fallback_label: Option<&str>,
    estimate: &F,
    expand: &G,
) -> (response: ToolResponse)
    requires
        forall|text: &str| #[trigger] call_requires(*estimate, (text,)),
        forall|required: usize| #[trigger] call_requires(*expand, (required,)),
    ensures
        forall|cost: spec_fn(Seq<char>) -> nat, grant: spec_fn(nat) -> Option<nat>|
            #[trigger] paging::estimates(*estimate, cost) && #[trigger] expands(*expand, grant) ==> responds(
                response,
                report_spec(
                    with_optional_fact(
                        dry_run_note(
                            total_matches,
                            analyzed.len(),
                            skipped@.len(),
                            failures@.len(),
                            unreachable.total as nat,
                        ),
                        fallback_fact(file_views(analyzed@), label_view(fallback_label)),
                    ),
                    file_lines(file_views(analyzed@)) + issue_lines(
                        issue_views(skipped@),
                        "skipped"@,
                    ) + issue_lines(issue_views(failures@), "failed"@) + issue_lines(
                        issue_views(unreachable.issues@),
                        "unreachable"@,
                    ),
                    budget as nat,
                    any_truncated(file_views(analyzed@)),
                    cost,
                    grant,
                ),
            ),
{
    let mut lines: Vec<String> = Vec::new();
    assert(text::views(lines@) =~= Seq::<Seq<char>>::empty());
    push_file_lines(&mut lines, analyzed);
    assert(text::views(lines@) =~= file_lines(file_views(analyzed@)));
    push_issue_lines(&mut lines, skipped, "skipped");
    push_issue_lines(&mut lines, failures, "failed");
    push_issue_lines(&mut lines, &unreachable.issues, "unreachable");
    let note = HeadNote::new(
        "replace dry run".to_owned(),
        HeadMetric::count_in_files(total_matches, "match", "matches", analyzed.len()),
    ).fact("nothing written".to_owned());
    let mut note = add_losses(
        note,
        skipped.len(),
        failures.len(),
        " failed",
        unreachable.total,
    );
    if let Some(fact) = fallback_facts(analyzed, fallback_label) {
        note = note.fact(fact);
    }
    let capped = has_truncated(analyzed);
    render_report(note, &lines, budget, capped, estimate, expand)
}

fn has_truncated(files: &Vec<AnalyzedFile>) -> (found: bool)
    ensures
        found == any_truncated(file_views(files@)),
{
    let ghost shown = file_views(files@);
    let mut index: usize = 0;
    while index < files.len()
        invariant
            index <= files.len(),
            shown == file_views(files@),
            forall|i: int| 0 <= i < index ==> !(#[trigger] shown[i]).previews_truncated,
        decreases files.len() - index,
    {
        assert(shown[index as int] == files@[index as int]@);
        if files[index].previews_truncated {
            return true;
        }
        index += 1;
    }
    false
}

/// The note of a replacement that was carried out.
pub open spec fn apply_note(
    replacements: usize,
    files: usize,
    skipped: nat,
    failed: nat,
    unreachable: nat,
) -> NoteSpec {
    let note = head_note::note_spec(
        "replace"@,
        HeadMetric::CountInFiles {
            count: replacements,
            singular: "replacement",
            plural: "replacements",
            files,
        },
    );
    with_losses(
        if replacements == 0 && failed == 0 {
            note.with_fact("nothing written"@)
        } else {
            note
        },
        skipped,
        failed,
        " failed — see report"@,
        unreachable,
    )
}

/// Reports what a replacement did.
pub fn format_apply<F: Fn(&str) -> usize, G: Fn(usize) -> Option<usize>>(
    successes: &Vec<(String, usize)>,
    skipped: &Vec<Issue>,
    failures: &Vec<Issue>,
    unreachable: &Unreachable,
    replacements: usize,
    budget: usize,
    fallback: Option<String>,
    estimate: &F,
    expand: &G,
) -> (response: ToolResponse)
    requires
        forall|text: &str| #[trigger] call_requires(*estimate, (text,)),
        forall|required: usize| #[trigger] call_requires(*expand, (required,)),
    ensures
        forall|cost: spec_fn(Seq<char>) -> nat, grant: spec_fn(nat) -> Option<nat>|
            #[trigger] paging::estimates(*estimate, cost) && #[trigger] expands(*expand, grant) ==> responds(
                response,
                report_spec(
                    with_optional_fact(
                        apply_note(
                            replacements,
                            successes.len(),
                            skipped@.len(),
                            failures@.len(),
                            unreachable.total as nat,
                        ),
                        match fallback {
                            Some(fact) => Some(fact@),
                            None => None,
                        },
                    ),
                    success_lines(success_views(successes@)) + issue_lines(
                        issue_views(skipped@),
                        "skipped"@,
                    ) + issue_lines(issue_views(failures@), "failed"@) + issue_lines(
                        issue_views(unreachable.issues@),
                        "unreachable"@,
                    ),
                    budget as nat,
                    false,
                    cost,
                    grant,
                ),
            ),
{
    let mut lines: Vec<String> = Vec::new();
    assert(text::views(lines@) =~= Seq::<Seq<char>>::empty());
    push_success_lines(&mut lines, successes);
    assert(text::views(lines@) =~= success_lines(success_views(successes@)));
    push_issue_lines(&mut lines, skipped, "skipped");
    push_issue_lines(&mut lines, failures, "failed");
    push_issue_lines(&mut lines, &unreachable.issues, "unreachable");
    let mut note = HeadNote::new(
        "replace".to_owned(),
        HeadMetric::count_in_files(replacements, "replacement", "replacements", successes.len()),
    );
    if replacements == 0 && failures.len() == 0 {
        note = note.fact("nothing written".to_owned());
    }
    let mut note = add_losses(
        note,
        skipped.len(),
        failures.len(),
        " failed — see report",
        unreachable.total,
    );
    if let Some(fact) = fallback {
        note = note.fact(fact);
    }
    render_report(note, &lines, budget, false, estimate, expand)
}

/// Whether an error says that a file is binary.
pub open spec fn binary_error(error: Seq<char>) -> bool {
    text::occurs_at(error, "Cannot read binary file as text:"@, 0)
}

/// Whether an error says that the encoding of a file is unknown or broken.
pub open spec fn encoding_error(error: Seq<char>) -> bool {
    text::occurs_at(error, "Cannot determine the text encoding"@, 0) || text::occurs_at(
        error,
        "Cannot decode "@,
        0,
    )
}

/// Whether a file with this error is left out rather than counted as failed.
pub open spec fn skippable_error(error: Seq<char>) -> bool {
    encoding_error(error) || text::occurs_at(error, "File too large for line edits:"@, 0)
}

/// An error in a few words.
pub open spec fn short_issue_spec(error: Seq<char>) -> Seq<char> {
    if text::contains_text_spec(error, "mixed or inconsistent encodings"@) {
        "mixed or inconsistent encodings"@
    } else if text::occurs_at(error, "Cannot determine the text encoding"@, 0) {
        "ambiguous encoding"@
    } else if text::occurs_at(error, "Cannot decode "@, 0) {
        "undecodable"@
    } else {
        error
    }
}

/// Whether an error says that a file is binary.
pub fn is_binary_error(error: &str) -> (result: bool)
    ensures
        result == binary_error(error@),
{
    starts_with_text(error, "Cannot read binary file as text:")
}

/// Whether an error says that the encoding of a file is unknown or broken.
pub fn is_encoding_error(error: &str) -> (result: bool)
    ensures
        result == encoding_error(error@),
{
    starts_with_text(error, "Cannot determine the text encoding") || starts_with_text(
        error,
        "Cannot decode ",
    )
}

/// Whether a file with this error is left out rather than counted as failed.
pub fn is_skippable_error(error: &str) -> (result: bool)
    ensures
        result == skippable_error(error@),
{
    is_encoding_error(error) || starts_with_text(error, "File too large for line edits:")
}

/// An error in a few words.
pub fn short_issue(error: &str) -> (issue: String)
    ensures
        issue@ == short_issue_spec(error@),
{
    if contains_text(error, "mixed or inconsistent encodings") {
        "mixed or inconsistent encodings".to_owned()
    } else if starts_with_text(error, "Cannot determine the text encoding") {
        "ambiguous encoding".to_owned()
    } else if starts_with_text(error, "Cannot decode ") {
        "undecodable".to_owned()
    } else {
        error.to_owned()
    }
}

} // verus!
