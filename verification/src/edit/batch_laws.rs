//! What a batch replacement promises, said of requests, documents and files alone.

use crate::edit::course;
use crate::edit::course::{ReplaceAction, ReplaceCourse};
use crate::edit::digest;
use crate::edit::document;
use crate::edit::document::TextDocument;
use crate::edit::laws;
use crate::edit::pattern;
use crate::edit::replacement;
use crate::edit::report;
use crate::edit::report::{AnalyzedSpec, IssueSpec};
use crate::edit::service;
use crate::edit::service::{Candidate, CommitSpec, PlanSpec, ReplaceRequest, ReplaceRun, RootFacts};
use crate::encoding::editable;
use crate::encoding::pipeline;
use crate::encoding::pipeline::{DecisionSpec, ValidatedFileEncoding};
use crate::encoding::rejection;
use crate::encoding::rejection::RejectionSpec;
use crate::head_note::NoteSpec;
use crate::ordering;
use crate::text;
use vstd::prelude::*;
use vstd::string::*;
use vstd::utf8::*;

verus! {

/// A replacement looks for the pattern of its request: as it stands, or its characters where the
/// request says that it is literal. It ignores case, and lets `.` match line feeds, only where
/// asked to.
pub proof fn a_replacement_looks_for_what_is_asked(
    run: ReplaceRun,
    request: ReplaceRequest,
    budget: Result<usize, String>,
    root: Result<RootFacts, String>,
    document: TextDocument,
)
    requires
        service::started(run, request, budget, root),
    ensures
        run.request == request,
        run.single_file == root->Ok_0.is_file,
        run.regex.source().0 == if request.literal == Some(true) {
            pattern::escaped_pattern(request.pattern@)
        } else {
            request.pattern@
        },
        run.regex.source().1 == (request.case_insensitive == Some(true)),
        run.regex.source().2 == (request.dot_all == Some(true)),
        service::run_matches(run, document) == pattern::regex_matches(
            run.regex.source().0,
            request.case_insensitive == Some(true),
            request.dot_all == Some(true),
            document.logical(),
            request.replacement@,
        ),
{
}

/// A request that is not refused names a path and a pattern, has only the encoding that fits its
/// target, caps the number of replacements where the pattern can match nothing at all, and refers
/// only to groups of its pattern.
pub proof fn an_accepted_request_is_sound(
    request: ReplaceRequest,
    budget: Result<usize, String>,
    root: Result<RootFacts, String>,
)
    requires
        service::request_error(request, budget, root) is None,
    ensures
        budget is Ok,
        root is Ok,
        request.path@.len() > 0,
        request.pattern@.len() > 0,
        root->Ok_0.is_file ==> request.fallback_encoding is None,
        !root->Ok_0.is_file ==> request.encoding is None,
        ({
            let pattern = if request.literal == Some(true) {
                pattern::escaped_pattern(request.pattern@)
            } else {
                request.pattern@
            };
            &&& pattern::regex_rejection(
                pattern,
                request.case_insensitive == Some(true),
                request.dot_all == Some(true),
            ) is None
            &&& request.max_replacements is None ==> pattern::shortest_match(pattern) != Ok::<
                Option<usize>,
                Seq<char>,
            >(Some(0usize))
            &&& forall|i: int|
                0 <= i < pattern::tokens_from(request.replacement@, 0).len()
                    ==> match (#[trigger] pattern::tokens_from(request.replacement@, 0)[i]).reference {
                    pattern::ReferenceSpec::Number(index) => index < pattern::regex_group_count(
                        pattern,
                    ),
                    pattern::ReferenceSpec::Named(name) => pattern::known_names(
                        pattern::regex_group_names(pattern),
                    ).contains(name),
                }
        }),
{
    let pattern = pattern::effective_pattern(request.pattern@, service::flag(request.literal));
    all_defined(
        pattern::tokens_from(request.replacement@, 0),
        pattern::regex_group_count(pattern),
        pattern::known_names(pattern::regex_group_names(pattern)),
    );
}

proof fn all_defined(tokens: Seq<pattern::TokenSpec>, groups: nat, names: Seq<Seq<char>>)
    requires
        pattern::undefined_token(tokens, groups, names) is None,
    ensures
        forall|i: int|
            0 <= i < tokens.len() ==> match (#[trigger] tokens[i]).reference {
                pattern::ReferenceSpec::Number(index) => index < groups,
                pattern::ReferenceSpec::Named(name) => names.contains(name),
            },
    decreases tokens.len(),
{
    if tokens.len() > 0 {
        let rest = tokens.drop_first();
        all_defined(rest, groups, names);
        assert forall|i: int| 0 <= i < tokens.len() implies match (#[trigger] tokens[i]).reference {
            pattern::ReferenceSpec::Number(index) => index < groups,
            pattern::ReferenceSpec::Named(name) => names.contains(name),
        } by {
            if i > 0 {
                assert(rest[i - 1] == tokens[i]);
            }
        }
    }
}

/// Writing is refused exactly where there are more matches than the request allows.
pub proof fn the_cap_refuses_more_matches(run: ReplaceRun)
    ensures
        run.refusal_spec() is Some <==> (run.request.max_replacements matches Some(most)
            && run.total_matches > most),
{
}

/// After the analysis, a preview or a replacement over its cap ends at once; any other one commits
/// the files that it analyzed, if there are any.
pub proof fn a_preview_writes_nothing<F: Fn(&str) -> usize, G: Fn(usize) -> Option<usize>>(
    course: ReplaceCourse,
    action: ReplaceAction,
    estimate: F,
    expand: G,
)
    requires
        course::settled(course, action, estimate, expand),
    ensures
        course.run.request.dry_run == Some(true) ==> action is Respond,
        course.run.request.max_replacements matches Some(most) && course.run.total_matches > most
            ==> action is Respond,
        course.run.request.dry_run != Some(true) && !(course.run.request.max_replacements matches Some(
            most,
        ) && course.run.total_matches > most) && course.run.analyzed@.len() > 0
            ==> action is Commit,
{
}

/// The analysis of a file counts its matches that change something, once for each file: reached a
/// second time, it adds nothing. It keeps a preview of the matches as far as there is room, and what
/// the file held.
pub proof fn each_file_is_counted_once(
    run: ReplaceRun,
    plan: PlanSpec,
    document: TextDocument,
    used_fallback: bool,
    name_identity: Seq<u8>,
    identity: Seq<u8>,
)
    requires
        service::analyzed(run, plan, document, used_fallback, name_identity, identity) is Ok,
    ensures
        ({
            let found = laws::changing(service::run_matches(run, document));
            let after = service::analyzed(
                run,
                plan,
                document,
                used_fallback,
                name_identity,
                identity,
            )->Ok_0;
            &&& plan.seen.contains(identity) ==> after == plan
            &&& after.seen.contains(identity)
            &&& service::analyzed(
                run,
                after,
                document,
                used_fallback,
                name_identity,
                identity,
            ) == Ok::<PlanSpec, Seq<char>>(after)
            &&& !plan.seen.contains(identity) && plan.total_matches + found.len() <= usize::MAX
                ==> after.total_matches == plan.total_matches + found.len()
            &&& !plan.seen.contains(identity) && found.len() == 0 ==> after.analyzed
                == plan.analyzed && after.failures == plan.failures
            &&& !plan.seen.contains(identity) && found.len() > 0
                && replacement::replacement_outcome(
                document,
                service::run_matches(run, document),
                run.limit_mib,
            ) is Ok ==> {
                let file = after.analyzed.last();
                &&& after.analyzed == plan.analyzed.push(file)
                &&& file.path == document.display()
                &&& file.identity == identity
                &&& file.name_identity == name_identity
                &&& file.matches == found.len()
                &&& file.used_fallback == used_fallback
                &&& file.revision == digest::hex(digest::sha256(document.raw()))
                &&& file.previews == replacement::preview_lines(
                    document,
                    found,
                    plan.preview_slots,
                )
                &&& file.previews_truncated == (found.len() > plan.preview_slots)
                &&& after.preview_slots == plan.preview_slots - file.previews.len()
            }
            &&& after.skipped == plan.skipped
        }),
{
    let matches = service::run_matches(run, document);
    laws::kept_are_changing(matches);
    laws::preview_at(document, replacement::kept(matches), plan.preview_slots);
    let seen = plan.seen.push(identity);
    assert(seen[seen.len() - 1] == identity);
    assert(seen.contains(identity));
}

/// A file that cannot be opened or edited ends the replacement of a single file with its message.
/// In a directory a binary file, one of unknown encoding and one that is too large are left out, and
/// any other failure is kept; either way the other files stay as they were planned.
pub proof fn one_bad_file_spoils_no_other(
    run: ReplaceRun,
    plan: PlanSpec,
    candidate: Candidate,
    error: String,
)
    requires
        candidate.opened == Err::<service::OpenedCandidate, String>(error),
    ensures
        run.single_file ==> service::observed(run, plan, candidate) == Err::<PlanSpec, Seq<char>>(
            error@,
        ),
        !run.single_file ==> {
            &&& service::observed(run, plan, candidate) matches Ok(after)
            &&& after.analyzed == plan.analyzed
            &&& after.seen == plan.seen
            &&& after.total_matches == plan.total_matches
            &&& after.skipped.len() + after.failures.len() == plan.skipped.len()
                + plan.failures.len() + 1
            &&& plan.skipped.is_prefix_of(after.skipped)
            &&& plan.failures.is_prefix_of(after.failures)
            &&& after.skipped.len() > plan.skipped.len() <==> report::binary_error(error@)
                || report::encoding_error(error@) || text::occurs_at(
                error@,
                "File too large for line edits:"@,
                0,
            )
            &&& after.failures.len() > plan.failures.len() ==> after.failures.last() == (
            IssueSpec { path: candidate.display@, message: error@ })
            &&& after.skipped.len() > plan.skipped.len() ==> after.skipped.last().path
                == candidate.display@
        },
{
    if !run.single_file {
        let after = service::observed(run, plan, candidate)->Ok_0;
        assert(plan.skipped =~= after.skipped.take(plan.skipped.len() as int));
        assert(plan.failures =~= after.failures.take(plan.failures.len() as int));
    }
}

/// A file is written only while it is the file that was analyzed and holds what it held then, and
/// what is written is its replacement, with as many matches as were counted and something changed.
pub proof fn only_the_analyzed_content_is_replaced(
    run: ReplaceRun,
    file: AnalyzedSpec,
    document: TextDocument,
    identity: Vec<u8>,
    error: String,
)
    ensures
        match service::commit_spec(run, file, Ok(document), Ok(identity)) {
            CommitSpec::Write(bytes, matches) => {
                &&& identity@ == file.identity
                &&& digest::hex(digest::sha256(document.raw())) == file.revision
                &&& matches == file.matches
                &&& bytes != document.raw()
                &&& replacement::replacement_outcome(
                    document,
                    service::run_matches(run, document),
                    run.limit_mib,
                ) == Ok::<(Seq<u8>, nat), Seq<char>>((bytes, matches))
            },
            CommitSpec::Unchanged(matches) => {
                &&& matches == file.matches
                &&& replacement::replacement_outcome(
                    document,
                    service::run_matches(run, document),
                    run.limit_mib,
                ) == Ok::<(Seq<u8>, nat), Seq<char>>((document.raw(), matches))
            },
            CommitSpec::Failed(_) => true,
        },
        service::commit_spec(run, file, Err(error), Ok(identity)) == CommitSpec::Failed(error@),
        service::commit_spec(run, file, Ok(document), Err(error)) == CommitSpec::Failed(error@),
{
}

/// A file is opened again with the encoding that it was analyzed in: the one named for a single
/// file, the fallback where it was needed, and else its own.
pub proof fn files_are_reopened_as_they_were_read(run: ReplaceRun, index: int)
    ensures
        run.single_file ==> run.reopen_label(index) == match run.request.encoding {
            Some(label) => Some(label@),
            None => None,
        },
        !run.single_file && run.analyzed@[index].used_fallback ==> run.reopen_label(index)
            == match run.request.fallback_encoding {
            Some(label) => Some(label@),
            None => None,
        },
        !run.single_file && !run.analyzed@[index].used_fallback ==> run.reopen_label(index) is None,
{
}

/// What a replacement writes is never larger than the limit.
pub proof fn written_files_stay_within_the_limit(
    document: TextDocument,
    matches: Seq<pattern::MatchSpec>,
    limit_mib: u64,
)
    requires
        replacement::replacement_outcome(document, matches, limit_mib) is Ok,
        limit_mib * 1048576 < usize::MAX,
    ensures
        replacement::replacement_outcome(document, matches, limit_mib)->Ok_0.0.len() <= limit_mib
            * 1048576,
{
}

/// How many values there are.
pub open spec fn some_count(values: Seq<Option<usize>>) -> nat
    decreases values.len(),
{
    if values.len() == 0 {
        0
    } else if values.last() is Some {
        some_count(values.drop_last()) + 1
    } else {
        some_count(values.drop_last())
    }
}

/// What was written is reported for each file that was written, in the order of the analysis, and
/// for no other.
pub proof fn every_written_file_is_reported(
    files: Seq<AnalyzedSpec>,
    written: Seq<Option<usize>>,
    at: int,
)
    requires
        0 <= at < files.len() <= written.len(),
        written[at] is Some,
    ensures
        service::successes(files, written).contains(
            (files[at].path, written[at]->Some_0 as nat),
        ),
        service::successes(files, written).len() == some_count(
            written.take(files.len() as int),
        ),
    decreases files.len(),
{
    success_count(files, written);
    let rest = files.drop_last();
    let all = service::successes(files, written);
    if at == files.len() - 1 {
        assert(all[all.len() - 1] == (files[at].path, written[at]->Some_0 as nat));
    } else {
        every_written_file_is_reported(rest, written, at);
        let before = service::successes(rest, written);
        let i = before.index_of((files[at].path, written[at]->Some_0 as nat));
        assert(all[i] == before[i]);
    }
}

proof fn success_count(files: Seq<AnalyzedSpec>, written: Seq<Option<usize>>)
    requires
        files.len() <= written.len(),
    ensures
        service::successes(files, written).len() == some_count(
            written.take(files.len() as int),
        ),
    decreases files.len(),
{
    if files.len() > 0 {
        let n = files.len() as int;
        success_count(files.drop_last(), written);
        assert(written.take(n).drop_last() =~= written.take(n - 1));
    } else {
        assert(written.take(0) =~= Seq::<Option<usize>>::empty());
    }
}

/// A content is opened for editing only where it is text in an accepted encoding, was read twice with
/// the same bytes, and can be written back in its encoding.
pub proof fn only_stable_text_is_opened(
    display: Seq<char>,
    raw: Seq<u8>,
    current: Seq<u8>,
    label: Option<Seq<char>>,
    validated: ValidatedFileEncoding,
)
    ensures
        document::open_error(display, raw, current, label, Some(validated)) is None <==> {
            &&& pipeline::classify(raw, label) is Text
            &&& current == raw
            &&& editable::editable_error(validated, raw) is None
        },
{
}

proof fn begins_with(whole: Seq<char>, words: Seq<char>, rest: Seq<char>)
    requires
        whole == words + rest,
    ensures
        text::occurs_at(whole, words, 0),
{
    assert(whole.subrange(0, words.len() as int) =~= words);
}

/// In a directory, files that are binary or that no accepted encoding decodes are left out, whatever
/// the reason; none of them counts as failed.
pub proof fn undecodable_files_are_left_out(
    run: ReplaceRun,
    plan: PlanSpec,
    candidate: Candidate,
    error: String,
    raw: Seq<u8>,
    current: Seq<u8>,
    label: Option<Seq<char>>,
    validated: Option<ValidatedFileEncoding>,
)
    requires
        !run.single_file,
        candidate.opened == Err::<service::OpenedCandidate, String>(error),
        document::open_error(candidate.display@, raw, current, label, validated) == Some(error@),
        pipeline::classify(raw, label) matches DecisionSpec::Rejected(reason) ==> !(reason
            is InvalidLabel),
        !(pipeline::classify(raw, label) is Text),
    ensures
        service::observed(run, plan, candidate) matches Ok(after) && {
            &&& after.skipped.len() == plan.skipped.len() + 1
            &&& after.failures == plan.failures
            &&& pipeline::classify(raw, label) is Binary ==> after.skipped.last() == (IssueSpec {
                path: candidate.display@,
                message: "binary file"@,
            })
        },
{
    let path = candidate.display@;
    match pipeline::classify(raw, label) {
        DecisionSpec::Binary => {
            let words = "Cannot read binary file as text:"@;
            let rest = " "@ + path + ". Use view=\"hex\" to inspect its raw bytes."@;
            reveal_strlit("Cannot read binary file as text:");
            reveal_strlit("Cannot read binary file as text: ");
            reveal_strlit(" ");
            assert("Cannot read binary file as text: "@ =~= words + " "@);
            assert(error@ =~= words + rest);
            begins_with(error@, words, rest);
        },
        DecisionSpec::Rejected(reason) => {
            rejections_speak_of_encodings(reason, path);
        },
        DecisionSpec::Text { .. } => {},
    }
}

/// Every rejection of a content is told in words by which it is known as one of its encoding.
pub proof fn rejections_speak_of_encodings(reason: RejectionSpec, path: Seq<char>)
    requires
        !(reason is InvalidLabel),
    ensures
        report::encoding_error(rejection::rejection_message(reason, path)),
{
    let message = rejection::rejection_message(reason, path);
    let words = "Cannot decode "@;
    match reason {
        RejectionSpec::Ambiguous(candidates) => {
            let start = "Cannot determine the text encoding"@;
            reveal_strlit("Cannot determine the text encoding");
            reveal_strlit("Cannot determine the text encoding of ");
            reveal_strlit(" of ");
            assert("Cannot determine the text encoding of "@ =~= start + " of "@);
            let rest = " of "@ + path + " with confidence: the bytes decode cleanly as "@
                + text::joined(candidates, ", "@)
                + ". Retry with encoding=\"...\" if the context tells you which one, or use view=\"hex\"."@;
            assert(message =~= start + rest);
            begins_with(message, start, rest);
        },
        _ => {
            let rest = message.skip(words.len() as int);
            assert(message =~= words + rest);
            begins_with(message, words, rest);
        },
    }
}

/// The fallback is tried only in a directory that names one, for a file of unknown encoding, and
/// never against a byte order mark.
pub proof fn the_fallback_never_overrules_a_mark(
    error: Seq<char>,
    explicit: Option<Seq<char>>,
    fallback: Option<Seq<char>>,
    encoding: Seq<char>,
    path: Seq<char>,
)
    ensures
        service::wants_fallback(error, explicit, fallback) ==> explicit is None && fallback is Some
            && report::encoding_error(error),
        !service::wants_fallback(
            rejection::rejection_message(RejectionSpec::BomMismatch(encoding), path),
            explicit,
            fallback,
        ),
{
    let message = rejection::rejection_message(RejectionSpec::BomMismatch(encoding), path);
    let words = "byte order mark"@;
    let first = "Cannot decode "@ + path + ": it has a "@ + encoding;
    let phrase = " byte order mark but the content is not valid "@;
    reveal_strlit("byte order mark");
    reveal_strlit(" byte order mark but the content is not valid ");
    let at: int = first.len() + 1int;
    assert(phrase.subrange(1, 16) =~= words);
    assert(message.subrange(at, at + words.len()) =~= phrase.subrange(1, 16));
    assert(text::occurs_at(message, words, at));
    assert(text::contains_text_spec(message, words));
}

/// The value of a lower-case hexadecimal digit.
pub open spec fn digit_value(digit: char) -> int {
    if '0' <= digit <= '9' {
        digit as int - '0' as int
    } else {
        digit as int - 'a' as int + 10
    }
}

/// A revision is told in lower-case hexadecimal digits, two for each byte of the digest, so that
/// different digests are told differently.
pub proof fn revisions_tell_digests_apart(bytes: Seq<u8>, other: Seq<u8>)
    ensures
        digest::hex(bytes).len() == 2 * bytes.len(),
        forall|i: int|
            0 <= i < bytes.len() ==> #[trigger] bytes[i] == 16 * digit_value(
                digest::hex(bytes)[2 * i],
            ) + digit_value(digest::hex(bytes)[2 * i + 1]),
        forall|i: int|
            0 <= i < digest::hex(bytes).len() ==> {
                ||| '0' <= #[trigger] digest::hex(bytes)[i] <= '9'
                ||| 'a' <= digest::hex(bytes)[i] <= 'f'
            },
        digest::hex(bytes) == digest::hex(other) ==> bytes == other,
{
    digits_tell_bytes(bytes);
    digits_tell_bytes(other);
    if digest::hex(bytes) == digest::hex(other) {
        assert(bytes =~= other);
    }
}

proof fn digits_tell_bytes(bytes: Seq<u8>)
    ensures
        digest::hex(bytes).len() == 2 * bytes.len(),
        forall|i: int|
            0 <= i < bytes.len() ==> #[trigger] bytes[i] == 16 * digit_value(
                digest::hex(bytes)[2 * i],
            ) + digit_value(digest::hex(bytes)[2 * i + 1]),
{
    assert forall|i: int| 0 <= i < bytes.len() implies #[trigger] bytes[i] == 16 * digit_value(
        digest::hex(bytes)[2 * i],
    ) + digit_value(digest::hex(bytes)[2 * i + 1]) by {
        assert(2 * i / 2 == i && (2 * i + 1) / 2 == i);
        assert(2 * i % 2 == 0 && (2 * i + 1) % 2 == 1);
    }
}

/// A dry run lists each file with its previews below it, a replacement each file with what was
/// written; files that were left out follow with the reason.
pub proof fn reports_list_the_files(
    files: Seq<AnalyzedSpec>,
    file: AnalyzedSpec,
    issues: Seq<IssueSpec>,
    label: Seq<char>,
    done: Seq<(Seq<char>, nat)>,
    i: int,
)
    ensures
        report::file_lines(files.push(file)) == report::file_lines(files) + seq![file.path]
            + file.previews,
        0 <= i < issues.len() ==> report::issue_lines(issues, label)[i] == issues[i].path + " — "@
            + label + ": "@ + issues[i].message,
        report::issue_lines(issues, label).len() == issues.len(),
        report::success_lines(done).len() == done.len(),
        0 <= i < done.len() ==> report::success_lines(done)[i] == done[i].0 + ": "@
            + text::decimal(done[i].1) + if done[i].1 == 1 {
            " replacement"@
        } else {
            " replacements"@
        },
{
    assert(files.push(file).drop_last() =~= files);
    assert(report::file_lines(files.push(file)) =~= report::file_lines(files) + seq![file.path]
        + file.previews);
    reveal_strlit(" ");
    reveal_strlit("replacement");
    reveal_strlit("replacements");
    reveal_strlit(" replacement");
    reveal_strlit(" replacements");
    assert(" "@ + "replacement"@ =~= " replacement"@);
    assert(" "@ + "replacements"@ =~= " replacements"@);
    if 0 <= i < done.len() {
        let line = report::success_lines(done)[i];
        assert(line =~= done[i].0 + ": "@ + text::decimal(done[i].1) + if done[i].1 == 1 {
            " replacement"@
        } else {
            " replacements"@
        });
    }
}

/// A report that fits its budget is shown whole.
pub proof fn a_report_that_fits_is_shown_whole(
    note: NoteSpec,
    lines: Seq<Seq<char>>,
    budget: nat,
    cost: spec_fn(Seq<char>) -> nat,
    grant: spec_fn(nat) -> Option<nat>,
)
    requires
        cost(note.page(text::joined(lines, "\n"@))) <= budget,
    ensures
        report::report_spec(note, lines, budget, false, cost, grant) == Ok::<Seq<char>, Seq<char>>(
            note.page(text::joined(lines, "\n"@)),
        ),
{
}

/// Every report is within its budget or the one that it was granted.
pub proof fn reports_stay_within_their_budget(
    note: NoteSpec,
    lines: Seq<Seq<char>>,
    budget: nat,
    capped: bool,
    cost: spec_fn(Seq<char>) -> nat,
    grant: spec_fn(nat) -> Option<nat>,
)
    requires
        forall|asked: nat| #[trigger] grant(asked) is None,
    ensures
        report::report_spec(note, lines, budget, capped, cost, grant) matches Ok(shown) ==> cost(
            shown,
        ) <= budget,
{
}

/// A replacement starts with nothing planned, and with room for four previews for each token of its
/// budget and 32 more, but for no more than 100000.
pub proof fn previews_have_limited_room(
    run: ReplaceRun,
    request: ReplaceRequest,
    budget: Result<usize, String>,
    root: Result<RootFacts, String>,
)
    requires
        service::started(run, request, budget, root),
    ensures
        budget == Ok::<usize, String>(run.budget),
        run.plan().analyzed.len() == 0,
        run.plan().total_matches == 0,
        run.plan().preview_slots == if 4 * run.budget + 32 < 100000 {
            4 * run.budget + 32
        } else {
            100000
        },
{
}

/// Files are written in the order of the bytes of their identities, so that two replacements of the
/// same files take their locks in the same order. Failures are reported in the order of the bytes of
/// their paths.
pub proof fn files_are_written_in_the_order_of_identities(
    files: Seq<AnalyzedSpec>,
    issues: Seq<IssueSpec>,
    order: Seq<usize>,
    i: int,
    j: int,
)
    requires
        0 <= i < j < order.len(),
    ensures
        ordering::is_order(service::commit_keys(files), order) ==> {
            let first = files[order[i] as int];
            let second = files[order[j] as int];
            &&& order.len() == files.len()
            &&& order[i] < files.len() && order[j] < files.len() && order[i] != order[j]
            &&& first.identity == second.identity || ordering::comes_before(
                first.identity,
                second.identity,
            )
        },
        ordering::is_order(service::failure_keys(issues), order) ==> {
            let first = issues[order[i] as int];
            let second = issues[order[j] as int];
            &&& order.len() == issues.len()
            &&& order[i] < issues.len() && order[j] < issues.len() && order[i] != order[j]
            &&& first.path == second.path || ordering::comes_before(
                encode_utf8(first.path),
                encode_utf8(second.path),
            )
        },
{
    if ordering::is_order(service::commit_keys(files), order) {
        let keys = service::commit_keys(files);
        let one = order[i] as int;
        let other = order[j] as int;
        assert(ordering::entry_less(keys, one, other));
        if keys[one].first != keys[other].first {
            ordering::smaller_comes_before(keys[one].first, keys[other].first);
        }
    }
    if ordering::is_order(service::failure_keys(issues), order) {
        let keys = service::failure_keys(issues);
        let one = order[i] as int;
        let other = order[j] as int;
        assert(ordering::entry_less(keys, one, other));
        encode_utf8_decode_utf8(issues[one].path);
        encode_utf8_decode_utf8(issues[other].path);
        if keys[one].first != keys[other].first {
            ordering::smaller_comes_before(keys[one].first, keys[other].first);
        }
    }
}

/// A target is edited only as a regular file under a single name, of no more bytes than the limit has
/// mebibytes times 1048576. One that is too large is left out of a directory.
pub proof fn only_small_regular_files_are_edited(
    requested: Seq<char>,
    target: Seq<char>,
    facts: document::TargetFacts,
    limit_mib: u64,
)
    requires
        limit_mib * 1048576 <= u64::MAX,
    ensures
        document::target_error(requested, target, facts, limit_mib) is None <==> {
            &&& facts.hard_links <= 1
            &&& facts.is_regular_file
            &&& facts.len <= limit_mib * 1048576
        },
        facts.hard_links <= 1 && facts.is_regular_file ==> (document::target_error(
            requested,
            target,
            facts,
            limit_mib,
        ) matches Some(message) ==> report::skippable_error(message)),
{
    if let Some(message) = document::target_error(requested, target, facts, limit_mib) {
        if facts.hard_links <= 1 && facts.is_regular_file {
            let words = "File too large for line edits:"@;
            reveal_strlit("File too large for line edits:");
            reveal_strlit("File too large for line edits: ");
            let rest = message.skip(words.len() as int);
            assert(message =~= words + rest);
            begins_with(message, words, rest);
        }
    }
}

/// A content that can be edited is its byte order mark and the bytes of its characters, one after
/// the other, so that text that stays keeps its bytes.
pub proof fn an_editable_file_is_the_bytes_of_its_characters(
    validated: ValidatedFileEncoding,
    raw: Seq<u8>,
    text: Seq<char>,
)
    requires
        editable::editable_error(validated, raw) is None,
        pipeline::decoded_content(raw, validated.detected@) == Some(text),
    ensures
        editable::char_fragments(validated.detected@.charset, text) == Some(
            raw.skip(validated.detected@.bom_len as int),
        ),
{
}

/// The sum of the values that there are.
pub open spec fn some_sum(values: Seq<Option<usize>>) -> nat
    decreases values.len(),
{
    if values.len() == 0 {
        0
    } else {
        some_sum(values.drop_last()) + match values.last() {
            Some(value) => value as nat,
            None => 0,
        }
    }
}

/// The number of replacements that is reported is the sum over the files that were written.
pub proof fn written_replacements_add_up(written: Seq<Option<usize>>)
    requires
        some_sum(written) <= usize::MAX,
    ensures
        service::written_total(written) == some_sum(written),
    decreases written.len(),
{
    if written.len() > 0 {
        written_replacements_add_up(written.drop_last());
    }
}

} // verus!
