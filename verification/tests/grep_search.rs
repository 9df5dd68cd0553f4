use fastctx::grep::capture::{ContentEntry, ContentPayload};
use fastctx::grep::layout::{
    absolute_range, is_synthetic_trailing_empty, strip_line_terminator, LineIntervals, LineLayout,
    LineMatchSpan, OccurrenceCursor,
};
use fastctx::grep::matcher::{ContextKind, GrepMatcher, SearchEvent};
use fastctx::grep::outcome::{
    capture_limit_error, failure_message, for_work, ordered_error_message, panicked,
    search_candidate, search_content, CandidateSkip, SearchFailure,
};
use fastctx::grep::plan::{
    effective_head_limit, plan_search, ContentSpec, GrepRequest, GrepSearchPlan, OutputMode,
    CAPTURE_HEAP_LIMIT_BYTES, DEFAULT_HEAD_LIMIT,
};
use fastctx::grep::ranges::{context_range, merge_ranges, LineRanges};
use fastctx::grep::reduce::{fallback_fact, insert_text, SkippedFile, SkippedFiles};
use fastctx::grep::request::{normalize_multiline_pattern, prepare, SearchRoot};
use fastctx::grep::run::{grep_files, GrepCandidate, GrepInput, SkipReport};
use fastctx::grep::search::{
    search_text, FilePayload, FileResult, GrepSinkError, PlanSink, SinkOutput,
};
use fastctx::grep::sink::{SinkInterrupt, SinkMetrics};
use fastctx::grep::writing::{
    context_prefix, format_context_line, format_match_line, format_only_match, match_prefix,
};
use fastctx::model::{ToolContent, ToolResponse};
use fastctx::operation::{Uninterrupted, WorkCheckpoint, WorkStage, WorkStop};
use fastctx::ordered_window::OrderedError;
use fastctx::snapshot::capture::{
    settle_capture, CaptureDisposition, CaptureFailure, CaptureRead, CapturedSnapshot,
    MEMORY_SNAPSHOT_LIMIT,
};
use std::cell::Cell;

fn matcher(pattern: &str, multiline: bool) -> GrepMatcher {
    GrepMatcher::build(pattern, false, multiline).unwrap()
}

fn search(pattern: &str, bytes: &[u8], plan: GrepSearchPlan) -> (SinkOutput, SinkMetrics) {
    let multiline = plan.content_multiline().unwrap_or(false);
    let matcher = matcher(pattern, multiline);
    let sink = search_text(&matcher, plan, true, bytes, &Uninterrupted).unwrap();
    let metrics = sink.metrics();
    let total_lines = if bytes.is_empty() {
        0
    } else {
        bytes
            .iter()
            .filter(|byte| **byte == b'\n')
            .count()
            .saturating_add(1)
    };
    (
        sink.into_output(
            "/dense.txt".to_string(),
            total_lines,
            bytes.ends_with(b"\n"),
            bytes.to_vec(),
        ),
        metrics,
    )
}

fn content_spec(multiline: bool, capture_match_text: bool) -> ContentSpec {
    ContentSpec {
        multiline,
        skip_entries: 0,
        max_selected_entries: None,
        capture_match_text,
        before_context: 0,
        after_context: 0,
        capture_heap_limit_bytes: 64 * 1024 * 1024,
    }
}

fn content(result: FileResult) -> ContentPayload {
    match result.payload {
        FilePayload::Content(content) => content,
        _ => panic!("expected content"),
    }
}

fn text_at(content: &ContentPayload, range: (u64, u64)) -> &str {
    std::str::from_utf8(&content.text[range.0 as usize..range.1 as usize]).unwrap()
}

#[test]
fn exists_stops_at_one_occurrence_and_count_builds_no_line_layout() {
    let bytes = "hit ".repeat(65_536);
    let (exists, exists_metrics) = search("hit", bytes.as_bytes(), GrepSearchPlan::Exists);
    assert!(exists.result.is_some());
    assert_eq!(exists_metrics.occurrences_examined, 1);
    assert_eq!(exists_metrics.line_layout_builds, 0);

    let (count, count_metrics) = search("hit", bytes.as_bytes(), GrepSearchPlan::Count);
    assert_eq!(count.result.unwrap().occurrence_count(), 65_536);
    assert_eq!(count_metrics.occurrences_examined, 65_536);
    assert_eq!(count_metrics.line_layout_builds, 0);
}

#[test]
fn dense_content_builds_one_layout_and_keeps_range_backed_occurrences() {
    let bytes = "界hit ".repeat(8_192);
    let (output, metrics) = search(
        "hit",
        bytes.as_bytes(),
        GrepSearchPlan::ContentLine(content_spec(false, false)),
    );
    let content = content(output.result.unwrap());
    assert_eq!(metrics.sink_matches, 1);
    assert_eq!(metrics.line_layout_builds, 1);
    assert_eq!(metrics.occurrences_examined, 8_192);
    assert_eq!(content.entries, [ContentEntry::MatchingLine(1)]);
    assert_eq!(content.occurrences[&1].len(), 8_192);
    assert_eq!(text_at(&content, content.lines[&1]), bytes);
    assert_eq!(text_at(&content, content.lines[&1]).chars().count(), 5 * 8_192);
    assert_eq!(metrics.source_bytes_copied, 0);
}

#[test]
fn dense_mode_counters_follow_the_declared_doubling_curve() {
    for occurrences in [512, 1_024, 2_048, 4_096, 8_192, 16_384, 32_768, 65_536] {
        let bytes = "x".repeat(occurrences);

        let (exists, exists_metrics) = search("x", bytes.as_bytes(), GrepSearchPlan::Exists);
        assert!(exists.result.is_some());
        assert_eq!(exists_metrics.occurrences_examined, 1);
        assert_eq!(exists_metrics.line_layout_builds, 0);

        let (count, count_metrics) = search("x", bytes.as_bytes(), GrepSearchPlan::Count);
        assert_eq!(count.result.unwrap().occurrence_count(), occurrences);
        assert_eq!(count_metrics.sink_matches, 1);
        assert_eq!(count_metrics.occurrences_examined, occurrences);
        assert_eq!(count_metrics.line_layout_builds, 0);

        let (output, content_metrics) = search(
            "x",
            bytes.as_bytes(),
            GrepSearchPlan::ContentLine(content_spec(false, false)),
        );
        let content = content(output.result.unwrap());
        assert_eq!(content.occurrences[&1].len(), occurrences);
        assert_eq!(content_metrics.sink_matches, 1);
        assert_eq!(content_metrics.occurrences_examined, occurrences);
        assert_eq!(content_metrics.line_layout_builds, 1);
        assert_eq!(content_metrics.line_layout_bytes, occurrences);
    }
}

fn assert_send_static<T: Send + 'static>() {}

#[test]
fn range_backed_payloads_are_send_and_static() {
    assert_send_static::<FileResult>();
    assert_send_static::<ContentPayload>();
}

#[test]
fn skipped_dense_lines_do_not_build_layouts_or_enumerate_their_tail() {
    let first = "hit ".repeat(65_536);
    let bytes = format!("{first}\nhit hit\n{first}\n");
    let mut spec = content_spec(false, false);
    spec.skip_entries = 1;
    spec.max_selected_entries = Some(1);
    let (output, metrics) = search("hit", bytes.as_bytes(), GrepSearchPlan::ContentLine(spec));
    let content = content(output.result.unwrap());
    assert_eq!(content.entries, [ContentEntry::MatchingLine(2)]);
    assert_eq!(content.occurrences[&2].len(), 2);
    assert_eq!(metrics.sink_matches, 2);
    assert_eq!(metrics.occurrences_examined, 3);
    assert_eq!(metrics.line_layout_builds, 1);
}

#[test]
fn temp_backed_content_uses_absolute_ranges_across_searcher_buffers() {
    let prefix_lines = (8 * 1024 * 1024 / 6) + 2;
    let mut bytes = b"quiet\n".repeat(prefix_lines);
    bytes.extend_from_slice(b"hit\n");
    assert!(bytes.len() > MEMORY_SNAPSHOT_LIMIT);

    let matcher = matcher("hit", false);
    let plan = GrepSearchPlan::ContentLine(content_spec(false, false));
    let sink = search_text(&matcher, plan, false, &bytes, &Uninterrupted).unwrap();
    let output = sink.into_output("/temp.txt".to_string(), prefix_lines + 2, true, bytes);
    let content = content(output.result.unwrap());
    let line_number = (prefix_lines + 1) as u64;
    assert_eq!(content.entries, [ContentEntry::MatchingLine(line_number)]);
    assert_eq!(text_at(&content, content.lines[&line_number]), "hit");
}

#[test]
fn occurrence_plan_pages_unicode_matches_without_byte_char_confusion() {
    let (output, _) = search(
        "界hit",
        "前界hit后 界hit尾\n".as_bytes(),
        GrepSearchPlan::ContentOccurrence(content_spec(false, true)),
    );
    let content = content(output.result.unwrap());
    let occurrences = &content.occurrences[&1];
    assert_eq!(occurrences.len(), 2);
    assert_eq!(
        text_at(&content, occurrences[0].matched_text.unwrap()),
        "界hit"
    );
    assert_eq!(occurrences[0].line_spans[0].match_char_start, 1);
    assert_eq!(occurrences[0].line_spans[0].match_char_len, 4);
    assert_eq!(occurrences[1].line_spans[0].match_char_start, 7);
    assert_eq!(content.entries.len(), 2);
}

struct CancelOnce {
    stage: WorkStage,
    fired: Cell<bool>,
}

impl CancelOnce {
    fn new(stage: WorkStage) -> Self {
        CancelOnce {
            stage,
            fired: Cell::new(false),
        }
    }
}

impl WorkCheckpoint for CancelOnce {
    fn never_stops(&self) -> bool {
        false
    }

    fn always_stops(&self) -> bool {
        false
    }

    fn stops_with(&self, _stop: WorkStop) -> bool {
        true
    }

    fn check_stop(&self) -> Result<(), WorkStop> {
        if self.fired.get() {
            Err(WorkStop::RequestCancelled)
        } else {
            Ok(())
        }
    }

    fn check_work(&self, stage: WorkStage) -> Result<(), WorkStop> {
        if stage == self.stage {
            self.fired.set(true);
        }
        self.check_stop()
    }
}

fn count_until_stopped(pattern: &str, bytes: &[u8], work: &CancelOnce) -> SinkMetrics {
    let matcher = matcher(pattern, false);
    let walk = matcher.walk(0, 0, true, usize::MAX, bytes);
    let mut sink = PlanSink::new(GrepSearchPlan::Count);
    let mut stopped = false;
    for event in &walk.events {
        if let Err(error) = sink.accept(&matcher, event, work) {
            assert_eq!(
                error,
                SinkInterrupt::Stopped(WorkStop::RequestCancelled)
            );
            stopped = true;
            break;
        }
    }
    assert!(stopped);
    assert!(work.fired.get());
    assert!(matches!(
        search_text(&matcher, GrepSearchPlan::Count, true, bytes, work),
        Err(GrepSinkError::Stopped(WorkStop::RequestCancelled))
    ));
    sink.metrics()
}

#[test]
fn cancellation_at_sink_match_stops_before_match_or_occurrence_work() {
    let work = CancelOnce::new(WorkStage::SinkMatch);
    let metrics = count_until_stopped("hit", b"hit hit\n", &work);
    assert_eq!(metrics.sink_matches, 0);
    assert_eq!(metrics.occurrences_examined, 0);
    assert_eq!(metrics.line_layout_builds, 0);
}

#[test]
fn dense_occurrence_cancellation_stops_at_the_declared_batch_boundary() {
    let work = CancelOnce::new(WorkStage::OccurrenceBatch);
    let metrics = count_until_stopped("x", "x".repeat(10_000).as_bytes(), &work);
    assert_eq!(metrics.occurrences_examined, 256);
}

#[test]
fn one_large_occurrence_reaches_the_declared_byte_cancellation_boundary() {
    let work = CancelOnce::new(WorkStage::OccurrenceBatch);
    let metrics = count_until_stopped("x+", "x".repeat(65_536).as_bytes(), &work);
    assert_eq!(metrics.occurrences_examined, 1);
}

#[test]
fn walking_reports_blocks_context_and_gaps() {
    let matcher = matcher("hit", false);
    let walk = matcher.walk(
        1,
        0,
        true,
        usize::MAX,
        b"a\nb\nhit\nc\nd\ne\nhit\n",
    );
    assert!(walk.fault.is_none());
    assert_eq!(walk.events.len(), 5);
    assert!(matches!(
        &walk.events[0],
        SearchEvent::Context { offset: 2, line: Some(2), kind: ContextKind::Before, bytes } if bytes == b"b\n"
    ));
    assert!(matches!(
        &walk.events[1],
        SearchEvent::Matched { offset: 4, line: Some(3), bytes } if bytes == b"hit\n"
    ));
    assert!(matches!(&walk.events[2], SearchEvent::Break));
    assert_eq!(matcher.occurrences(b"hit hit"), vec![(0, 3), (4, 7)]);
    assert!(GrepMatcher::build("(", false, false).is_err());
    let folded = GrepMatcher::build("HIT", true, true).unwrap();
    assert!(folded.is_multiline());
    assert_eq!(folded.occurrences(b"a hit"), vec![(2, 5)]);
}

#[test]
fn what_breaks_a_walk_off_counts_only_when_the_search_goes_on() {
    let matcher = matcher("hit", false);
    let mut bytes = b"hit\n".to_vec();
    bytes.extend_from_slice("x".repeat(200_000).as_bytes());
    let walk = matcher.walk(0, 0, false, 1024, &bytes);
    assert!(walk.fault.is_some());
    assert_eq!(walk.events.len(), 1);
}

#[test]
fn lines_are_laid_out_with_their_ends() {
    let mut layout = LineLayout::new("ab\r\n界c\n".as_bytes(), 5);
    assert_eq!(layout.line_count(), 2);
    let first = layout.line(0);
    assert_eq!((first.content_start, first.content_end, first.full_end), (0, 2, 4));
    let mut cursor = OccurrenceCursor::new();
    let (from, to) = layout.locate(7, 8, &mut cursor);
    assert_eq!((from, to), (1, 1));
    assert_eq!(
        layout.line_spans(7, 8, from, to),
        vec![LineMatchSpan {
            line_number: 6,
            match_char_start: 1,
            match_char_len: 1
        }]
    );
    assert_eq!(strip_line_terminator(b"ab\r\n"), 2);
    assert!(is_synthetic_trailing_empty(b"ab\n", 3, 3));
    assert_eq!(absolute_range(10, 1, 3), Some((11, 13)));
    assert_eq!(absolute_range(u64::MAX, 1, 3), None);
    let mut intervals = LineIntervals::new();
    intervals.insert(1, 2);
    intervals.insert(3, 5);
    intervals.insert(9, 9);
    let mut at = 0;
    assert!(intervals.contains(4, &mut at));
    assert!(!intervals.contains(7, &mut at));
    assert!(intervals.contains(9, &mut at));
}

#[test]
fn ranges_that_touch_become_one() {
    let merged = merge_ranges(&vec![(5, 6), (1, 3), (4, 4), (9, 9)]);
    assert_eq!(merged, vec![(1, 6), (9, 9)]);
    let held = LineRanges::new(merged);
    assert!(held.ranges_contain(6));
    assert!(!held.ranges_contain(7));
    assert_eq!(context_range(3, 3, 5, 1, 10), (1, 4));
    assert_eq!(context_range(9, 9, 0, 5, 10), (9, 10));
}

#[test]
fn written_lines_have_numbers_and_windows() {
    assert_eq!(match_prefix(7, true), "7:");
    assert_eq!(context_prefix(7, true), "7-");
    assert_eq!(match_prefix(7, false), "");
    let chars: Vec<char> = "say hit".chars().collect();
    let spans = vec![LineMatchSpan {
        line_number: 1,
        match_char_start: 4,
        match_char_len: 3,
    }];
    assert_eq!(
        format_match_line("1:".to_string(), 7, &chars, &spans, 100),
        "1:say hit"
    );
    assert_eq!(format_context_line("2-".to_string(), 7, &chars), "2-say hit");
    assert_eq!(format_only_match("1:".to_string(), &chars[4..], 2000), "1:hit");
    let long: Vec<char> = "a".repeat(700).chars().collect();
    let shown = format_match_line("1:".to_string(), 700, &long, &spans, 100);
    assert!(shown.chars().count() < 700);
}

#[test]
fn limits_follow_the_budget() {
    assert_eq!(effective_head_limit(0, 7), effective_head_limit(0, 7));
    assert_eq!(DEFAULT_HEAD_LIMIT, 250);
    assert_eq!(
        plan_search(OutputMode::Count, false, false, (0, 0), 0, 10, 64),
        GrepSearchPlan::Count
    );
    assert_eq!(
        plan_search(OutputMode::FilesWithMatches, false, false, (0, 0), 0, 10, 64),
        GrepSearchPlan::Exists
    );
    assert!(matches!(
        plan_search(OutputMode::Content, true, true, (1, 2), 3, 10, 64),
        GrepSearchPlan::ContentOccurrence(spec) if spec.multiline && spec.before_context == 1
    ));
}

#[test]
fn skips_and_facts_are_told() {
    let mut skipped = SkippedFiles::from_traversal(
        vec![SkippedFile {
            path: "/locked".to_string(),
            reason: "permission denied".to_string(),
        }],
        2,
    );
    skipped.record("/changed", &CandidateSkip::ChangedWhileSearched);
    let tally = skipped.tally();
    assert_eq!((tally.files, tally.unreachable, tally.listed), (1, 3, 2));
    assert_eq!(fallback_fact(0, Some("gbk")), None);
    assert!(fallback_fact(2, Some("gbk")).unwrap().contains("gbk"));
    let mut texts = vec!["b".to_string()];
    insert_text(&mut texts, "a".to_string());
    insert_text(&mut texts, "b".to_string());
    assert_eq!(texts, vec!["a", "b"]);
}

#[test]
fn failures_have_their_words() {
    assert_eq!(ordered_error_message(OrderedError::Cancelled), "Request cancelled.");
    assert_eq!(
        failure_message("/a", &SearchFailure::Cancelled),
        "Request cancelled."
    );
    assert!(capture_limit_error("/a").contains("/a"));
    assert!(failure_message("/a", &panicked("/a")).contains("/a"));
    assert!(matches!(
        for_work(Err(SearchFailure::EpochRetired)),
        Err(WorkStop::EpochRetired)
    ));
    assert!(matches!(
        for_work(Err(SearchFailure::CaptureOverflow)),
        Ok(Err(SearchFailure::CaptureOverflow))
    ));
}

#[test]
fn a_multiline_pattern_means_line_ends_of_either_kind() {
    let normalized = normalize_multiline_pattern("a\\nb");
    let matcher = matcher(&normalized, true);
    assert_eq!(matcher.occurrences(b"a\r\nb").len(), 1);
    assert_eq!(matcher.occurrences(b"a\nb").len(), 1);
}

#[test]
fn a_candidate_in_a_legacy_encoding_takes_the_fallback() {
    let matcher = matcher("hit", false);
    let outcome = search_content(
        "/legacy",
        b"caf\xE9 hit",
        &matcher,
        GrepSearchPlan::Count,
        None,
        Some("windows-1252"),
        &Uninterrupted,
    )
    .unwrap();
    assert!(outcome.used_fallback);
    assert_eq!(outcome.result.unwrap().occurrence_count(), 1);
    let outcome = search_content(
        "/legacy",
        b"caf\xE9 hit",
        &matcher,
        GrepSearchPlan::Count,
        None,
        None,
        &Uninterrupted,
    )
    .unwrap();
    assert!(outcome.result.is_none());
    assert!(matches!(outcome.skip, Some(CandidateSkip::Encoding(_))));
    let outcome = search_candidate(
        "/changed",
        Ok(CaptureDisposition::FileChanged),
        b"",
        &matcher,
        GrepSearchPlan::Count,
        None,
        None,
        &Uninterrupted,
    )
    .unwrap();
    assert!(matches!(
        outcome.skip,
        Some(CandidateSkip::ChangedWhileSearched)
    ));
    assert!(matches!(
        search_candidate(
            "/broken",
            Err(CaptureFailure::Io("broken".to_string())),
            b"",
            &matcher,
            GrepSearchPlan::Count,
            None,
            None,
            &Uninterrupted,
        ),
        Err(SearchFailure::Candidate(_)) | Err(SearchFailure::Fatal(_))
    ));
}

fn request(pattern: &str, mode: OutputMode) -> GrepRequest {
    GrepRequest {
        pattern: pattern.to_string(),
        path: None,
        glob: None,
        file_type: None,
        output_mode: Some(mode),
        case_insensitive: None,
        line_numbers: None,
        only_matching: None,
        before_context: None,
        after_context: None,
        context: None,
        multiline: None,
        head_limit: None,
        offset: None,
        encoding: None,
        fallback_encoding: None,
    }
}

fn candidate(path: &str, content: &str) -> GrepCandidate {
    let read = CaptureRead::Complete(CapturedSnapshot {
        len: content.len() as u64,
        memory: Some(content.as_bytes().to_vec()),
    });
    GrepCandidate {
        path: path.to_string(),
        capture: Ok(settle_capture(true, read)),
        content: content.as_bytes().to_vec(),
    }
}

fn input(candidates: Vec<GrepCandidate>, budget: usize) -> GrepInput {
    GrepInput {
        root: Ok(SearchRoot {
            display: "/root".to_string(),
            is_file: false,
        }),
        glob: Ok(()),
        candidates,
        skipped_files: SkippedFiles::from_traversal(Vec::new(), 0),
        budget,
        budget_variable: "FASTCTX_GREP_TOKEN_BUDGET".to_string(),
        capture_limit: CAPTURE_HEAP_LIMIT_BYTES,
    }
}

fn report(skipped: &SkippedFiles) -> SkipReport {
    let details: Vec<String> = skipped
        .entries
        .iter()
        .map(|entry| format!("{}: {}", entry.path, entry.reason))
        .collect();
    let tally = (0..=details.len())
        .map(|shown| {
            if details.is_empty() {
                None
            } else {
                Some(format!("{} skipped, {shown} shown", details.len()))
            }
        })
        .collect();
    SkipReport { details, tally }
}

fn cost(text: &str) -> usize {
    text.len()
}

fn run(request: GrepRequest, candidates: Vec<GrepCandidate>, budget: usize) -> ToolResponse {
    grep_files(
        request,
        input(candidates, budget),
        &Uninterrupted,
        &report,
        &cost,
    )
}

fn text_of(response: &ToolResponse) -> &str {
    match &response.content[0] {
        ToolContent::Text(text) => text,
        _ => panic!("expected text"),
    }
}

fn corpus() -> Vec<GrepCandidate> {
    vec![
        candidate("/root/a.txt", "one hit\ntwo\nthree hit hit\n"),
        candidate("/root/b.txt", "none\n"),
        candidate("/root/c.txt", "hit\n"),
    ]
}

#[test]
fn files_are_listed_in_order() {
    let response = run(request("hit", OutputMode::FilesWithMatches), corpus(), 4000);
    assert!(!response.is_error);
    let lines: Vec<&str> = text_of(&response).lines().collect();
    assert_eq!(&lines[1..], ["/root/a.txt", "/root/c.txt"]);
    assert!(lines[0].contains("files 1-2 of 2"), "{}", lines[0]);
}

#[test]
fn counts_are_by_occurrence() {
    let response = run(request("hit", OutputMode::Count), corpus(), 4000);
    let lines: Vec<&str> = text_of(&response).lines().collect();
    assert_eq!(&lines[1..], ["/root/a.txt:3", "/root/c.txt:1"]);
    let response = run(request("hit", OutputMode::Summary), corpus(), 4000);
    assert!(text_of(&response).contains("4 occurrences in 2 files"));
}

#[test]
fn content_shows_lines_with_numbers() {
    let response = run(request("hit", OutputMode::Content), corpus(), 4000);
    let shown = text_of(&response);
    assert!(shown.contains("1:one hit"), "{shown}");
    assert!(shown.contains("3:three hit hit"), "{shown}");
    assert!(!shown.contains("two"), "{shown}");
    let mut only = request("h[a-z]t", OutputMode::Content);
    only.only_matching = Some(true);
    let response = run(only, corpus(), 4000);
    assert_eq!(text_of(&response).matches("hit").count(), 4);
}

#[test]
fn pages_follow_one_another() {
    let mut first = request("hit", OutputMode::FilesWithMatches);
    first.head_limit = Some(1);
    let response = run(first, corpus(), 4000);
    assert!(text_of(&response).contains("/root/a.txt"));
    assert!(!text_of(&response).contains("/root/c.txt"));
    let mut second = request("hit", OutputMode::FilesWithMatches);
    second.offset = Some(1);
    let response = run(second, corpus(), 4000);
    assert!(!text_of(&response).contains("/root/a.txt"));
    assert!(text_of(&response).contains("/root/c.txt"));
    let mut past = request("hit", OutputMode::FilesWithMatches);
    past.offset = Some(9);
    let response = run(past, corpus(), 4000);
    assert!(!text_of(&response).contains("/root/"));
}

#[test]
fn nothing_found_and_small_budgets_are_told() {
    let response = run(request("absent", OutputMode::Content), corpus(), 4000);
    assert!(!response.is_error);
    assert!(!text_of(&response).contains("/root/a.txt"));
    let response = run(request("hit", OutputMode::Content), corpus(), 3);
    assert!(response.is_error);
    assert!(text_of(&response).contains("FASTCTX_GREP_TOKEN_BUDGET=3"));
    let response = run(request("(", OutputMode::Content), corpus(), 4000);
    assert!(response.is_error);
}

#[test]
fn a_page_never_costs_more_than_its_budget() {
    for budget in [80, 120, 200, 4000] {
        for mode in [
            OutputMode::Content,
            OutputMode::Count,
            OutputMode::FilesWithMatches,
        ] {
            let response = run(request("hit", mode), corpus(), budget);
            if !response.is_error {
                assert!(cost(text_of(&response)) <= budget);
            }
        }
    }
}

#[test]
fn skipped_files_are_reported() {
    let mut candidates = corpus();
    candidates.push(GrepCandidate {
        path: "/root/d.txt".to_string(),
        capture: Ok(CaptureDisposition::FileChanged),
        content: Vec::new(),
    });
    let response = run(request("hit", OutputMode::Count), candidates, 4000);
    assert!(text_of(&response).contains("/root/d.txt: "));
    assert!(text_of(&response).contains("1 skipped, 1 shown"));
}

#[test]
fn a_cancelled_search_shows_no_part_of_its_page() {
    let work = CancelOnce::new(WorkStage::SinkMatch);
    let response = grep_files(
        request("hit", OutputMode::Content),
        input(corpus(), 4000),
        &work,
        &report,
        &cost,
    );
    assert!(response.is_error);
    assert_eq!(text_of(&response), "Request cancelled.");
}

#[test]
fn requests_are_checked_before_searching() {
    let bad_root = prepare(
        &request("hit", OutputMode::Content),
        &Err("No such directory: /gone".to_string()),
        &Ok(()),
        100,
        CAPTURE_HEAP_LIMIT_BYTES,
    );
    assert_eq!(
        text_of(&bad_root.err().unwrap()),
        "No such directory: /gone"
    );
    let mut labelled = request("hit", OutputMode::Content);
    labelled.encoding = Some("klingon".to_string());
    let root = Ok(SearchRoot {
        display: "/root/a.txt".to_string(),
        is_file: true,
    });
    let refused = prepare(&labelled, &root, &Ok(()), 100, CAPTURE_HEAP_LIMIT_BYTES);
    let response = refused.err().unwrap();
    assert!(response.is_error);
    assert!(text_of(&response).contains("klingon"));
}
