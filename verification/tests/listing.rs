use fastctx::glob::entry::{
    collect_matches, entry_step, evaluate_match, format_match_details, format_modified_utc,
    write_details, EntryFailure, EntryKind, EntryMetadata, EntryStep, GlobCandidate, ModifiedTime,
    StatAnswer,
};
use fastctx::glob::listing::{format_matches, glob_files, order_matches, GlobInput};
use fastctx::glob::request::{
    checked_limit, glob_error, too_many_matches, FilterMode, GlobOutputMode, GlobRequest,
    SortMode, MAX_RESULTS,
};
use fastctx::head_note::{CoverageTotal, CoveredRange, HeadMetric, HeadNote};
use fastctx::model::{ToolContent, ToolResponse};
use fastctx::model_guidance::{
    inspect_tool_description, local_file_route_guidance, local_path_description,
    server_instructions,
};
use fastctx::operation::{Uninterrupted, WorkCtx};
use fastctx::ordering::{bytes_before, sorted_order, SortKey};
use fastctx::page::{finish_page, settle, NoteUnits};
use fastctx::paging::replay_compat_binary_probes;
use fastctx::text::{
    contains_text, decimal_text, escape_breaks, find_from, join_first, lower_chars, mib_text,
    single_line, split_at_char, starts_with_text, string_of, trim_chars,
};
use std::cell::RefCell;
use std::collections::BTreeSet;

fn time(seconds: u64) -> ModifiedTime {
    ModifiedTime {
        earlier: false,
        seconds,
        nanoseconds: 5,
    }
}

fn file(display: &str, seconds: u64) -> GlobCandidate {
    GlobCandidate {
        display: display.to_string(),
        native_key: display.as_bytes().to_vec(),
        kind: EntryKind::File,
        matched: true,
        plain: Some(StatAnswer::File(EntryMetadata {
            bytes: 12,
            modified: Ok(time(seconds)),
        })),
        followed: None,
    }
}

fn request() -> GlobRequest {
    GlobRequest {
        pattern: vec!["**/*.rs".to_string()],
        path: None,
        filter_mode: None,
        sort: None,
        output_mode: None,
        offset: None,
        limit: None,
    }
}

fn report(failures: &Vec<EntryFailure>) -> NoteUnits {
    let details: Vec<String> = failures
        .iter()
        .map(|failure| format!("{}: {}", failure.display, failure.message))
        .collect();
    let tally = (0..=details.len())
        .map(|shown| {
            if details.is_empty() {
                None
            } else {
                Some(format!("{} unreachable, {shown} shown", details.len()))
            }
        })
        .collect();
    NoteUnits {
        facts: Vec::new(),
        details,
        tally,
    }
}

fn cost(text: &str) -> usize {
    text.len()
}

fn input(walked: Vec<GlobCandidate>, budget: usize) -> GlobInput {
    GlobInput {
        root: Ok(()),
        patterns: Ok(()),
        walked: Ok(walked),
        budget,
        budget_variable: "FASTCTX_GLOB_TOKEN_BUDGET".to_string(),
    }
}

fn run(request: &GlobRequest, walked: Vec<GlobCandidate>, budget: usize) -> ToolResponse {
    glob_files(
        request,
        input(walked, budget),
        &Uninterrupted,
        &report,
        &cost,
    )
}

fn text_of(response: &ToolResponse) -> &str {
    match &response.content[0] {
        ToolContent::Text(text) => text,
        _ => panic!("expected text"),
    }
}

fn walked() -> Vec<GlobCandidate> {
    vec![file("/b.rs", 1), file("/a.rs", 2), file("/c.rs", 3)]
}

#[test]
fn files_come_by_path_or_by_time() {
    let response = run(&request(), walked(), 4000);
    assert_eq!(
        text_of(&response),
        "=== glob (files 1-3 of 3) ===\n/a.rs\n/b.rs\n/c.rs"
    );
    let mut modified = request();
    modified.sort = Some(SortMode::Modified);
    let response = run(&modified, walked(), 4000);
    let lines: Vec<&str> = text_of(&response).lines().skip(1).collect();
    assert_eq!(lines, ["/c.rs", "/a.rs", "/b.rs"]);
}

#[test]
fn details_are_one_json_object_each() {
    let mut detailed = request();
    detailed.output_mode = Some(GlobOutputMode::Details);
    let response = run(&detailed, vec![file("/a \"b\".rs", 0)], 4000);
    assert_eq!(
        text_of(&response).lines().nth(1).unwrap(),
        "{\"path\":\"/a \\\"b\\\".rs\",\"bytes\":12,\"modified\":\"1970-01-01T00:00:00.000000005Z\"}"
    );
    assert_eq!(
        write_details("\"a\"", 7, "\"b\""),
        "{\"path\":\"a\",\"bytes\":7,\"modified\":\"b\"}"
    );
    assert_eq!(
        format_match_details("/a", None, Some(time(0))).unwrap_err(),
        "glob detail metadata is missing the file size"
    );
    assert_eq!(
        format_match_details("/a", Some(1), None).unwrap_err(),
        "glob detail metadata is missing the modification time"
    );
}

#[test]
fn times_are_written_in_utc() {
    let early = ModifiedTime {
        earlier: true,
        seconds: 1,
        nanoseconds: 0,
    };
    assert_eq!(early.to_unix_nanos(), -1_000_000_000);
    assert_eq!(
        format_modified_utc(early).unwrap(),
        "1969-12-31T23:59:59.000000000Z"
    );
    assert_eq!(
        format_modified_utc(time(1_546_300_800)).unwrap(),
        "2019-01-01T00:00:00.000000005Z"
    );
    let late = ModifiedTime {
        earlier: false,
        seconds: u64::MAX,
        nanoseconds: 0,
    };
    assert!(format_modified_utc(late)
        .unwrap_err()
        .starts_with("file modification time is out of range: "));
}

#[test]
fn pages_of_files_follow_one_another() {
    let mut first = request();
    first.limit = Some(2);
    assert_eq!(
        text_of(&run(&first, walked(), 4000)),
        "=== glob (files 1-2 of 3) ===\n/a.rs\n/b.rs"
    );
    let mut second = request();
    second.offset = Some(2);
    assert_eq!(
        text_of(&run(&second, walked(), 4000)),
        "=== glob (file 3 of 3) ===\n/c.rs".replace("file 3", "files 3")
    );
    let mut past = request();
    past.offset = Some(9);
    assert_eq!(
        text_of(&run(&past, walked(), 4000)),
        "=== glob (0 files; 3 files exist) ==="
    );
    assert_eq!(
        text_of(&run(&request(), Vec::new(), 4000)),
        "=== glob (0 files) ==="
    );
}

#[test]
fn a_listing_never_costs_more_than_its_budget() {
    for budget in [10, 36, 42, 48, 60] {
        let response = run(&request(), walked(), budget);
        if response.is_error {
            assert_eq!(
                text_of(&response),
                format!("FASTCTX_GLOB_TOKEN_BUDGET={budget} is too small to return the glob head note and one result. That budget is fixed for this session; retrying cannot raise it.")
            );
        } else {
            assert!(cost(text_of(&response)) <= budget);
        }
    }
}

#[test]
fn entries_are_asked_about_only_where_needed() {
    assert_eq!(
        entry_step(EntryKind::Other, true, SortMode::Path, GlobOutputMode::Paths),
        EntryStep::Skip
    );
    assert_eq!(
        entry_step(EntryKind::File, true, SortMode::Path, GlobOutputMode::Paths),
        EntryStep::Take
    );
    assert_eq!(
        entry_step(EntryKind::Link, true, SortMode::Path, GlobOutputMode::Paths),
        EntryStep::Stat { follow: true }
    );
    assert_eq!(
        entry_step(EntryKind::File, true, SortMode::Modified, GlobOutputMode::Paths),
        EntryStep::Stat { follow: false }
    );
}

#[test]
fn links_that_lead_nowhere_are_left_out() {
    let mut link = file("/link.rs", 0);
    link.kind = EntryKind::Link;
    link.followed = Some(StatAnswer::NotFound);
    assert!(evaluate_match(link, SortMode::Path, GlobOutputMode::Paths)
        .unwrap()
        .is_none());
    let mut broken = file("/broken.rs", 0);
    broken.plain = Some(StatAnswer::Failed("first".to_string()));
    broken.followed = Some(StatAnswer::Failed("second".to_string()));
    let failure =
        evaluate_match(broken, SortMode::Modified, GlobOutputMode::Paths).unwrap_err();
    assert_eq!(failure.message, "second");
    let mut directory = file("/dir", 0);
    directory.plain = Some(StatAnswer::NotFile);
    assert!(
        evaluate_match(directory, SortMode::Modified, GlobOutputMode::Paths)
            .unwrap()
            .is_none()
    );
}

#[test]
fn entries_that_fail_are_told_below_the_files() {
    let mut broken = file("/broken.rs", 0);
    broken.kind = EntryKind::Link;
    broken.followed = Some(StatAnswer::Failed("denied".to_string()));
    let mut candidates = walked();
    candidates.push(broken);
    let response = run(&request(), candidates, 4000);
    assert!(text_of(&response).contains("1 unreachable, 1 shown"));
    assert!(text_of(&response).ends_with("/broken.rs: denied"));
}

#[test]
fn requests_for_files_are_checked_in_order() {
    let mut bad = input(Vec::new(), 4000);
    bad.root = Err("no root".to_string());
    bad.patterns = Err("bad".to_string());
    let response = glob_files(&request(), bad, &Uninterrupted, &report, &cost);
    assert_eq!(text_of(&response), "no root");
    let mut bad = input(Vec::new(), 4000);
    bad.patterns = Err("bad".to_string());
    let response = glob_files(&request(), bad, &Uninterrupted, &report, &cost);
    assert_eq!(text_of(&response), glob_error("bad"));
    let mut limited = request();
    limited.limit = Some(1001);
    assert_eq!(
        text_of(&run(&limited, walked(), 4000)),
        "Invalid limit value: 1001. Expected an integer from 1 to 1000."
    );
    assert_eq!(checked_limit(None), Ok(100));
    let cancelled = glob_files(
        &request(),
        input(walked(), 4000),
        &WorkCtx::inline(true),
        &report,
        &cost,
    );
    assert!(cancelled.is_error);
    assert_eq!(text_of(&cancelled), "Request cancelled.");
}

#[test]
fn too_many_files_are_refused() {
    let many = (0..=MAX_RESULTS)
        .map(|index| file(&format!("/{index}"), 0))
        .collect();
    let response = run(&request(), many, 4000);
    assert_eq!(text_of(&response), too_many_matches());
}

#[test]
fn filters_have_their_names_and_settings() {
    assert_eq!(FilterMode::parse("ignore"), Some(FilterMode::Ignore));
    assert_eq!(FilterMode::parse("project"), Some(FilterMode::Ignore));
    assert_eq!(FilterMode::parse("all"), Some(FilterMode::All));
    assert_eq!(FilterMode::parse("git"), None);
    assert!(FilterMode::default().settings().ignore);
    assert!(!FilterMode::All.settings().parents);
    assert_eq!(SortMode::default(), SortMode::Path);
    assert_eq!(GlobOutputMode::default(), GlobOutputMode::Paths);
}

#[test]
fn unknown_times_come_last() {
    let found = collect_matches(
        walked(),
        SortMode::Modified,
        GlobOutputMode::Paths,
        &Uninterrupted,
    )
    .unwrap();
    let mut entries = found.entries;
    entries[2].modified = None;
    let order = order_matches(SortMode::Modified, &entries);
    assert_eq!(order, vec![1, 0, 2]);
    let response = format_matches(
        &entries,
        &order,
        &NoteUnits::none(),
        0,
        10,
        4000,
        "BUDGET",
        &cost,
    );
    assert!(text_of(&response).ends_with("/c.rs"));
}

#[test]
fn an_order_is_by_rank_then_by_bytes() {
    let key = |rank: i128, first: &str, second: &str| SortKey {
        rank,
        first: first.as_bytes().to_vec(),
        second: second.as_bytes().to_vec(),
    };
    let keys = vec![key(0, "b", ""), key(0, "a", "z"), key(-1, "c", ""), key(0, "a", "y")];
    assert_eq!(sorted_order(&keys), vec![2, 3, 1, 0]);
    assert!(bytes_before(b"ab", b"abc"));
    assert!(!bytes_before(b"abc", b"ab"));
}

#[test]
fn notes_are_one_line() {
    let metric = HeadMetric::Coverage {
        unit: "lines",
        ranges: vec![CoveredRange::new(1, 3), CoveredRange::new(7, 7)],
        total: CoverageTotal::AtLeast(9),
    };
    let note = HeadNote::new("read".to_string(), metric).fact("cut\nshort".to_string());
    let line = note.render();
    assert!(!line.contains('\n'), "{line}");
    assert!(line.starts_with("=== read ("), "{line}");
    assert!(note.render_with_body("body").ends_with("\nbody"));
    assert!(text_of(&note.duplicate().into_text_response("body")).ends_with("\nbody"));
    assert_eq!(
        HeadMetric::count_in_files(2, "match", "matches", 1).render(),
        "2 matches in 1 file"
    );
}

#[test]
fn a_page_keeps_as_many_details_as_fit() {
    let units = NoteUnits {
        facts: Vec::new(),
        details: vec!["aaaa".to_string(), "bbbb".to_string(), "cccc".to_string()],
        tally: vec![None, None, None, None],
    };
    let note = HeadNote::new("x".to_string(), HeadMetric::event("y".to_string()));
    let body = vec!["line".to_string()];
    let whole = finish_page(&units, &note, &body, 1, 4000, &cost).unwrap();
    assert!(whole.ends_with("cccc"));
    let bare = units.write(&note, &body, 1, 0).len();
    let cut = finish_page(&units, &note, &body, 1, bare + 10, &cost).unwrap();
    assert!(cut.ends_with("bbbb"), "{cut}");
    assert!(finish_page(&units, &note, &body, 1, bare - 1, &cost).is_none());
    assert_eq!(settle(0, 9, None, 5, &|n: usize| n), Some(5));
    let probe = |n: usize| -> Result<Option<usize>, ()> {
        if n <= 6 {
            Ok(Some(n))
        } else {
            Ok(None)
        }
    };
    assert_eq!(replay_compat_binary_probes(0, 9, None, &probe), Ok(Some(6)));
}

#[test]
fn the_search_asks_about_nothing_twice() {
    for bound in 0..=33 {
        let asked = RefCell::new(Vec::new());
        let probe = |n: usize| -> Result<Option<usize>, ()> {
            asked.borrow_mut().push(n);
            if n < bound {
                Ok(Some(n))
            } else {
                Ok(None)
            }
        };
        let found = replay_compat_binary_probes(3, 32, None, &probe).unwrap();
        assert_eq!(found, if bound > 3 { Some(bound - 1) } else { None });
        let asked = asked.into_inner();
        assert!(asked.iter().all(|n| (3..=32).contains(n)));
        let distinct: BTreeSet<usize> = asked.iter().copied().collect();
        assert_eq!(distinct.len(), asked.len());
    }
    let failing = |n: usize| -> Result<Option<usize>, usize> { Err(n) };
    assert_eq!(
        replay_compat_binary_probes(0, 9, Some(1), &failing),
        Err(4)
    );
}

#[test]
fn texts_are_cut_and_joined() {
    assert_eq!(decimal_text(u64::MAX), u64::MAX.to_string());
    assert_eq!(single_line("a\r\nb"), single_line("a\r\nb").replace('\n', ""));
    let lines = vec!["a".to_string(), "b".to_string(), "c".to_string()];
    assert_eq!(join_first(&lines, 2, ", "), "a, b");
    assert_eq!(split_at_char("a:b::", ':'), vec!["a", "b", "", ""]);
    assert!(contains_text("haystack", "stack"));
    assert!(starts_with_text("haystack", "hay"));
    let chars: Vec<char> = " A\tb ".chars().collect();
    assert_eq!(string_of(trim_chars(&chars)), "A\tb");
    assert_eq!(string_of(&lower_chars(&chars)), " a\tb ");
    assert_eq!(find_from(&chars, 2, 'b'), Some(3));
    assert_eq!(string_of(&escape_breaks(&['a', '\n'])), "a\\n");
    for bytes in [0, 1, 52_428, 52_429, 157_286, 1 << 20, 3_407_872, 123_456_789, 1 << 40] {
        assert_eq!(
            mib_text(bytes),
            format!("{:.1}", bytes as f64 / (1024.0 * 1024.0)),
            "{bytes}"
        );
    }
}

#[test]
fn guidance_names_the_route() {
    let route = local_file_route_guidance();
    assert!(local_path_description("Here.").contains(route) || !route.is_empty());
    assert!(!inspect_tool_description().is_empty());
    assert!(!server_instructions().is_empty());
}
