use fastctx::edit::course::{Collected, ReplaceAction, ReplaceCourse};
use fastctx::edit::digest::revision_of;
use fastctx::edit::document::{
    check_target, concurrent_message, dangling_link_message, limit_in_bytes, DocumentDraft,
    EolStyle, TargetFacts, TextDocument,
};
use fastctx::edit::locks::{EntryName, PathIdentity, PathLocks};
use fastctx::edit::pattern::{
    replacement_tokens, validate_replacement_references, CompiledRegex, PatternOptions,
    ReplacementReference,
};
use fastctx::edit::replacement::{
    analyze_file, build_replacement, preview_text, process_matches, validate_replacement,
};
use fastctx::edit::report::{is_binary_error, is_encoding_error, is_skippable_error, short_issue};
use fastctx::edit::report::Unreachable;
use fastctx::edit::service::{
    budget_message, check_candidates, glob_message, open_candidate, Candidate, CommitStep,
    OpenStep, OpenedCandidate, ReplaceRequest, ReplaceRun, ReplaceService, RootFacts,
    DEFAULT_REPLACE_FILE_LIMIT_MIB,
};
use fastctx::model::{ToolContent, ToolResponse};
use std::collections::BTreeMap;

fn document(raw: &[u8]) -> TextDocument {
    TextDocument::open("/doc.txt".to_string(), raw.to_vec(), raw, None).unwrap()
}

fn regex(pattern: &str) -> CompiledRegex {
    let options = PatternOptions {
        literal: false,
        case_insensitive: false,
        dot_all: false,
    };
    CompiledRegex::build(pattern, options).unwrap()
}

#[test]
fn utf16_mapping_preserves_every_unmodified_raw_byte() {
    let mut raw = vec![0xff, 0xfe];
    for unit in "one\r\ntwo".encode_utf16() {
        raw.extend(unit.to_le_bytes());
    }
    let document = document(&raw);
    let start = document.logical_text().find("two").unwrap();
    let end = start + "two".len();
    let raw_start = document.raw_offset(start).unwrap();
    let raw_end = document.raw_offset(end).unwrap();
    let mut result = Vec::new();
    result.extend_from_slice(&document.original_bytes()[..raw_start]);
    result.extend_from_slice(&document.encode_for_target("TWO").unwrap());
    result.extend_from_slice(&document.original_bytes()[raw_end..]);
    assert_eq!(&result[..12], &raw[..12]);
    assert_eq!(&result[..2], &[0xff, 0xfe]);
}

#[test]
fn dangling_symlink_uses_the_specific_recovery_error() {
    assert_eq!(
        dangling_link_message("/tmp/dangling.txt"),
        "Cannot edit /tmp/dangling.txt: it is a symbolic link that does not resolve to a file."
    );
}

#[test]
fn documents_show_line_feeds_and_write_their_own_line_ends() {
    let document = document(b"one\r\ntwo\r\n");
    assert_eq!(document.logical_text(), "one\ntwo\n");
    assert_eq!(document.encode_for_target("a\nb").unwrap(), b"a\r\nb");
    assert!(document.has_trailing_newline());
    assert_eq!(document.encoding_label(), "UTF-8");
    assert_eq!(document.display_path(), "/doc.txt");
    assert!(document.raw_offset(document.offset_slots()).is_err());
    assert_eq!(EolStyle::Crlf.as_str(), "\r\n");
    assert_eq!(
        document.revision(),
        revision_of(b"one\r\ntwo\r\n")
    );
    assert_eq!(
        revision_of(b"abc"),
        "ba7816bf8f01cfea414140de5dae2223b00361a396177a9cb410ff61f20015ad"
    );
}

#[test]
fn a_document_that_changed_while_it_was_read_is_refused() {
    let refused = TextDocument::open("/doc.txt".to_string(), b"old".to_vec(), b"new", None);
    assert!(refused.is_err());
    let document = document(b"old");
    assert!(document.check_commit("/doc.txt", b"old", 1).is_ok());
    assert_eq!(
        document.check_commit("/doc.txt", b"new", 1).unwrap_err(),
        concurrent_message("/doc.txt")
    );
    assert!(document.check_commit("/doc.txt", b"old", 2).is_err());
}

#[test]
fn targets_are_regular_small_and_linked_once() {
    let facts = TargetFacts {
        hard_links: 1,
        is_regular_file: true,
        len: 10,
    };
    assert!(check_target("/a", "/a", facts, 1).is_ok());
    assert!(check_target("/a", "/a", TargetFacts { hard_links: 2, ..facts }, 1).is_err());
    assert!(check_target("/a", "/a", TargetFacts { is_regular_file: false, ..facts }, 1).is_err());
    assert!(check_target("/a", "/a", TargetFacts { len: (1 << 20) + 1, ..facts }, 1).is_err());
    assert_eq!(limit_in_bytes(2), 2 << 20);
    assert_eq!(limit_in_bytes(u64::MAX), u64::MAX);
}

#[test]
fn references_are_read_like_the_regex_crate_reads_them() {
    let tokens = replacement_tokens("$1 ${name} $$ $name2x");
    assert_eq!(tokens.len(), 3);
    assert!(matches!(tokens[0].reference, ReplacementReference::Number(1)));
    assert!(matches!(&tokens[1].reference, ReplacementReference::Named(name) if name == "name"));
    assert!(matches!(&tokens[2].reference, ReplacementReference::Named(name) if name == "name2x"));
    assert!(validate_replacement_references(2, &vec!["name".to_string()], "$1${name}").is_ok());
    assert!(validate_replacement_references(2, &vec!["name".to_string()], "$2").is_err());
    assert!(regex("(a)(?P<b>c)").validate_references("$1$b$0").is_ok());
    assert!(regex("(a)").validate_references("${b}").is_err());
}

#[test]
fn patterns_are_literal_or_not() {
    let options = PatternOptions {
        literal: true,
        case_insensitive: true,
        dot_all: false,
    };
    let literal = CompiledRegex::build("a.c", options).unwrap();
    assert!(literal.matches("abc", "").is_empty());
    let found = literal.matches("xA.C", "y");
    assert_eq!((found[0].start, found[0].end), (1, 4));
    assert_eq!(found[0].matched, "A.C");
    assert!(regex("a*").matches_empty());
    assert!(!regex("a+").matches_empty());
    let found = regex("(a)(b)").matches("ab", "$2$1");
    assert_eq!(found[0].expanded, "ba");
    let options = PatternOptions {
        literal: false,
        case_insensitive: false,
        dot_all: false,
    };
    assert!(CompiledRegex::build("(", options).is_err());
}

#[test]
fn replacing_touches_only_the_matches() {
    let document = document(b"\xef\xbb\xbfa hit\r\nb\r\nhit\r\n");
    let built = build_replacement(&document, &regex("hit"), "done\n", 64).unwrap();
    assert_eq!(built.matches, 2);
    assert_eq!(
        built.bytes,
        b"\xef\xbb\xbfa done\r\n\r\nb\r\ndone\r\n\r\n"
    );
    assert!(validate_replacement(&document, &regex("hit"), "done", 64).is_ok());
    let same = build_replacement(&document, &regex("absent"), "x", 64).unwrap();
    assert_eq!(same.matches, 0);
    assert_eq!(same.bytes, document.original_bytes());
    let analysis = analyze_file(&document, &regex("hit"), "done", 1);
    assert_eq!(analysis.matches, 2);
    assert_eq!(analysis.previews.len(), 1);
    assert_eq!(preview_text("a\nb"), "a\\nb");
}

#[test]
fn a_result_over_the_limit_is_refused() {
    let document = document(b"x");
    let template = "y".repeat(1 << 20);
    assert!(build_replacement(&document, &regex("x"), &template, 1).is_ok());
    let template = "y".repeat((1 << 20) + 1);
    assert!(build_replacement(&document, &regex("x"), &template, 1).is_err());
    assert!(validate_replacement(&document, &regex("x"), &template, 1).is_err());
}

#[test]
fn names_that_windows_takes_for_one_have_one_identity() {
    let parent = PathIdentity::unix(1, 2);
    let windows =
        |name: &str| PathIdentity::for_name(&parent, EntryName::Windows(name)).material;
    let bytes = |name: &[u8]| PathIdentity::for_name(&parent, EntryName::Bytes(name)).material;
    assert_eq!(windows("New.txt"), windows("new.TXT"));
    assert_eq!(windows("name"), windows("name...   "));
    assert_ne!(bytes(b"New.txt"), bytes(b"new.TXT"));
    assert_ne!(bytes(b"a\xFF"), bytes(b"a\xFE"));
    assert_ne!(bytes(b"a\xFF"), bytes("a\u{FFFD}".as_bytes()));
    let mut expected = b"missing\0".to_vec();
    expected.extend_from_slice(&parent.material);
    expected.extend_from_slice(b"\0a\xFF");
    assert_eq!(bytes(b"a\xFF"), expected);
    assert_ne!(
        PathIdentity::unix(1, 2).material,
        PathIdentity::unix(2, 1).material
    );
    assert_eq!(
        PathIdentity::unix(1, 2).lock_name(),
        PathIdentity::unix(1, 2).lock_name()
    );
    assert_ne!(
        PathIdentity::windows(1, 2, 3).lock_name(),
        PathIdentity::other("x").lock_name()
    );
}

#[test]
fn one_file_has_one_lock_while_somebody_holds_it() {
    let mut locks = PathLocks::new();
    let first = PathIdentity::unix(1, 2);
    let second = PathIdentity::unix(1, 3);
    let lock = locks.for_identity(&first);
    assert_eq!(locks.for_identity(&first), lock);
    assert_ne!(locks.for_identity(&second), lock);
    locks.release(&first);
    assert_eq!(locks.for_identity(&first), lock);
}

#[test]
fn errors_are_told_apart() {
    let EntryError { binary, encoding, other } = entry_errors();
    assert!(is_binary_error(&binary));
    assert!(is_encoding_error(&encoding));
    assert!(is_skippable_error(&encoding));
    assert!(!is_skippable_error(&binary));
    assert!(is_skippable_error("File too large for line edits: /a"));
    assert!(!is_skippable_error(&other));
    assert!(!short_issue(&encoding).is_empty());
    assert!(glob_message("bad").contains("bad"));
    assert!(budget_message("Bad budget.").ends_with("Fix the env var and restart the session."));
    assert!(check_candidates(10_000).is_ok());
    assert!(check_candidates(10_001).is_err());
}

struct EntryError {
    binary: String,
    encoding: String,
    other: String,
}

fn entry_errors() -> EntryError {
    let open = |raw: &[u8]| {
        TextDocument::open("/doc.txt".to_string(), raw.to_vec(), raw, None).err().unwrap()
    };
    EntryError {
        binary: open(b"a\0b"),
        encoding: open(b"caf\xE9"),
        other: "permission denied".to_string(),
    }
}

fn response_text(response: &ToolResponse) -> &str {
    match response.content.as_slice() {
        [ToolContent::Text(text)] => text,
        content => panic!("expected one text block, got {content:?}"),
    }
}

fn request(path: &str, pattern: &str, replacement: &str) -> ReplaceRequest {
    ReplaceRequest {
        pattern: pattern.to_string(),
        replacement: replacement.to_string(),
        path: path.to_string(),
        glob: None,
        literal: None,
        case_insensitive: None,
        dot_all: None,
        max_replacements: None,
        dry_run: None,
        encoding: None,
        fallback_encoding: None,
    }
}

fn cost(text: &str) -> usize {
    text.len()
}

fn no_more(_required: usize) -> Option<usize> {
    None
}

type Files = BTreeMap<String, (u64, Vec<u8>)>;

fn open_file(files: &Files, path: &str, label: Option<&str>) -> Result<TextDocument, String> {
    let raw = &files[path].1;
    TextDocument::open(path.to_string(), raw.clone(), raw, label)
}

fn identity(files: &Files, path: &str) -> Vec<u8> {
    PathIdentity::unix(1, files[path].0).material
}

fn candidate(files: &Files, path: &str, run: &ReplaceRun) -> Candidate {
    let explicit = run.request.encoding.as_deref();
    let fallback = run.request.fallback_encoding.as_deref();
    let opened = match open_candidate(open_file(files, path, explicit), explicit, fallback) {
        OpenStep::Opened(document) => Ok((document, false)),
        OpenStep::Fallback => open_file(files, path, fallback).map(|document| (document, true)),
        OpenStep::Failed(message) => Err(message),
    };
    Candidate {
        display: path.to_string(),
        opened: opened.map(|(document, used_fallback)| OpenedCandidate {
            document,
            used_fallback,
            name_identity: Ok(path.as_bytes().to_vec()),
            identity: Ok(identity(files, path)),
        }),
    }
}

fn nothing_unreachable() -> Unreachable {
    Unreachable {
        issues: Vec::new(),
        total: 0,
    }
}

fn is_ignored(files: &Files, path: &str) -> bool {
    let hidden = path.contains("/.");
    let listed = files.iter().any(|(rules, (_, bytes))| {
        rules.ends_with("/.gitignore") && bytes == b"*.txt\n" && path.ends_with(".txt")
    });
    hidden || listed
}

fn replace(
    files: &mut Files,
    request: ReplaceRequest,
    budget: usize,
    before_commit: &dyn Fn(&mut Files),
) -> ToolResponse {
    let service = ReplaceService::new();
    let is_file = files.contains_key(&request.path);
    let root = RootFacts {
        display: request.path.clone(),
        is_file,
    };
    let run = match service.replace(request, Ok(budget), Ok(root)) {
        Ok(run) => run,
        Err(response) => return response,
    };
    let paths: Vec<String> = files
        .keys()
        .filter(|path| !is_file || **path == run.request.path)
        .filter(|path| !is_ignored(files, path))
        .cloned()
        .collect();
    let mut course = ReplaceCourse::begin(run);
    let found = Collected {
        count: paths.len(),
        unreachable: nothing_unreachable(),
    };
    let mut action = course.collected(Ok(found), &cost, &no_more);
    let mut committing = false;
    loop {
        action = match action {
            ReplaceAction::Open(index) => {
                assert!(!committing);
                let opened = candidate(files, &paths[index], &course.run);
                course.opened(opened, &cost, &no_more)
            }
            ReplaceAction::Commit(index) => {
                if !committing {
                    before_commit(files);
                    committing = true;
                }
                let outcome = commit(files, &course.run, index);
                course.committed(outcome, &cost, &no_more)
            }
            ReplaceAction::Respond(response) => return response,
        };
    }
}

fn commit(files: &mut Files, run: &ReplaceRun, index: usize) -> Result<usize, String> {
    let path = run.analyzed[index].path.clone();
    let label = run.reopen_encoding(index).map(str::to_string);
    let reopened = open_file(files, &path, label.as_deref());
    let current = identity(files, &path);
    match run.commit_step(index, &reopened, &Ok(current)) {
        CommitStep::Failed(message) => Err(message),
        CommitStep::Unchanged(matches) => Ok(matches),
        CommitStep::Write { bytes, matches } => {
            let inode = files[&path].0;
            for file in files.values_mut().filter(|file| file.0 == inode) {
                file.1 = bytes.clone();
            }
            Ok(matches)
        }
    }
}

fn tree(entries: &[(&str, u64, &[u8])]) -> Files {
    entries
        .iter()
        .map(|(path, inode, bytes)| (path.to_string(), (*inode, bytes.to_vec())))
        .collect()
}

#[test]
fn replace_cas_rejects_external_changes() {
    let mut files = tree(&[("/replace.txt", 1, b"old")]);
    let response = replace(
        &mut files,
        request("/replace.txt", "old", "new"),
        4000,
        &|files| files.get_mut("/replace.txt").unwrap().1 = b"external replace".to_vec(),
    );
    assert!(!response.is_error);
    assert!(response_text(&response).contains("changed on disk during the edit"));
    assert!(
        response_text(&response).starts_with(
            "=== replace (0 replacements in 0 files; 1 file failed — see report) ==="
        ),
        "{}",
        response_text(&response)
    );
    assert_eq!(files["/replace.txt"].1, b"external replace");
}

#[test]
fn candidate_set_is_frozen_before_the_first_replace_write() {
    let mut files = tree(&[
        ("/tree/a.txt", 1, b"hit\n"),
        ("/tree/b.txt", 2, b"hit\n"),
        ("/tree/.gitignore", 3, b""),
    ]);
    let response = replace(&mut files, request("/tree", "hit", "done"), 4000, &|files| {
        files.get_mut("/tree/.gitignore").unwrap().1 = b"*.txt\n".to_vec();
    });
    assert!(!response.is_error, "{}", response_text(&response));
    assert_eq!(files["/tree/a.txt"].1, b"done\n");
    assert_eq!(files["/tree/b.txt"].1, b"done\n");
}

#[test]
fn files_that_come_later_are_no_candidates() {
    let mut files = tree(&[("/tree/a.txt", 1, b"hit\n"), ("/tree/b.txt", 2, b"hit\n")]);
    let response = replace(&mut files, request("/tree", "hit", "done"), 4000, &|files| {
        files.insert("/tree/c.txt".to_string(), (3, b"hit\n".to_vec()));
    });
    assert!(!response.is_error, "{}", response_text(&response));
    assert_eq!(files["/tree/a.txt"].1, b"done\n");
    assert_eq!(files["/tree/b.txt"].1, b"done\n");
    assert_eq!(files["/tree/c.txt"].1, b"hit\n");
}

#[test]
fn replace_recognizes_symlink_aliases_as_one_target_identity() {
    let mut files = tree(&[
        ("/tree/alias.txt", 7, b"hit\n"),
        ("/tree/target.txt", 7, b"hit\n"),
    ]);
    let response = replace(&mut files, request("/tree", "hit", "done"), 4000, &|_| {});
    assert!(!response.is_error, "{}", response_text(&response));
    assert!(
        response_text(&response).starts_with("=== replace (1 replacement in 1 file) ==="),
        "{}",
        response_text(&response)
    );
    assert_eq!(files["/tree/target.txt"].1, b"done\n");
    assert_eq!(files["/tree/alias.txt"].0, files["/tree/target.txt"].0);
}

#[test]
fn a_dry_run_shows_and_writes_nothing() {
    let mut files = tree(&[("/tree/a.txt", 1, b"hit\n")]);
    let mut dry = request("/tree", "hit", "done");
    dry.dry_run = Some(true);
    let response = replace(&mut files, dry, 4000, &|_| {});
    assert!(!response.is_error);
    assert!(response_text(&response).contains("/tree/a.txt"));
    assert!(response_text(&response).contains("done"));
    assert_eq!(files["/tree/a.txt"].1, b"hit\n");
}

#[test]
fn too_many_replacements_and_empty_matches_are_refused() {
    let mut files = tree(&[("/tree/a.txt", 1, b"hit hit\n")]);
    let mut few = request("/tree", "hit", "done");
    few.max_replacements = Some(1);
    let response = replace(&mut files, few, 4000, &|_| {});
    assert!(response.is_error);
    assert_eq!(files["/tree/a.txt"].1, b"hit hit\n");
    let response = replace(&mut files, request("/tree", "x*", "y"), 4000, &|_| {});
    assert!(response.is_error);
    let response = replace(&mut files, request("/tree", "hit", "$9"), 4000, &|_| {});
    assert!(response.is_error);
}

#[test]
fn binary_and_undecodable_files_are_skipped() {
    let mut files = tree(&[
        ("/tree/a.txt", 1, b"hit\n"),
        ("/tree/b.bin", 2, b"hit\0"),
        ("/tree/c.txt", 3, b"hit \xE9"),
    ]);
    let response = replace(&mut files, request("/tree", "hit", "done"), 4000, &|_| {});
    assert!(!response.is_error);
    assert_eq!(files["/tree/a.txt"].1, b"done\n");
    assert_eq!(files["/tree/b.bin"].1, b"hit\0");
    assert_eq!(files["/tree/c.txt"].1, b"hit \xE9");
    let mut fallback = request("/tree", "hit", "done");
    fallback.fallback_encoding = Some("windows-1252".to_string());
    let response = replace(&mut files, fallback, 4000, &|_| {});
    assert!(!response.is_error);
    assert_eq!(files["/tree/c.txt"].1, b"done \xE9");
}

#[test]
fn a_service_shares_one_lock_per_file() {
    let mut service = ReplaceService::new();
    let identity = PathIdentity::unix(1, 2);
    let lock = service.acquire(&identity);
    assert_eq!(service.acquire(&identity), lock);
    service.release(&identity);
    let refused = service.replace_with_limit(
        request("/tree", "hit", "done"),
        DEFAULT_REPLACE_FILE_LIMIT_MIB,
        Err("Bad budget.".to_string()),
        Err("gone".to_string()),
    );
    assert!(refused.err().unwrap().is_error);
}

fn started(replace: ReplaceRequest) -> ReplaceCourse {
    let root = RootFacts {
        display: "/tree".to_string(),
        is_file: false,
    };
    let run = ReplaceService::new().replace(replace, Ok(4000), Ok(root));
    ReplaceCourse::begin(run.ok().unwrap())
}

fn answer(action: ReplaceAction) -> ToolResponse {
    match action {
        ReplaceAction::Respond(response) => response,
        _ => panic!("a response was due"),
    }
}

#[test]
fn a_course_ends_with_a_failed_walk_too_many_or_no_candidates() {
    let mut course = started(request("/tree", "hit", "done"));
    let action = course.collected(Err("no walk".to_string()), &cost, &no_more);
    let response = answer(action);
    assert!(response.is_error);
    assert_eq!(response_text(&response), "no walk");

    let mut course = started(request("/tree", "hit", "done"));
    let many = Collected {
        count: 10_001,
        unreachable: nothing_unreachable(),
    };
    let response = answer(course.collected(Ok(many), &cost, &no_more));
    assert!(response.is_error);
    assert_eq!(
        response_text(&response),
        "Too many candidate files: over 10000 matched. Narrow the path or glob."
    );

    let mut course = started(request("/tree", "hit", "done"));
    let none = Collected {
        count: 0,
        unreachable: nothing_unreachable(),
    };
    let response = answer(course.collected(Ok(none), &cost, &no_more));
    assert!(!response.is_error);
    assert_eq!(
        response_text(&response),
        "=== replace (0 replacements in 0 files; nothing written) ==="
    );
}

#[test]
fn both_passes_come_to_one_length() {
    for (raw, pattern, template) in [
        ("one\r\ntwo\r\n", "two", ""),
        ("one\r\ntwo\r\n", "two\n", ""),
        ("one\r\ntwo\nthree", "three", "3\n"),
        ("a\nb\r\nc", "\nb\nc", "\n"),
        ("a\nb", "b", "bb"),
        ("", "x", "y"),
    ] {
        let document = document(raw.as_bytes());
        let regex = regex(pattern);
        let matches = regex.matches(document.logical_text(), template);
        let (kept, kept_count) = process_matches(&document, &matches, 1, true).unwrap();
        let (counted, count) = process_matches(&document, &matches, 1, false).unwrap();
        assert_eq!(kept_count, count, "{raw:?}");
        assert_eq!(kept.len(), counted.len(), "{raw:?}");
        assert_eq!(counted.into_bytes(), None);
        let length = kept.len();
        assert_eq!(kept.into_bytes().unwrap().len(), length, "{raw:?}");
    }
    let document = document(b"ab");
    let matches = regex("a").matches(document.logical_text(), &"x".repeat(1 << 20));
    let refused = process_matches(&document, &matches, 1, false).err();
    assert!(refused.is_some());
    assert_eq!(process_matches(&document, &matches, 1, true).err(), refused);
}

#[test]
fn requests_can_be_copied_and_a_default_service_holds_no_lock() {
    let original = request("/tree", "a", "b");
    let copy = original.clone();
    assert_eq!(copy.pattern, original.pattern);
    assert_eq!(copy.path, original.path);
    let mut service = ReplaceService::default();
    let lock = service.acquire(&PathIdentity::unix(1, 2));
    assert_eq!(service.acquire(&PathIdentity::unix(1, 2)), lock);
}

#[test]
fn a_draft_is_only_finished_by_the_bytes_it_was_made_of() {
    let draft = || DocumentDraft::begin("/doc.txt".to_string(), b"one\r\ntwo".to_vec(), None);
    let document = draft().unwrap().finish(b"one\r\ntwo").unwrap();
    assert_eq!(document.logical_text(), "one\ntwo");
    assert_eq!(
        draft().unwrap().finish(b"one\r\nTWO").unwrap_err(),
        concurrent_message("/doc.txt")
    );
    let binary = DocumentDraft::begin("/doc.bin".to_string(), b"a\0b".to_vec(), None).err();
    assert!(is_binary_error(&binary.unwrap()));
}
