//! From a request to a search: checking what it asks for, and compiling its pattern.

use crate::encoding::detect;
use crate::encoding::detect::canonical_encoding_label;
use crate::encoding::rejection;
use crate::encoding::rejection::RejectionSpec;
use crate::grep::matcher;
use crate::grep::matcher::{GrepMatcher, MatcherSpec};
use crate::grep::plan;
use crate::grep::plan::{
    effective_head_limit, plan_search, requested_context, GrepRequest, OutputMode,
    DEFAULT_HEAD_LIMIT,
};
use crate::grep::reduce::PageRules;
use crate::model::ToolResponse;
use crate::text::{chars_of, string_of};
use vstd::prelude::*;
use vstd::string::*;

verus! {

/// Matches a line end, with or without a carriage return.
pub open spec fn line_end_pattern() -> Seq<char> {
    seq!['\\', 'r', '?', '\\', 'n']
}

/// A pattern in which every line feed, written as such or as `\n`, also matches `\r\n`. An escaped
/// backslash stands for itself.
pub open spec fn multiline_pattern(pattern: Seq<char>) -> Seq<char>
    decreases pattern.len(),
{
    if pattern.len() == 0 {
        Seq::empty()
    } else if pattern[0] == '\n' {
        line_end_pattern() + multiline_pattern(pattern.skip(1))
    } else if pattern[0] == '\\' && pattern.len() > 1 && pattern[1] == '\\' {
        seq!['\\', '\\'] + multiline_pattern(pattern.skip(2))
    } else if pattern[0] == '\\' && pattern.len() > 1 && pattern[1] == 'n' {
        line_end_pattern() + multiline_pattern(pattern.skip(2))
    } else {
        seq![pattern[0]] + multiline_pattern(pattern.skip(1))
    }
}

fn push_line_end(output: &mut Vec<char>)
    ensures
        final(output)@ == old(output)@ + line_end_pattern(),
{
    output.push('\\');
    output.push('r');
    output.push('?');
    output.push('\\');
    output.push('n');
    assert(output@ =~= old(output)@ + line_end_pattern());
}

/// Lets every line feed of a pattern also match `\r\n`.
pub fn normalize_multiline_pattern(pattern: &str) -> (normalized: String)
    ensures
        normalized@ == multiline_pattern(pattern@),
{
    let chars = chars_of(pattern);
    let mut output: Vec<char> = Vec::new();
    let mut index: usize = 0;
    assert(chars@.skip(0) =~= chars@);
    while index < chars.len()
        invariant
            index <= chars.len(),
            output@ + multiline_pattern(chars@.skip(index as int)) == multiline_pattern(chars@),
        decreases chars.len() - index,
    {
        let ghost rest = chars@.skip(index as int);
        let ghost before = output@;
        proof {
            assert(rest.skip(1) =~= chars@.skip(index + 1));
            if rest.len() > 1 {
                assert(rest.skip(2) =~= chars@.skip(index + 2));
                assert(rest[1] == chars@[index + 1]);
            }
            assert(rest[0] == chars@[index as int]);
        }
        let character = chars[index];
        if character == '\n' {
            push_line_end(&mut output);
            index += 1;
            assert(output@ + multiline_pattern(rest.skip(1)) =~= before + multiline_pattern(rest));
        } else if character == '\\' && chars.len() - index > 1 && chars[index + 1] == '\\' {
            output.push('\\');
            output.push('\\');
            index += 2;
            assert(output@ + multiline_pattern(rest.skip(2)) =~= before + multiline_pattern(rest));
        } else if character == '\\' && chars.len() - index > 1 && chars[index + 1] == 'n' {
            push_line_end(&mut output);
            index += 2;
            assert(output@ + multiline_pattern(rest.skip(2)) =~= before + multiline_pattern(rest));
        } else {
            output.push(character);
            index += 1;
            assert(output@ + multiline_pattern(rest.skip(1)) =~= before + multiline_pattern(rest));
        }
    }
    assert(output@ =~= output@ + multiline_pattern(chars@.skip(index as int)));
    string_of(output.as_slice())
}

/// Where a search begins.
#[derive(Debug)]
pub struct SearchRoot {
    pub display: String,
    pub is_file: bool,
}

/// A search that is ready to run.
pub struct GrepJob {
    pub matcher: GrepMatcher,
    pub rules: PageRules,
    pub offset: usize,
    /// How many entries are shown at most.
    pub head_limit: usize,
    /// The canonical name of the fallback encoding.
    pub fallback_label: Option<&'static str>,
}

/// The pattern that is compiled.
pub open spec fn compiled_pattern(request: GrepRequest) -> Seq<char> {
    if plan::or_else(request.multiline, false) {
        multiline_pattern(request.pattern@)
    } else {
        request.pattern@
    }
}

/// The message for a label that selects no encoding; `None` for a usable one.
pub open spec fn label_error(label: Option<String>, display: Seq<char>) -> Option<Seq<char>> {
    match label {
        None => None,
        Some(label) => if detect::explicit_charset(label@) is Some {
            None
        } else {
            Some(rejection::rejection_message(RejectionSpec::InvalidLabel(label@), display))
        },
    }
}

/// The message with which a request is refused; `None` for one that can be run.
pub open spec fn request_error(
    request: GrepRequest,
    root: Result<SearchRoot, String>,
    glob: Result<(), String>,
) -> Option<Seq<char>> {
    match root {
        Err(message) => Some(message@),
        Ok(root) => {
            let pattern_error = matcher::matcher_rejection(
                compiled_pattern(request),
                plan::or_else(request.case_insensitive, false),
                plan::or_else(request.multiline, false),
            );
            if root.is_file && request.fallback_encoding is Some {
                Some(
                    "The fallback_encoding parameter only applies to directory targets; use encoding for a single file."@,
                )
            } else if !root.is_file && request.encoding is Some {
                Some(
                    "The encoding parameter only applies to single-file targets; use fallback_encoding for a directory."@,
                )
            } else if label_error(request.encoding, root.display@) is Some {
                label_error(request.encoding, root.display@)
            } else if label_error(request.fallback_encoding, root.display@) is Some {
                label_error(request.fallback_encoding, root.display@)
            } else if pattern_error is Some {
                Some(
                    "Invalid regex pattern: "@ + pattern_error->Some_0
                        + "\nNote: Rust regex syntax — no lookaround or backreferences; escape literal braces."@,
                )
            } else {
                match glob {
                    Err(error) => Some(
                        "Invalid glob pattern: "@ + error@
                            + ". Use forms like \"*.rs\" or \"**/*.{ts,tsx}\"."@,
                    ),
                    Ok(()) => None,
                }
            }
        },
    }
}

/// The rules of the page that a request asks for.
pub open spec fn page_rules(
    request: GrepRequest,
    is_file: bool,
    budget: usize,
    capture_limit: usize,
) -> PageRules {
    let mode = plan::or_else(request.output_mode, OutputMode::FilesWithMatches);
    let shown = plan::shown_limit(
        plan::or_else(request.head_limit, DEFAULT_HEAD_LIMIT),
        budget,
    );
    PageRules {
        mode,
        single_file: is_file,
        plan: plan::worker_plan(
            mode,
            plan::or_else(request.only_matching, false),
            plan::or_else(request.multiline, false),
            plan::context_of(request),
            plan::or_else(request.offset, 0),
            plan::sat(shown, 1),
            capture_limit,
        ),
        probe_limit: plan::sat(shown, 1),
    }
}

fn flag(value: Option<bool>) -> (set: bool)
    ensures
        set == plan::or_else(value, false),
{
    match value {
        Some(set) => set,
        None => false,
    }
}

fn refuse(message: &str) -> (result: Result<GrepJob, ToolResponse>)
    ensures
        result matches Err(response) && response.is_error && response.is_single_text(message@),
{
    Err(ToolResponse::error(message.to_owned()))
}

/// Prepares the search that a request asks for. `root` is where it begins, or why there is no such
/// place; `glob` tells whether its file filter compiles, with the words of the error.
pub fn prepare(
    request: &GrepRequest,
    root: &Result<SearchRoot, String>,
    glob: &Result<(), String>,
    budget: usize,
    capture_limit: usize,
) -> (result: Result<GrepJob, ToolResponse>)
    ensures
        match request_error(*request, *root, *glob) {
            Some(message) => result matches Err(response) && response.is_error
                && response.is_single_text(message),
            None => {
                &&& result matches Ok(job)
                &&& job.matcher.wf()
                &&& job.matcher.source() == (MatcherSpec {
                    pattern: compiled_pattern(*request),
                    case_insensitive: plan::or_else(request.case_insensitive, false),
                    multiline: plan::or_else(request.multiline, false),
                })
                &&& job.rules == page_rules(*request, root->Ok_0.is_file, budget, capture_limit)
                &&& job.offset == plan::or_else(request.offset, 0)
                &&& job.head_limit == plan::shown_limit(
                    plan::or_else(request.head_limit, DEFAULT_HEAD_LIMIT),
                    budget,
                )
                &&& match request.fallback_encoding {
                    None => job.fallback_label is None,
                    Some(label) => job.fallback_label matches Some(name) && Some(name@) == (
                    match detect::explicit_charset(label@) {
                        Some(charset) => Some(charset.name()),
                        None => None,
                    }),
                }
            },
        },
{
    let root = match root {
        Ok(root) => root,
        Err(message) => {
            return refuse(message.as_str());
        },
    };
    if root.is_file && request.fallback_encoding.is_some() {
        return refuse(
            "The fallback_encoding parameter only applies to directory targets; use encoding for a single file.",
        );
    }
    if !root.is_file && request.encoding.is_some() {
        return refuse(
            "The encoding parameter only applies to single-file targets; use fallback_encoding for a directory.",
        );
    }
    if let Some(label) = &request.encoding {
        if let Err(rejection) = canonical_encoding_label(label.as_str()) {
            let message = rejection.message(root.display.as_str());
            return refuse(message.as_str());
        }
    }
    let fallback_label = match &request.fallback_encoding {
        Some(label) => match canonical_encoding_label(label.as_str()) {
            Ok(name) => Some(name),
            Err(rejection) => {
                let message = rejection.message(root.display.as_str());
                return refuse(message.as_str());
            },
        },
        None => None,
    };
    let multiline = flag(request.multiline);
    let pattern = if multiline {
        normalize_multiline_pattern(request.pattern.as_str())
    } else {
        request.pattern.as_str().to_owned()
    };
    let matcher = match GrepMatcher::build(
        pattern.as_str(),
        flag(request.case_insensitive),
        multiline,
    ) {
        Ok(matcher) => matcher,
        Err(error) => {
            let mut message = "Invalid regex pattern: ".to_owned();
            message.append(error.as_str());
            message.append(
                "\nNote: Rust regex syntax — no lookaround or backreferences; escape literal braces.",
            );
            return refuse(message.as_str());
        },
    };
    if let Err(error) = glob {
        let mut message = "Invalid glob pattern: ".to_owned();
        message.append(error.as_str());
        message.append(". Use forms like \"*.rs\" or \"**/*.{ts,tsx}\".");
        return refuse(message.as_str());
    }
    let offset = match request.offset {
        Some(offset) => offset,
        None => 0,
    };
    let asked = match request.head_limit {
        Some(limit) => limit,
        None => DEFAULT_HEAD_LIMIT,
    };
    let mode = match request.output_mode {
        Some(mode) => mode,
        None => OutputMode::FilesWithMatches,
    };
    let head_limit = effective_head_limit(asked, budget);
    let probe_limit = head_limit.saturating_add(1);
    let plan = plan_search(
        mode,
        flag(request.only_matching),
        multiline,
        requested_context(request),
        offset,
        probe_limit,
        capture_limit,
    );
    let rules = PageRules { mode, single_file: root.is_file, plan, probe_limit };
    Ok(GrepJob { matcher, rules, offset, head_limit, fallback_label })
}

} // verus!
