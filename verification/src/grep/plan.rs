//! What a search has to find out, and how much of it is kept.

use vstd::prelude::*;

verus! {

/// What to capture for showing matches.
#[derive(Clone, Copy, Debug, PartialEq, Eq, Structural)]
pub struct ContentSpec {
    pub multiline: bool,
    pub skip_entries: usize,
    pub max_selected_entries: Option<usize>,
    pub capture_match_text: bool,
    pub before_context: usize,
    pub after_context: usize,
    pub capture_heap_limit_bytes: usize,
}

/// The least search work that an output mode needs.
#[derive(Clone, Copy, Debug, PartialEq, Eq, Structural)]
pub enum GrepSearchPlan {
    /// Whether there is a match.
    Exists,
    /// How many occurrences there are.
    Count,
    /// The matching lines.
    ContentLine(ContentSpec),
    /// Every single occurrence.
    ContentOccurrence(ContentSpec),
}

impl GrepSearchPlan {
    /// What the plan captures.
    pub open spec fn captured(self) -> Option<ContentSpec> {
        match self {
            GrepSearchPlan::Exists | GrepSearchPlan::Count => None,
            GrepSearchPlan::ContentLine(spec) => Some(spec),
            GrepSearchPlan::ContentOccurrence(spec) => Some(spec),
        }
    }

    fn content(self) -> (spec: Option<ContentSpec>)
        ensures
            spec == self.captured(),
    {
        match self {
            GrepSearchPlan::Exists | GrepSearchPlan::Count => None,
            GrepSearchPlan::ContentLine(spec) => Some(spec),
            GrepSearchPlan::ContentOccurrence(spec) => Some(spec),
        }
    }

    /// Whether matches may span lines; `None` for a plan without content.
    pub fn content_multiline(self) -> (multiline: Option<bool>)
        ensures
            multiline == match self.captured() {
                Some(spec) => Some(spec.multiline),
                None => None,
            },
    {
        match self.content() {
            Some(spec) => Some(spec.multiline),
            None => None,
        }
    }

    /// How many lines before a match are kept.
    pub open spec fn before(self) -> usize {
        match self.captured() {
            Some(spec) => spec.before_context,
            None => 0,
        }
    }

    /// How many lines after a match are kept.
    pub open spec fn after(self) -> usize {
        match self.captured() {
            Some(spec) => spec.after_context,
            None => 0,
        }
    }

    /// How many lines before a match are kept.
    pub fn before_context(self) -> (lines: usize)
        ensures
            lines == self.before(),
    {
        match self.content() {
            Some(spec) => spec.before_context,
            None => 0,
        }
    }

    /// How many lines after a match are kept.
    pub fn after_context(self) -> (lines: usize)
        ensures
            lines == self.after(),
    {
        match self.content() {
            Some(spec) => spec.after_context,
            None => 0,
        }
    }

    /// The plan with another window of entries; a plan without content has none.
    pub open spec fn windowed(self, skip: usize, limit: Option<usize>) -> Self {
        match self {
            GrepSearchPlan::Exists | GrepSearchPlan::Count => self,
            GrepSearchPlan::ContentLine(spec) => GrepSearchPlan::ContentLine(
                ContentSpec { skip_entries: skip, max_selected_entries: limit, ..spec },
            ),
            GrepSearchPlan::ContentOccurrence(spec) => GrepSearchPlan::ContentOccurrence(
                ContentSpec { skip_entries: skip, max_selected_entries: limit, ..spec },
            ),
        }
    }

    /// The plan with another window of entries.
    pub fn with_content_window(
        self,
        skip_entries: usize,
        max_selected_entries: Option<usize>,
    ) -> (plan: Self)
        ensures
            plan == self.windowed(skip_entries, max_selected_entries),
    {
        match self {
            GrepSearchPlan::ContentLine(spec) => GrepSearchPlan::ContentLine(
                ContentSpec { skip_entries, max_selected_entries, ..spec },
            ),
            GrepSearchPlan::ContentOccurrence(spec) => GrepSearchPlan::ContentOccurrence(
                ContentSpec { skip_entries, max_selected_entries, ..spec },
            ),
            _ => self,
        }
    }
}

/// The output modes.
#[derive(Clone, Copy, Debug, PartialEq, Eq, Structural)]
pub enum OutputMode {
    /// Matching lines with optional context.
    Content,
    /// Only the paths of files with at least one match.
    FilesWithMatches,
    /// Counts of occurrences per file.
    Count,
    /// Only the totals of a full scan.
    Summary,
}

impl Default for OutputMode {
    /// Paths only.
    fn default() -> (mode: Self)
        ensures
            mode == OutputMode::FilesWithMatches,
    {
        OutputMode::FilesWithMatches
    }
}

/// What a grep asks for.
#[derive(Clone, Debug)]
pub struct GrepRequest {
    /// The regular expression.
    pub pattern: String,
    /// The file or directory to search; the working directory when omitted.
    pub path: Option<String>,
    /// Which files to search, by name.
    pub glob: Option<Vec<String>>,
    /// Which files to search, by type.
    pub file_type: Option<String>,
    pub output_mode: Option<OutputMode>,
    pub case_insensitive: Option<bool>,
    pub line_numbers: Option<bool>,
    /// Show only the matched parts, each in a line of its own.
    pub only_matching: Option<bool>,
    pub before_context: Option<usize>,
    pub after_context: Option<usize>,
    /// Lines before and after each match; goes before the two above.
    pub context: Option<usize>,
    /// Let patterns span lines.
    pub multiline: Option<bool>,
    /// How many entries to show at most; 0 for no such limit.
    pub head_limit: Option<usize>,
    /// How many entries to leave out first.
    pub offset: Option<usize>,
    /// The encoding of a single file.
    pub encoding: Option<String>,
    /// The encoding of files whose own cannot be told.
    pub fallback_encoding: Option<String>,
}

/// How many entries are shown when the request does not say.
pub const DEFAULT_HEAD_LIMIT: usize = 250;

/// How much a searcher may buffer.
pub const SEARCH_HEAP_LIMIT_BYTES: usize = 67108864;

/// How much captured matches and context may take.
pub const CAPTURE_HEAP_LIMIT_BYTES: usize = 67108864;

/// The value of an option, or another value.
pub open spec fn or_else<T>(value: Option<T>, other: T) -> T {
    match value {
        Some(value) => value,
        None => other,
    }
}

/// A sum that stops at the greatest number.
pub open spec fn sat(left: usize, right: usize) -> usize {
    if left + right > usize::MAX {
        usize::MAX
    } else {
        (left + right) as usize
    }
}

/// The lines of context that a request asks for, before and after.
pub open spec fn context_of(request: GrepRequest) -> (usize, usize) {
    match request.context {
        Some(context) => (context, context),
        None => (or_else(request.before_context, 0), or_else(request.after_context, 0)),
    }
}

/// The lines of context that a request asks for, before and after.
pub fn requested_context(request: &GrepRequest) -> (context: (usize, usize))
    ensures
        context == context_of(*request),
{
    match request.context {
        Some(context) => (context, context),
        None => {
            let before = match request.before_context {
                Some(before) => before,
                None => 0,
            };
            let after = match request.after_context {
                Some(after) => after,
                None => 0,
            };
            (before, after)
        },
    }
}

/// How many entries can be worth showing under a budget: no entry takes less than a quarter of
/// a token.
pub open spec fn entry_limit(budget: usize) -> usize {
    if budget * 4 >= usize::MAX {
        usize::MAX
    } else {
        (budget * 4 + 1) as usize
    }
}

/// How many entries are shown at most.
pub open spec fn shown_limit(head_limit: usize, budget: usize) -> usize {
    if head_limit == 0 || head_limit > entry_limit(budget) {
        entry_limit(budget)
    } else {
        head_limit
    }
}

/// How many entries are shown at most.
pub fn effective_head_limit(head_limit: usize, budget: usize) -> (limit: usize)
    ensures
        limit == shown_limit(head_limit, budget),
        limit >= 1,
{
    let entries: usize = if budget > (usize::MAX - 1) / 4 {
        usize::MAX
    } else {
        budget * 4 + 1
    };
    if head_limit == 0 || head_limit > entries {
        entries
    } else {
        head_limit
    }
}

/// The plan that every file is searched with: content is captured from the first entry on, as
/// many as the page can need at most.
pub open spec fn worker_plan(
    mode: OutputMode,
    only_matching: bool,
    multiline: bool,
    context: (usize, usize),
    offset: usize,
    probe_limit: usize,
    capture_limit: usize,
) -> GrepSearchPlan {
    match mode {
        OutputMode::FilesWithMatches => GrepSearchPlan::Exists,
        OutputMode::Count | OutputMode::Summary => GrepSearchPlan::Count,
        OutputMode::Content => {
            let spec = ContentSpec {
                multiline,
                skip_entries: 0,
                max_selected_entries: Some(sat(offset, probe_limit)),
                capture_match_text: only_matching,
                before_context: context.0,
                after_context: context.1,
                capture_heap_limit_bytes: capture_limit,
            };
            if only_matching || multiline {
                GrepSearchPlan::ContentOccurrence(spec)
            } else {
                GrepSearchPlan::ContentLine(spec)
            }
        },
    }
}

/// The plan that every file is searched with.
pub fn plan_search(
    mode: OutputMode,
    only_matching: bool,
    multiline: bool,
    context: (usize, usize),
    offset: usize,
    probe_limit: usize,
    capture_limit: usize,
) -> (plan: GrepSearchPlan)
    ensures
        plan == worker_plan(
            mode,
            only_matching,
            multiline,
            context,
            offset,
            probe_limit,
            capture_limit,
        ),
{
    match mode {
        OutputMode::FilesWithMatches => GrepSearchPlan::Exists,
        OutputMode::Count | OutputMode::Summary => GrepSearchPlan::Count,
        OutputMode::Content => {
            let spec = ContentSpec {
                multiline,
                skip_entries: 0,
                max_selected_entries: Some(offset.saturating_add(probe_limit)),
                capture_match_text: only_matching,
                before_context: context.0,
                after_context: context.1,
                capture_heap_limit_bytes: capture_limit,
            };
            if only_matching || multiline {
                GrepSearchPlan::ContentOccurrence(spec)
            } else {
                GrepSearchPlan::ContentLine(spec)
            }
        },
    }
}

} // verus!
