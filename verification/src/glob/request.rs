//! What a glob can be asked for.

use crate::text;
use crate::text::{decimal_text, same_text};
use vstd::prelude::*;
use vstd::string::*;

verus! {

/// How many files a page has when the request does not say.
pub const DEFAULT_LIMIT: usize = 100;

/// How many files a page can have.
pub const MAX_LIMIT: usize = 1000;

/// How many files may match.
pub const MAX_RESULTS: usize = 100000;

/// Which ignore files a walk respects.
#[derive(Clone, Copy, Debug, PartialEq, Eq, Structural)]
pub enum FilterMode {
    /// Plain `.ignore` files.
    Ignore,
    /// None.
    All,
}

impl Default for FilterMode {
    /// Plain `.ignore` files.
    fn default() -> (mode: Self)
        ensures
            mode == FilterMode::Ignore,
    {
        FilterMode::Ignore
    }
}

/// How a walk is set up. It never applies standard filters, follows no links, and shows hidden
/// files.
#[derive(Clone, Copy, Debug, PartialEq, Eq, Structural)]
pub struct WalkSettings {
    /// Respect ignore files of parent directories.
    pub parents: bool,
    /// Respect plain `.ignore` files.
    pub ignore: bool,
}

impl FilterMode {
    /// The mode of a name; `project` is an older name of `ignore`.
    pub open spec fn named(name: Seq<char>) -> Option<FilterMode> {
        if name == "ignore"@ || name == "project"@ {
            Some(FilterMode::Ignore)
        } else if name == "all"@ {
            Some(FilterMode::All)
        } else {
            None
        }
    }

    /// The mode of a name.
    pub fn parse(name: &str) -> (mode: Option<Self>)
        ensures
            mode == FilterMode::named(name@),
    {
        if same_text(name, "ignore") || same_text(name, "project") {
            Some(FilterMode::Ignore)
        } else if same_text(name, "all") {
            Some(FilterMode::All)
        } else {
            None
        }
    }

    /// How a walk is set up: no source of Git ignores in either mode.
    pub fn settings(self) -> (settings: WalkSettings)
        ensures
            settings.parents == (self == FilterMode::Ignore),
            settings.ignore == (self == FilterMode::Ignore),
    {
        match self {
            FilterMode::Ignore => WalkSettings { parents: true, ignore: true },
            FilterMode::All => WalkSettings { parents: false, ignore: false },
        }
    }
}

/// The order of files.
#[derive(Clone, Copy, Debug, PartialEq, Eq, Structural)]
pub enum SortMode {
    /// By the bytes of their paths.
    Path,
    /// The latest modified first, then by the bytes of their paths.
    Modified,
}

impl Default for SortMode {
    /// By path.
    fn default() -> (mode: Self)
        ensures
            mode == SortMode::Path,
    {
        SortMode::Path
    }
}

/// What is shown of a file.
#[derive(Clone, Copy, Debug, PartialEq, Eq, Structural)]
pub enum GlobOutputMode {
    /// Its path.
    Paths,
    /// Path, size and time of modification as one JSON object.
    Details,
}

impl Default for GlobOutputMode {
    /// Paths.
    fn default() -> (mode: Self)
        ensures
            mode == GlobOutputMode::Paths,
    {
        GlobOutputMode::Paths
    }
}

/// What a glob asks for.
#[derive(Clone, Debug)]
pub struct GlobRequest {
    /// Patterns; one with a leading `!` excludes and always wins.
    pub pattern: Vec<String>,
    /// The directory to search; the working directory when omitted.
    pub path: Option<String>,
    pub filter_mode: Option<FilterMode>,
    pub sort: Option<SortMode>,
    pub output_mode: Option<GlobOutputMode>,
    /// How many files to leave out first.
    pub offset: Option<usize>,
    /// How many files a page has at most.
    pub limit: Option<usize>,
}

/// The message for patterns that do not compile.
pub fn glob_error(error: &str) -> (message: String)
    ensures
        message@ == "Invalid glob pattern: "@ + error@
            + ". Use forms like \"**/*.rs\" or \"src/**/*.ts\"."@,
{
    let mut message = "Invalid glob pattern: ".to_owned();
    message.append(error);
    message.append(". Use forms like \"**/*.rs\" or \"src/**/*.ts\".");
    message
}

/// The message for a walk that matches too many files.
pub fn too_many_matches() -> (message: String)
    ensures
        message@
            == "Too many matches: over 100000 files matched. Narrow the pattern or path."@,
{
    "Too many matches: over 100000 files matched. Narrow the pattern or path.".to_owned()
}

/// How many files a page has at most, or the message for a number out of range.
pub fn checked_limit(limit: Option<usize>) -> (result: Result<usize, String>)
    ensures
        match result {
            Ok(checked) => 1 <= checked <= MAX_LIMIT && checked == match limit {
                Some(limit) => limit,
                None => DEFAULT_LIMIT,
            },
            Err(message) => {
                &&& limit matches Some(limit)
                &&& !(1 <= limit <= MAX_LIMIT)
                &&& message@ == "Invalid limit value: "@ + text::decimal(limit as nat)
                    + ". Expected an integer from 1 to 1000."@
            },
        },
{
    let value = match limit {
        Some(limit) => limit,
        None => DEFAULT_LIMIT,
    };
    if value < 1 || value > MAX_LIMIT {
        let mut message = "Invalid limit value: ".to_owned();
        message.append(decimal_text(value as u64).as_str());
        message.append(". Expected an integer from 1 to 1000.");
        return Err(message);
    }
    Ok(value)
}

} // verus!
