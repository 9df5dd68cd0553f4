//! User-private storage: which directories are managed, and the steps that make each of them
//! private before anything below it is created.

use crate::text;
use crate::text::{decimal_text, same_bytes};
use vstd::prelude::*;
use vstd::slice::slice_to_vec;
use vstd::string::*;
use vstd::utf8::*;

verus! {

/// The platform whose rules names and directories follow.
#[derive(Clone, Copy, Debug, PartialEq, Eq, Structural)]
pub enum StoragePlatform {
    Unix,
    Windows,
}

/// One component of a path.
#[derive(Clone, Copy, Debug, PartialEq, Eq, Structural)]
pub enum ComponentKind {
    Prefix,
    Root,
    Current,
    Parent,
    Normal,
}

/// Whether a path is absolute and free of `.` and `..`.
pub open spec fn is_normalized(is_absolute: bool, components: Seq<ComponentKind>) -> bool {
    is_absolute && forall|i: int|
        0 <= i < components.len() ==> (#[trigger] components[i]) != ComponentKind::Current
            && components[i] != ComponentKind::Parent
}

/// Checks the path of a private directory.
pub fn validate_private_directory_path(
    path: &str,
    is_absolute: bool,
    components: &Vec<ComponentKind>,
    label: &str,
) -> (result: Result<(), String>)
    ensures
        match result {
            Ok(()) => is_normalized(is_absolute, components@),
            Err(message) => {
                &&& !is_normalized(is_absolute, components@)
                &&& message@ == "Cannot use the "@ + label@ + " directory "@ + path@
                    + " because its path is not an absolute, normalized path."@
            },
        },
{
    let mut normalized = is_absolute;
    let mut index: usize = 0;
    while index < components.len()
        invariant
            index <= components.len(),
            normalized == (is_absolute && forall|i: int|
                0 <= i < index ==> (#[trigger] components@[i]) != ComponentKind::Current
                    && components@[i] != ComponentKind::Parent),
        decreases components.len() - index,
    {
        if components[index] == ComponentKind::Current || components[index]
            == ComponentKind::Parent {
            normalized = false;
        }
        index += 1;
    }
    if normalized {
        return Ok(());
    }
    let mut message = "Cannot use the ".to_owned();
    message.append(label);
    message.append(" directory ");
    message.append(path);
    message.append(" because its path is not an absolute, normalized path.");
    Err(message)
}

/// A byte, a capital letter as a small one.
pub open spec fn lower_byte(byte: u8) -> u8 {
    if 65 <= byte <= 90 {
        (byte + 32) as u8
    } else {
        byte
    }
}

/// Whether two names differ at most by the case of ASCII letters.
pub open spec fn same_but_case(left: Seq<u8>, right: Seq<u8>) -> bool {
    &&& left.len() == right.len()
    &&& forall|i: int|
        0 <= i < left.len() ==> lower_byte(#[trigger] left[i]) == lower_byte(right[i])
}

/// Whether a name is a given one, on Windows without regard to case.
pub open spec fn name_is(name: Seq<u8>, expected: Seq<char>, platform: StoragePlatform) -> bool {
    match platform {
        StoragePlatform::Unix => name == encode_utf8(expected),
        StoragePlatform::Windows => same_but_case(name, encode_utf8(expected)),
    }
}

fn to_lower_byte(byte: u8) -> (lower: u8)
    ensures
        lower == lower_byte(byte),
{
    if 65 <= byte && byte <= 90 {
        byte + 32
    } else {
        byte
    }
}

fn file_name_eq(name: &[u8], expected: &str, platform: StoragePlatform) -> (same: bool)
    ensures
        same == name_is(name@, expected@, platform),
{
    let wanted = expected.as_bytes();
    match platform {
        StoragePlatform::Unix => same_bytes(name, wanted),
        StoragePlatform::Windows => {
            if name.len() != wanted.len() {
                return false;
            }
            let mut index: usize = 0;
            while index < name.len()
                invariant
                    index <= name.len(),
                    name@.len() == wanted@.len(),
                    wanted@ == encode_utf8(expected@),
                    forall|i: int|
                        0 <= i < index ==> lower_byte(#[trigger] name@[i]) == lower_byte(
                            wanted@[i],
                        ),
                decreases name.len() - index,
            {
                if to_lower_byte(name[index]) != to_lower_byte(wanted[index]) {
                    assert(lower_byte(name@[index as int]) != lower_byte(wanted@[index as int]));
                    return false;
                }
                index += 1;
            }
            true
        },
    }
}

/// The names as mathematical values.
pub open spec fn name_views(names: Seq<Vec<u8>>) -> Seq<Seq<u8>> {
    names.map(|i: int, name: Vec<u8>| name@)
}

/// The managed directory that the first `count` names of a path lead to or through, as a number
/// of names: the nearest `fastctx` with a `runtime` in it, or the nearest `.fastctx`.
pub open spec fn managed_root(
    names: Seq<Seq<u8>>,
    count: int,
    platform: StoragePlatform,
) -> Option<int>
    decreases count,
{
    if count <= 0 || count > names.len() {
        None
    } else if name_is(names[count - 1], "runtime"@, platform) && count >= 2 && name_is(
        names[count - 2],
        "fastctx"@,
        platform,
    ) {
        Some(count - 1)
    } else if name_is(names[count - 1], ".fastctx"@, platform) {
        Some(count)
    } else {
        managed_root(names, count - 1, platform)
    }
}

/// How many names the first directory of the managed chain has.
pub open spec fn chain_start(names: Seq<Seq<u8>>, platform: StoragePlatform) -> int {
    match managed_root(names, names.len() as int, platform) {
        Some(count) => count,
        None => names.len() as int,
    }
}

/// The managed root is a directory of the path.
pub proof fn managed_root_is_on_the_path(
    names: Seq<Seq<u8>>,
    count: int,
    platform: StoragePlatform,
)
    ensures
        managed_root(names, count, platform) matches Some(root) ==> 0 < root <= count,
    decreases count,
{
    if 0 < count <= names.len() {
        managed_root_is_on_the_path(names, count - 1, platform);
    }
}

/// The directories to be made private, from the managed root down to the path itself, each as
/// the number of names it has.
pub fn managed_chain(names: &Vec<Vec<u8>>, platform: StoragePlatform) -> (chain: Vec<usize>)
    requires
        names@.len() < usize::MAX,
    ensures
        chain@.len() == names@.len() - chain_start(name_views(names@), platform) + 1,
        forall|i: int|
            0 <= i < chain@.len() ==> #[trigger] chain@[i] == chain_start(
                name_views(names@),
                platform,
            ) + i,
        chain@.len() >= 1,
        chain@.last() == names@.len(),
{
    let ghost shown = name_views(names@);
    let mut start: usize = names.len();
    let mut count: usize = names.len();
    let ghost whole = shown.len() as int;
    while count > 0
        invariant_except_break
            count <= names.len(),
            start == names@.len(),
            shown == name_views(names@),
            shown.len() == names@.len(),
            managed_root(shown, shown.len() as int, platform) == managed_root(
                shown,
                count as int,
                platform,
            ),
        ensures
            start <= names@.len(),
            start == chain_start(shown, platform),
        decreases count,
    {
        assert(shown[count - 1] == names@[count - 1]@);
        if count >= 2 {
            assert(shown[count - 2] == names@[count - 2]@);
        }
        if file_name_eq(names[count - 1].as_slice(), "runtime", platform) && count >= 2
            && file_name_eq(names[count - 2].as_slice(), "fastctx", platform) {
            start = count - 1;
            break;
        }
        if file_name_eq(names[count - 1].as_slice(), ".fastctx", platform) {
            start = count;
            break;
        }
        count -= 1;
    }
    let mut chain: Vec<usize> = Vec::new();
    let mut len: usize = start;
    while len <= names.len()
        invariant
            names@.len() < usize::MAX,
            start <= len <= names@.len() + 1,
            chain@.len() == len - start,
            forall|i: int| 0 <= i < chain@.len() ==> #[trigger] chain@[i] == start + i,
        decreases names.len() + 1 - len,
    {
        chain.push(len);
        len += 1;
    }
    chain
}

/// What the file system says of an entry that is not followed.
#[derive(Clone, Copy, Debug)]
pub struct EntryFacts {
    /// Whether it is a symbolic link or a reparse point.
    pub is_link: bool,
    pub is_dir: bool,
    pub is_file: bool,
    pub device: u64,
    pub inode: u64,
    /// Permission bits.
    pub mode: u32,
}

/// The message about an entry that is no private directory.
pub open spec fn not_a_directory(path: Seq<char>, label: Seq<char>) -> Seq<char> {
    "Cannot use the "@ + label + " path "@ + path
        + " because it is not a private directory. Remove it and retry."@
}

/// Checks that an entry is a directory of its own.
pub fn validate_directory_metadata(path: &str, label: &str, facts: &EntryFacts) -> (result: Result<
    (),
    String,
>)
    ensures
        match result {
            Ok(()) => !facts.is_link && facts.is_dir,
            Err(message) => (facts.is_link || !facts.is_dir) && message@ == not_a_directory(
                path@,
                label@,
            ),
        },
{
    if facts.is_link || !facts.is_dir {
        return Err(not_a_directory_message(path, label));
    }
    Ok(())
}

fn not_a_directory_message(path: &str, label: &str) -> (message: String)
    ensures
        message@ == not_a_directory(path@, label@),
{
    let mut message = "Cannot use the ".to_owned();
    message.append(label);
    message.append(" path ");
    message.append(path);
    message.append(" because it is not a private directory. Remove it and retry.");
    message
}

/// Checks that an entry is a regular file of its own.
pub fn validate_file_metadata(path: &str, label: &str, facts: &EntryFacts) -> (result: Result<
    (),
    String,
>)
    ensures
        match result {
            Ok(()) => !facts.is_link && facts.is_file,
            Err(message) => (facts.is_link || !facts.is_file) && message@ == "Cannot use the "@
                + label@ + " path "@ + path@
                + " because it is not a private regular file. Remove it and retry."@,
        },
{
    if facts.is_link || !facts.is_file {
        let mut message = "Cannot use the ".to_owned();
        message.append(label);
        message.append(" path ");
        message.append(path);
        message.append(" because it is not a private regular file. Remove it and retry.");
        return Err(message);
    }
    Ok(())
}

/// What to do next about the directory whose turn it is.
#[derive(Clone, Copy, Debug, PartialEq, Eq, Structural)]
pub enum DirectoryAction {
    /// Open the directory that the first one lies in.
    OpenParent,
    /// Create it with owner-only permissions.
    Create,
    /// Look at the entry without following it.
    Inspect,
    /// Open it without following links.
    Open,
    /// Ask the open directory what it is.
    InspectOpen,
    /// Restrict the open directory to its owner.
    Secure,
    /// Ask the open directory what it is now.
    InspectSecured,
    /// Look at the entry once more.
    Reinspect,
    /// Nothing is left to do.
    Done,
}

/// What came of an action.
#[derive(Debug)]
pub enum DirectoryEvent {
    /// The action worked and told nothing.
    Worked,
    /// The directory that was to be created was there already.
    AlreadyExists,
    /// The action worked and told this.
    Facts(EntryFacts),
    /// The action failed.
    Failed(String),
}

/// The words that a failed action is reported with, around the path and the error.
pub open spec fn failure_words(action: DirectoryAction) -> (Seq<char>, Seq<char>, Seq<char>) {
    match action {
        DirectoryAction::OpenParent => (
            "Cannot open the parent of the "@,
            " directory "@,
            ": "@,
        ),
        DirectoryAction::Create => ("Cannot create the "@, " directory "@, ": "@),
        DirectoryAction::Inspect => ("Cannot inspect the "@, " directory "@, ": "@),
        DirectoryAction::Open => ("Cannot securely open the "@, " directory "@, ": "@),
        DirectoryAction::InspectOpen => ("Cannot inspect the open "@, " directory "@, ": "@),
        DirectoryAction::Secure => ("Cannot secure the "@, " directory "@, ": "@),
        DirectoryAction::InspectSecured => (
            "Cannot verify the secured "@,
            " directory "@,
            ": "@,
        ),
        DirectoryAction::Reinspect => (
            "Cannot re-inspect the "@,
            " directory "@,
            " after securing it: "@,
        ),
        DirectoryAction::Done => (""@, ""@, ""@),
    }
}

/// The message about a failed action.
pub open spec fn failure_message(
    action: DirectoryAction,
    path: Seq<char>,
    label: Seq<char>,
    error: Seq<char>,
) -> Seq<char> {
    let words = failure_words(action);
    words.0 + label + words.1 + path + words.2 + error
}

fn write_failure(action: DirectoryAction, path: &str, label: &str, error: &str) -> (message: String)
    ensures
        message@ == failure_message(action, path@, label@, error@),
{
    let (first, second, third) = match action {
        DirectoryAction::OpenParent => ("Cannot open the parent of the ", " directory ", ": "),
        DirectoryAction::Create => ("Cannot create the ", " directory ", ": "),
        DirectoryAction::Inspect => ("Cannot inspect the ", " directory ", ": "),
        DirectoryAction::Open => ("Cannot securely open the ", " directory ", ": "),
        DirectoryAction::InspectOpen => ("Cannot inspect the open ", " directory ", ": "),
        DirectoryAction::Secure => ("Cannot secure the ", " directory ", ": "),
        DirectoryAction::InspectSecured => ("Cannot verify the secured ", " directory ", ": "),
        DirectoryAction::Reinspect => (
            "Cannot re-inspect the ",
            " directory ",
            " after securing it: ",
        ),
        DirectoryAction::Done => ("", "", ""),
    };
    let mut message = first.to_owned();
    message.append(label);
    message.append(second);
    message.append(path);
    message.append(third);
    message.append(error);
    message
}

/// The message about a directory that is not even tried to be created.
pub open spec fn refused_creation(path: Seq<char>, label: Seq<char>, reason: Seq<char>) -> Seq<
    char,
> {
    "Cannot create the "@ + label + " directory "@ + path + reason
}

fn write_refusal(path: &str, label: &str, reason: &str) -> (message: String)
    ensures
        message@ == refused_creation(path@, label@, reason@),
{
    let mut message = "Cannot create the ".to_owned();
    message.append(label);
    message.append(" directory ");
    message.append(path);
    message.append(reason);
    message
}

fn has_nul(name: &[u8]) -> (result: bool)
    ensures
        result == name@.contains(0),
{
    let mut index: usize = 0;
    while index < name.len()
        invariant
            index <= name.len(),
            forall|i: int| 0 <= i < index ==> (#[trigger] name@[i]) != 0,
        decreases name.len() - index,
    {
        if name[index] == 0 {
            assert(name@[index as int] == 0);
            return true;
        }
        index += 1;
    }
    false
}

/// What a directory was at the three looks that were taken at it.
pub struct PrivateFacts {
    /// When it was opened.
    pub opened: EntryFacts,
    /// After it was secured.
    pub secured: EntryFacts,
    /// At its path, in the end.
    pub current: EntryFacts,
}

/// Whether all three looks were at one directory.
pub open spec fn one_directory(opened: EntryFacts, secured: EntryFacts, current: EntryFacts) -> bool {
    &&& opened.device == secured.device
    &&& opened.inode == secured.inode
    &&& secured.device == current.device
    &&& secured.inode == current.inode
}

/// Whether permission bits let the owner do everything and nobody else anything.
pub open spec fn owner_only(mode: u32) -> bool {
    mode % 512 == 448
}

/// Whether a directory was one of its own, open to its owner alone, and the same one all along.
pub open spec fn is_private(facts: PrivateFacts) -> bool {
    &&& facts.opened.is_dir
    &&& owner_only(facts.secured.mode)
    &&& !facts.current.is_link
    &&& facts.current.is_dir
    &&& one_directory(facts.opened, facts.secured, facts.current)
}

/// A chain of directories.
pub struct FrameSpec {
    /// What they are for.
    pub label: Seq<char>,
    /// The directory that the first one lies in, as it is shown.
    pub parent: Seq<char>,
    /// The directories, as they are shown.
    pub paths: Seq<Seq<char>>,
    /// The last name of each path.
    pub names: Seq<Seq<u8>>,
}

/// How far the work on a chain of directories has come.
pub struct ChainSpec {
    /// The directory whose turn it is.
    pub at: int,
    pub action: DirectoryAction,
    /// What the directory was when it was opened.
    pub opened: Option<EntryFacts>,
    /// What it was after it was secured.
    pub secured: Option<EntryFacts>,
    /// What the directories were that had their turn.
    pub done: Seq<PrivateFacts>,
}

/// Whether the work has come as far as it says, with every directory before this one private.
pub open spec fn chain_sound(progress: ChainSpec, count: nat) -> bool {
    let action = progress.action;
    &&& 0 <= progress.at <= count
    &&& action == DirectoryAction::OpenParent ==> progress.at == 0 && count > 0
    &&& action == DirectoryAction::Done <==> progress.at == count
    &&& progress.done.len() == progress.at
    &&& forall|i: int| 0 <= i < progress.at ==> is_private(#[trigger] progress.done[i])
    &&& progress.opened matches Some(facts) ==> facts.is_dir
    &&& progress.secured matches Some(facts) ==> owner_only(facts.mode)
    &&& action == DirectoryAction::Secure || action == DirectoryAction::InspectSecured || action
        == DirectoryAction::Reinspect ==> progress.opened is Some
    &&& action == DirectoryAction::Reinspect ==> progress.secured is Some
}

/// The state once it is the turn of a directory, or why that is not even tried to be created.
pub open spec fn turn_of(frame: FrameSpec, at: int, done: Seq<PrivateFacts>) -> Result<
    ChainSpec,
    Seq<char>,
> {
    if at < frame.paths.len() && frame.names[at].len() == 0 {
        Err(
            refused_creation(
                frame.paths[at],
                frame.label,
                " because a managed component has no name."@,
            ),
        )
    } else if at < frame.paths.len() && frame.names[at].contains(0) {
        Err(
            refused_creation(
                frame.paths[at],
                frame.label,
                " because a path component contains a NUL byte."@,
            ),
        )
    } else {
        Ok(
            ChainSpec {
                at,
                action: if at < frame.paths.len() {
                    DirectoryAction::Create
                } else {
                    DirectoryAction::Done
                },
                opened: None,
                secured: None,
                done,
            },
        )
    }
}

/// The path that an action is about.
pub open spec fn subject(frame: FrameSpec, progress: ChainSpec) -> Seq<char> {
    if progress.action == DirectoryAction::OpenParent {
        frame.parent
    } else {
        frame.paths[progress.at]
    }
}

/// The state after an event, or the message that ends the work. What does not answer the action
/// leaves the work where it is.
pub open spec fn reacted(before: ChainSpec, event: DirectoryEvent, frame: FrameSpec) -> Result<
    ChainSpec,
    Seq<char>,
> {
    let path = subject(frame, before);
    let label = frame.label;
    match (before.action, event) {
        (action, DirectoryEvent::Failed(error)) => Err(
            failure_message(action, path, label, error@),
        ),
        (DirectoryAction::OpenParent, DirectoryEvent::Worked) => turn_of(frame, 0, before.done),
        (DirectoryAction::Create, DirectoryEvent::Worked) => Ok(
            ChainSpec { action: DirectoryAction::Inspect, ..before },
        ),
        (DirectoryAction::Create, DirectoryEvent::AlreadyExists) => Ok(
            ChainSpec { action: DirectoryAction::Inspect, ..before },
        ),
        (DirectoryAction::Inspect, DirectoryEvent::Facts(facts)) => if facts.is_link
            || !facts.is_dir {
            Err(not_a_directory(path, label))
        } else {
            Ok(ChainSpec { action: DirectoryAction::Open, ..before })
        },
        (DirectoryAction::Open, DirectoryEvent::Worked) => Ok(
            ChainSpec { action: DirectoryAction::InspectOpen, ..before },
        ),
        (DirectoryAction::InspectOpen, DirectoryEvent::Facts(facts)) => if !facts.is_dir {
            Err(not_a_directory(path, label))
        } else {
            Ok(ChainSpec { action: DirectoryAction::Secure, opened: Some(facts), ..before })
        },
        (DirectoryAction::Secure, DirectoryEvent::Worked) => Ok(
            ChainSpec { action: DirectoryAction::InspectSecured, ..before },
        ),
        (DirectoryAction::InspectSecured, DirectoryEvent::Facts(facts)) => if !owner_only(
            facts.mode,
        ) {
            Err(
                "Cannot secure the "@ + label + " directory "@ + path
                    + " because its permissions are not owner-only after chmod."@,
            )
        } else {
            Ok(ChainSpec { action: DirectoryAction::Reinspect, secured: Some(facts), ..before })
        },
        (DirectoryAction::Reinspect, DirectoryEvent::Facts(current)) => if current.is_link
            || !current.is_dir {
            Err(not_a_directory(path, label))
        } else {
            let opened = before.opened->Some_0;
            let secured = before.secured->Some_0;
            if !one_directory(opened, secured, current) {
                Err(
                    "Cannot secure the "@ + label + " directory "@ + path
                        + " because it changed while permissions were applied. Retry after the path stops changing."@,
                )
            } else {
                turn_of(
                    frame,
                    before.at + 1,
                    before.done.push(PrivateFacts { opened, secured, current }),
                )
            }
        },
        _ => Ok(before),
    }
}

/// The work on a chain of directories.
pub struct PrivateChain {
    label: String,
    parent: String,
    paths: Vec<String>,
    names: Vec<Vec<u8>>,
    at: usize,
    action: DirectoryAction,
    opened: Option<EntryFacts>,
    secured: Option<EntryFacts>,
    done: Ghost<Seq<PrivateFacts>>,
}

/// The chain of directories that names lead to from the root, where `shown` says how the path of
/// the first so many names is shown.
pub open spec fn frame_of(
    label: Seq<char>,
    names: Seq<Seq<u8>>,
    shown: Seq<Seq<char>>,
) -> FrameSpec {
    let start = chain_start(names, StoragePlatform::Unix);
    let count = (names.len() - start + 1) as nat;
    FrameSpec {
        label,
        parent: shown[start - 1],
        paths: Seq::new(count, |i: int| shown[start + i]),
        names: Seq::new(count, |i: int| names[start + i - 1]),
    }
}

impl PrivateChain {
    /// How far the work has come.
    pub closed spec fn progress(&self) -> ChainSpec {
        ChainSpec {
            at: self.at as int,
            action: self.action,
            opened: self.opened,
            secured: self.secured,
            done: self.done@,
        }
    }

    /// The directories.
    pub closed spec fn frame(&self) -> FrameSpec {
        FrameSpec {
            label: self.label@,
            parent: self.parent@,
            paths: text::views(self.paths@),
            names: name_views(self.names@),
        }
    }

    /// Whether the work has come as far as it says.
    pub closed spec fn wf(&self) -> bool {
        &&& self.paths@.len() == self.names@.len()
        &&& chain_sound(self.progress(), self.paths@.len())
    }

    /// Begins with the directory that the managed ones lie in; the root itself lies in none. The
    /// names are those of the path, and `shown` says how the path of the first so many of them is
    /// shown, from none to all.
    pub fn new(label: String, names: &Vec<Vec<u8>>, shown: &Vec<String>) -> (result: Result<
        Self,
        String,
    >)
        requires
            names@.len() < usize::MAX,
            shown@.len() == names@.len() + 1,
        ensures
            match result {
                Ok(chain) => {
                    &&& names@.len() > 0
                    &&& chain.wf()
                    &&& chain.frame() == frame_of(
                        label@,
                        name_views(names@),
                        text::views(shown@),
                    )
                    &&& chain.progress() == (ChainSpec {
                        at: 0,
                        action: DirectoryAction::OpenParent,
                        opened: None,
                        secured: None,
                        done: Seq::empty(),
                    })
                },
                Err(message) => {
                    &&& names@.len() == 0
                    &&& message@ == refused_creation(
                        shown@[0]@,
                        label@,
                        " because its managed root has no parent."@,
                    )
                },
            },
    {
        if names.len() == 0 {
            return Err(
                write_refusal(
                    shown[0].as_str(),
                    label.as_str(),
                    " because its managed root has no parent.",
                ),
            );
        }
        let ghost known = name_views(names@);
        let ghost words = text::views(shown@);
        let counts = managed_chain(names, StoragePlatform::Unix);
        let ghost frame = frame_of(label@, known, words);
        let ghost start = chain_start(known, StoragePlatform::Unix);
        proof {
            managed_root_is_on_the_path(known, known.len() as int, StoragePlatform::Unix);
            assert(counts@[0] == start);
            assert(words[start - 1] == shown@[start - 1]@);
        }
        let parent = shown[counts[0] - 1].as_str().to_owned();
        let mut paths: Vec<String> = Vec::new();
        let mut last_names: Vec<Vec<u8>> = Vec::new();
        let mut index: usize = 0;
        assert(text::views(paths@) =~= frame.paths.take(0));
        assert(name_views(last_names@) =~= frame.names.take(0));
        while index < counts.len()
            invariant
                index <= counts@.len(),
                known == name_views(names@),
                known.len() == names@.len(),
                words == text::views(shown@),
                shown@.len() == names@.len() + 1,
                start == chain_start(known, StoragePlatform::Unix),
                1 <= start <= names@.len(),
                frame == frame_of(label@, known, words),
                counts@.len() == names@.len() - start + 1,
                forall|i: int| 0 <= i < counts@.len() ==> #[trigger] counts@[i] == start + i,
                paths@.len() == index,
                last_names@.len() == index,
                text::views(paths@) == frame.paths.take(index as int),
                name_views(last_names@) == frame.names.take(index as int),
            decreases counts.len() - index,
        {
            let count = counts[index];
            let ghost before = (paths@, last_names@);
            let path = shown[count].as_str().to_owned();
            let name = slice_to_vec(names[count - 1].as_slice());
            assert(words[count as int] == shown@[count as int]@);
            assert(known[count - 1] == names@[count - 1]@);
            let ghost added = (path@, name@);
            paths.push(path);
            last_names.push(name);
            proof {
                assert(text::views(paths@) =~= text::views(before.0).push(added.0));
                assert(name_views(last_names@) =~= name_views(before.1).push(added.1));
                assert(text::views(paths@) =~= frame.paths.take(index + 1));
                assert(name_views(last_names@) =~= frame.names.take(index + 1));
            }
            index += 1;
        }
        let chain = PrivateChain {
            label,
            parent,
            paths,
            names: last_names,
            at: 0,
            action: DirectoryAction::OpenParent,
            opened: None,
            secured: None,
            done: Ghost(Seq::empty()),
        };
        proof {
            assert(frame.paths.take(counts@.len() as int) =~= frame.paths);
            assert(frame.names.take(counts@.len() as int) =~= frame.names);
            assert(chain.frame() == frame);
        }
        Ok(chain)
    }

    /// What to do next, and about which directory.
    pub fn next(&self) -> (step: (DirectoryAction, usize))
        ensures
            step.0 == self.progress().action,
            step.1 == self.progress().at,
    {
        (self.action, self.at)
    }

    fn take_turn(&mut self, at: usize) -> (result: Result<(), String>)
        requires
            old(self).paths@.len() == old(self).names@.len(),
            at <= old(self).paths@.len(),
        ensures
            final(self).frame() == old(self).frame(),
            final(self).paths@.len() == final(self).names@.len(),
            final(self).paths@.len() == old(self).paths@.len(),
            match result {
                Ok(()) => turn_of(old(self).frame(), at as int, old(self).done@) == Ok::<
                    ChainSpec,
                    Seq<char>,
                >(final(self).progress()),
                Err(message) => turn_of(old(self).frame(), at as int, old(self).done@) == Err::<
                    ChainSpec,
                    Seq<char>,
                >(message@),
            },
    {
        if at < self.paths.len() {
            assert(self.frame().paths[at as int] == self.paths@[at as int]@);
            assert(self.frame().names[at as int] == self.names@[at as int]@);
            let path = self.paths[at].as_str();
            let name = self.names[at].as_slice();
            if name.len() == 0 {
                return Err(
                    write_refusal(
                        path,
                        self.label.as_str(),
                        " because a managed component has no name.",
                    ),
                );
            }
            if has_nul(name) {
                return Err(
                    write_refusal(
                        path,
                        self.label.as_str(),
                        " because a path component contains a NUL byte.",
                    ),
                );
            }
            self.action = DirectoryAction::Create;
        } else {
            self.action = DirectoryAction::Done;
        }
        self.at = at;
        self.opened = None;
        self.secured = None;
        Ok(())
    }

    /// Takes in what came of the action.
    pub fn react(&mut self, event: DirectoryEvent) -> (result: Result<(), String>)
        requires
            old(self).wf(),
            old(self).progress().action != DirectoryAction::Done,
        ensures
            final(self).frame() == old(self).frame(),
            match result {
                Ok(()) => {
                    &&& final(self).wf()
                    &&& reacted(old(self).progress(), event, old(self).frame()) == Ok::<
                        ChainSpec,
                        Seq<char>,
                    >(final(self).progress())
                },
                Err(message) => reacted(old(self).progress(), event, old(self).frame()) == Err::<
                    ChainSpec,
                    Seq<char>,
                >(message@),
            },
    {
        proof {
            assert(self.frame().paths[self.at as int] == self.paths@[self.at as int]@);
            assert(self.frame().paths.len() == self.paths@.len());
            assert(self.frame().names.len() == self.names@.len());
            if reacted(self.progress(), event, self.frame()) is Ok {
                reacting_stays_sound(self.progress(), event, self.frame());
            }
        }
        let path = if self.action == DirectoryAction::OpenParent {
            self.parent.as_str()
        } else {
            self.paths[self.at].as_str()
        };
        let label = self.label.as_str();
        match event {
            DirectoryEvent::Failed(error) => {
                return Err(write_failure(self.action, path, label, error.as_str()));
            },
            DirectoryEvent::Worked => match self.action {
                DirectoryAction::OpenParent => {
                    return self.take_turn(0);
                },
                DirectoryAction::Create => {
                    self.action = DirectoryAction::Inspect;
                },
                DirectoryAction::Open => {
                    self.action = DirectoryAction::InspectOpen;
                },
                DirectoryAction::Secure => {
                    self.action = DirectoryAction::InspectSecured;
                },
                _ => {},
            },
            DirectoryEvent::AlreadyExists => {
                if self.action == DirectoryAction::Create {
                    self.action = DirectoryAction::Inspect;
                }
            },
            DirectoryEvent::Facts(facts) => match self.action {
                DirectoryAction::Inspect => {
                    if facts.is_link || !facts.is_dir {
                        return Err(not_a_directory_message(path, label));
                    }
                    self.action = DirectoryAction::Open;
                },
                DirectoryAction::InspectOpen => {
                    if !facts.is_dir {
                        return Err(not_a_directory_message(path, label));
                    }
                    self.opened = Some(facts);
                    self.action = DirectoryAction::Secure;
                },
                DirectoryAction::InspectSecured => {
                    if facts.mode % 512 != 448 {
                        let mut message = "Cannot secure the ".to_owned();
                        message.append(label);
                        message.append(" directory ");
                        message.append(path);
                        message.append(
                            " because its permissions are not owner-only after chmod.",
                        );
                        return Err(message);
                    }
                    self.secured = Some(facts);
                    self.action = DirectoryAction::Reinspect;
                },
                DirectoryAction::Reinspect => {
                    if facts.is_link || !facts.is_dir {
                        return Err(not_a_directory_message(path, label));
                    }
                    if let (Some(opened), Some(secured)) = (self.opened, self.secured) {
                        if opened.device != secured.device || opened.inode != secured.inode
                            || secured.device != facts.device || secured.inode != facts.inode {
                            let mut message = "Cannot secure the ".to_owned();
                            message.append(label);
                            message.append(" directory ");
                            message.append(path);
                            message.append(
                                " because it changed while permissions were applied. Retry after the path stops changing.",
                            );
                            return Err(message);
                        }
                        let ghost looks = PrivateFacts { opened, secured, current: facts };
                        self.done = Ghost(self.done@.push(looks));
                        assert(self.at < self.paths.len());
                        let next = self.at + 1;
                        return self.take_turn(next);
                    }
                },
                _ => {},
            },
        }
        Ok(())
    }
}

/// Whatever happens, the work stays where it says, with every directory before the one whose
/// turn it is private.
pub proof fn reacting_stays_sound(before: ChainSpec, event: DirectoryEvent, frame: FrameSpec)
    requires
        chain_sound(before, frame.paths.len()),
        before.action != DirectoryAction::Done,
        reacted(before, event, frame) is Ok,
    ensures
        chain_sound(reacted(before, event, frame)->Ok_0, frame.paths.len()),
{
    let after = reacted(before, event, frame)->Ok_0;
    assert forall|i: int| 0 <= i < after.at implies is_private(#[trigger] after.done[i]) by {
        if i < before.at {
            assert(after.done[i] == before.done[i]);
        }
    }
}

/// The work goes on to the next directory only when this one is a directory of its own, open to
/// its owner alone, and was the same one all along.
pub proof fn child_waits_for_private_parent(
    before: ChainSpec,
    event: DirectoryEvent,
    frame: FrameSpec,
)
    requires
        chain_sound(before, frame.paths.len()),
        reacted(before, event, frame) is Ok,
        reacted(before, event, frame)->Ok_0.at != before.at,
    ensures
        reacted(before, event, frame)->Ok_0.at == before.at + 1,
        event is Facts,
        before.opened is Some && before.secured is Some,
        is_private(
            (PrivateFacts {
                opened: before.opened->Some_0,
                secured: before.secured->Some_0,
                current: event->Facts_0,
            }),
        ),
{
}

/// Once the work is done, every directory of the chain was private.
pub proof fn finished_chain_is_private(progress: ChainSpec, frame: FrameSpec)
    requires
        chain_sound(progress, frame.paths.len()),
        progress.action == DirectoryAction::Done,
    ensures
        progress.done.len() == frame.paths.len(),
        forall|i: int| 0 <= i < frame.paths.len() ==> is_private(#[trigger] progress.done[i]),
{
}

/// Nothing is created before the directory that the managed ones lie in was opened.
pub proof fn parent_is_opened_first(before: ChainSpec, event: DirectoryEvent, frame: FrameSpec)
    requires
        before.action == DirectoryAction::OpenParent,
        reacted(before, event, frame) is Ok,
    ensures
        event is Worked || reacted(before, event, frame)->Ok_0 == before,
{
}

/// Where runtime state lives under Unix: under an absolute runtime directory, or else under a
/// per-user name in an absolute temporary directory.
pub open spec fn unix_runtime(
    component: Seq<char>,
    runtime: Option<Seq<u8>>,
    temporary: Seq<u8>,
    user: nat,
) -> Seq<u8> {
    let own = "fastctx-"@ + component;
    if runtime is Some && rooted(runtime->Some_0) {
        below(runtime->Some_0, encode_utf8(own))
    } else {
        below(
            if rooted(temporary) {
                temporary
            } else {
                encode_utf8("/tmp"@)
            },
            encode_utf8(own + "-"@ + text::decimal(user)),
        )
    }
}

/// Whether a Unix path is absolute.
pub open spec fn rooted(path: Seq<u8>) -> bool {
    path.len() > 0 && path[0] == 47
}

/// A name below a Unix directory.
pub open spec fn below(directory: Seq<u8>, name: Seq<u8>) -> Seq<u8> {
    if directory.len() > 0 && directory.last() == 47 {
        directory + name
    } else {
        directory.push(47) + name
    }
}

fn is_rooted(path: &[u8]) -> (result: bool)
    ensures
        result == rooted(path@),
{
    path.len() > 0 && path[0] == 47
}

fn join_below(directory: &[u8], name: &str) -> (path: Vec<u8>)
    ensures
        path@ == below(directory@, encode_utf8(name@)),
{
    let mut path = slice_to_vec(directory);
    if !(directory.len() > 0 && directory[directory.len() - 1] == 47) {
        path.push(47);
    }
    path.extend_from_slice(name.as_bytes());
    path
}

/// Where runtime state lives under Unix.
pub fn resolve_runtime_component(
    component: &str,
    runtime: Option<&[u8]>,
    temporary: &[u8],
    user: u32,
) -> (path: Vec<u8>)
    ensures
        path@ == unix_runtime(
            component@,
            match runtime {
                Some(runtime) => Some(runtime@),
                None => None,
            },
            temporary@,
            user as nat,
        ),
{
    let mut own = "fastctx-".to_owned();
    own.append(component);
    if let Some(runtime) = runtime {
        if is_rooted(runtime) {
            return join_below(runtime, own.as_str());
        }
    }
    own.append("-");
    own.append(decimal_text(user as u64).as_str());
    if is_rooted(temporary) {
        join_below(temporary, own.as_str())
    } else {
        join_below("/tmp".as_bytes(), own.as_str())
    }
}

/// Whatever the environment holds, runtime state lives under an absolute path.
pub proof fn runtime_path_is_absolute(
    component: Seq<char>,
    runtime: Option<Seq<u8>>,
    temporary: Seq<u8>,
    user: nat,
)
    ensures
        rooted(unix_runtime(component, runtime, temporary, user)),
{
    reveal_strlit("/tmp");
    assert(is_ascii_chars("/tmp"@));
    is_ascii_chars_encode_utf8("/tmp"@);
    assert("/tmp"@[0] as u8 == 47);
}

/// The directory that Windows runtime state lives under.
#[derive(Clone, Copy, Debug, PartialEq, Eq, Structural)]
pub enum WindowsBase {
    /// The local application data directory.
    LocalAppData,
    /// `AppData\Local` below the user profile.
    Profile,
    /// The temporary directory.
    Temporary,
}

/// Chooses the directory that Windows runtime state lives under. Each argument says whether the
/// variable is set, and whether it is absolute.
pub fn windows_runtime_base(local_app_data: Option<bool>, profile: Option<bool>) -> (base:
    WindowsBase)
    ensures
        base == if local_app_data == Some(true) {
            WindowsBase::LocalAppData
        } else if profile == Some(true) {
            WindowsBase::Profile
        } else {
            WindowsBase::Temporary
        },
{
    if let Some(absolute) = local_app_data {
        if absolute {
            return WindowsBase::LocalAppData;
        }
    }
    if let Some(absolute) = profile {
        if absolute {
            return WindowsBase::Profile;
        }
    }
    WindowsBase::Temporary
}

/// The access control list of a private directory: full control for the user and, unless that is
/// the system itself, for the system; nothing is inherited.
pub open spec fn private_descriptor_spec(user_sid: Seq<char>) -> Seq<char> {
    let own = "D:P(A;OICI;FA;;;"@ + user_sid + ")"@;
    if same_but_case(encode_utf8(user_sid), encode_utf8("S-1-5-18"@)) {
        own
    } else {
        own + "(A;OICI;FA;;;SY)"@
    }
}

/// The access control list of a private directory.
pub fn private_descriptor(user_sid: &str) -> (descriptor: String)
    ensures
        descriptor@ == private_descriptor_spec(user_sid@),
{
    let mut descriptor = "D:P(A;OICI;FA;;;".to_owned();
    descriptor.append(user_sid);
    descriptor.append(")");
    if !file_name_eq(user_sid.as_bytes(), "S-1-5-18", StoragePlatform::Windows) {
        descriptor.append("(A;OICI;FA;;;SY)");
    }
    descriptor
}

/// How many machine words hold so many bytes.
pub fn aligned_words(required_bytes: u32, word_size: u32) -> (words: u32)
    requires
        word_size > 0,
    ensures
        words * word_size >= required_bytes,
        words > 0 ==> (words - 1) * word_size < required_bytes,
{
    let whole: u32 = required_bytes / word_size;
    let rest: u32 = required_bytes % word_size;
    proof {
        let bytes = required_bytes as int;
        let size = word_size as int;
        vstd::arithmetic::div_mod::lemma_fundamental_div_mod(bytes, size);
        vstd::arithmetic::div_mod::lemma_mod_bound(bytes, size);
        assert(whole * size <= bytes) by (nonlinear_arith)
            requires
                bytes == size * whole + rest,
                rest >= 0,
        ;
        assert(whole * word_size + rest == bytes) by (nonlinear_arith)
            requires
                bytes == size * whole + rest,
                size == word_size,
        ;
        assert((whole + 1) * size == whole * size + size) by (nonlinear_arith);
        if whole > 0 {
            assert((whole - 1) * size == whole * size - size) by (nonlinear_arith);
        }
        if rest > 0 {
            assert(size >= 2);
            assert(whole < u32::MAX) by (nonlinear_arith)
                requires
                    whole * size <= bytes,
                    bytes <= u32::MAX,
                    size >= 2,
                    whole >= 0,
            ;
        }
    }
    if rest == 0 {
        whole
    } else {
        whole + 1
    }
}

/// The message about an operation on a directory that failed, with advice where access was
/// denied.
pub fn directory_io_error(
    action: &str,
    path: &str,
    label: &str,
    error: &str,
    permission_denied: bool,
) -> (message: String)
    ensures
        message@ == {
            let failure = "Cannot "@ + action@ + " the "@ + label@ + " directory "@ + path@
                + ": "@ + error@;
            if permission_denied {
                failure
                    + "\nNote: an earlier FastCtx version may have left an owner-only Windows ACL. Retry this operation once from an elevated process under the same Windows account; FastCtx can repair that ACL in place and never deletes the directory. If access is still denied, restore that account's Full control on the listed FastCtx directory or ask an administrator to do so."@
            } else {
                failure
            }
        },
{
    let mut message = "Cannot ".to_owned();
    message.append(action);
    message.append(" the ");
    message.append(label);
    message.append(" directory ");
    message.append(path);
    message.append(": ");
    message.append(error);
    if permission_denied {
        message.append(
            "\nNote: an earlier FastCtx version may have left an owner-only Windows ACL. Retry this operation once from an elevated process under the same Windows account; FastCtx can repair that ACL in place and never deletes the directory. If access is still denied, restore that account's Full control on the listed FastCtx directory or ask an administrator to do so.",
        );
    }
    message
}

} // verus!
