//! What identifies a file and its state, and when a file counts as unchanged.

use vstd::prelude::*;

verus! {

/// State of a file on a Unix system.
#[derive(Clone, Copy, Debug, PartialEq, Eq, Structural)]
pub struct UnixState {
    pub device: u64,
    pub inode: u64,
    pub len: u64,
    pub modified_seconds: i64,
    pub modified_nanoseconds: i64,
    pub changed_seconds: i64,
    pub changed_nanoseconds: i64,
}

/// How a Windows volume tells its files apart.
#[derive(Clone, Copy, Debug, PartialEq, Eq, Structural)]
#[allow(inconsistent_fields)]
pub enum WindowsFileId {
    /// 128-bit identifier, as its two halves.
    Extended { volume_serial: u64, high: u64, low: u64 },
    /// 64-bit index.
    Legacy { volume_serial: u32, file_index: u64 },
}

/// State of a file on Windows.
#[derive(Clone, Copy, Debug, PartialEq, Eq, Structural)]
pub struct WindowsState {
    pub file_id: WindowsFileId,
    pub len: u64,
    pub creation_time: u64,
    pub last_write_time: u64,
    pub change_time: Option<i64>,
    pub attributes: u32,
}

/// What a Windows file handle reports.
#[derive(Clone, Copy, Debug)]
pub struct WindowsHandleFacts {
    pub volume_serial: u32,
    pub index_high: u32,
    pub index_low: u32,
    pub size_high: u32,
    pub size_low: u32,
    pub creation_high: u32,
    pub creation_low: u32,
    pub write_high: u32,
    pub write_low: u32,
    pub attributes: u32,
}

/// Two 32-bit halves as one number.
pub open spec fn paired(high: u32, low: u32) -> int {
    high * 0x1_0000_0000 + low
}

fn pair(high: u32, low: u32) -> (value: u64)
    ensures
        value == paired(high, low),
{
    high as u64 * 0x1_0000_0000 + low as u64
}

/// Error code of a file system that has no extended identifiers.
pub const ERROR_NOT_SUPPORTED: i32 = 50;

/// Error code of a file system that does not know the question.
pub const ERROR_INVALID_PARAMETER: i32 = 87;

impl WindowsState {
    /// The identity that a handle's answers amount to. Without an extended identifier the index
    /// takes its place, but only where the file system does not support the former.
    pub fn from_handle(
        facts: WindowsHandleFacts,
        extended: Result<(u64, u64, u64), i32>,
        change_time: Option<i64>,
    ) -> (result: Result<WindowsState, i32>)
        ensures
            match result {
                Ok(state) => {
                    &&& match extended {
                        Ok((volume_serial, high, low)) => state.file_id == (
                        WindowsFileId::Extended { volume_serial, high, low }),
                        Err(code) => {
                            &&& code == ERROR_NOT_SUPPORTED || code == ERROR_INVALID_PARAMETER
                            &&& state.file_id matches WindowsFileId::Legacy {
                                volume_serial,
                                file_index,
                            } && volume_serial == facts.volume_serial && file_index == paired(
                                facts.index_high,
                                facts.index_low,
                            )
                        },
                    }
                    &&& state.len == paired(facts.size_high, facts.size_low)
                    &&& state.creation_time == paired(facts.creation_high, facts.creation_low)
                    &&& state.last_write_time == paired(facts.write_high, facts.write_low)
                    &&& state.change_time == change_time
                    &&& state.attributes == facts.attributes
                },
                Err(code) => {
                    &&& extended == Err::<(u64, u64, u64), i32>(code)
                    &&& code != ERROR_NOT_SUPPORTED
                    &&& code != ERROR_INVALID_PARAMETER
                },
            },
    {
        let file_id = match extended {
            Ok((volume_serial, high, low)) => WindowsFileId::Extended { volume_serial, high, low },
            Err(code) => {
                if code != ERROR_NOT_SUPPORTED && code != ERROR_INVALID_PARAMETER {
                    return Err(code);
                }
                WindowsFileId::Legacy {
                    volume_serial: facts.volume_serial,
                    file_index: pair(facts.index_high, facts.index_low),
                }
            },
        };
        Ok(
            WindowsState {
                file_id,
                len: pair(facts.size_high, facts.size_low),
                creation_time: pair(facts.creation_high, facts.creation_low),
                last_write_time: pair(facts.write_high, facts.write_low),
                change_time,
                attributes: facts.attributes,
            },
        )
    }
}

/// State of a file.
#[derive(Clone, Copy, Debug, PartialEq, Eq, Structural)]
pub enum FileIdentity {
    Unix(UnixState),
    Windows(WindowsState),
}

/// What a walk already knew of a file.
#[derive(Clone, Copy, Debug, PartialEq, Eq, Structural)]
pub enum FileIdentityHint {
    Unix(UnixState),
    Windows { len: u64, creation_time: u64, last_write_time: u64, attributes: u32 },
}

impl FileIdentity {
    /// Whether the state is the one that a walk saw; a walk that saw nothing rules nothing out.
    pub open spec fn fits(self, hint: Option<FileIdentityHint>) -> bool {
        match (self, hint) {
            (_, None) => true,
            (FileIdentity::Unix(state), Some(FileIdentityHint::Unix(seen))) => state == seen,
            (
                FileIdentity::Windows(state),
                Some(
                    FileIdentityHint::Windows { len, creation_time, last_write_time, attributes },
                ),
            ) => state.len == len && state.creation_time == creation_time && state.last_write_time
                == last_write_time && state.attributes == attributes,
            _ => false,
        }
    }

    /// Whether the state is the one that a walk saw.
    pub fn matches_hint(&self, hint: Option<FileIdentityHint>) -> (result: bool)
        ensures
            result == self.fits(hint),
    {
        match hint {
            None => true,
            Some(FileIdentityHint::Unix(seen)) => match self {
                FileIdentity::Unix(state) => *state == seen,
                FileIdentity::Windows(_) => false,
            },
            Some(
                FileIdentityHint::Windows { len, creation_time, last_write_time, attributes },
            ) => match self {
                FileIdentity::Unix(_) => false,
                FileIdentity::Windows(state) => state.len == len && state.creation_time
                    == creation_time && state.last_write_time == last_write_time
                    && state.attributes == attributes,
            },
        }
    }

    /// Whether two observations are of one file in one state. A change time that one of them
    /// lacks is no difference.
    pub open spec fn same(self, other: FileIdentity) -> bool {
        match (self, other) {
            (FileIdentity::Unix(left), FileIdentity::Unix(right)) => left == right,
            (FileIdentity::Windows(left), FileIdentity::Windows(right)) => {
                &&& left.file_id == right.file_id
                &&& left.len == right.len
                &&& left.creation_time == right.creation_time
                &&& left.last_write_time == right.last_write_time
                &&& left.attributes == right.attributes
                &&& left.change_time is Some && right.change_time is Some ==> left.change_time
                    == right.change_time
            },
            _ => false,
        }
    }

    /// Whether two observations are of one file in one state.
    pub fn same_state(&self, other: &FileIdentity) -> (result: bool)
        ensures
            result == self.same(*other),
    {
        match (self, other) {
            (FileIdentity::Unix(left), FileIdentity::Unix(right)) => *left == *right,
            (FileIdentity::Windows(left), FileIdentity::Windows(right)) => {
                let times = match (left.change_time, right.change_time) {
                    (Some(before), Some(after)) => before == after,
                    _ => true,
                };
                left.file_id == right.file_id && left.len == right.len && left.creation_time
                    == right.creation_time && left.last_write_time == right.last_write_time
                    && left.attributes == right.attributes && times
            },
            _ => false,
        }
    }
}

/// An observation of a file.
#[derive(Clone, Copy, Debug)]
pub struct Observation {
    pub identity: FileIdentity,
    pub is_regular: bool,
}

/// Whether a file may be read: it is regular and still the one that a walk saw.
pub fn may_capture(before: &Observation, hint: Option<FileIdentityHint>) -> (result: bool)
    ensures
        result == (before.is_regular && before.identity.fits(hint)),
{
    before.is_regular && before.identity.matches_hint(hint)
}

/// Whether a file stayed the same while it was read.
pub open spec fn unchanged(
    before: FileIdentity,
    after: Observation,
    at_path: Observation,
    hint: Option<FileIdentityHint>,
) -> bool {
    &&& after.is_regular
    &&& at_path.is_regular
    &&& before.same(after.identity)
    &&& after.identity.same(at_path.identity)
    &&& after.identity.fits(hint)
}

/// Whether a file stayed the same while it was read: the handle still shows the first state, and
/// the path still leads to it.
pub fn is_stable(
    before: &FileIdentity,
    after: &Observation,
    at_path: &Observation,
    hint: Option<FileIdentityHint>,
) -> (result: bool)
    ensures
        result == unchanged(*before, *after, *at_path, hint),
{
    after.is_regular && at_path.is_regular && before.same_state(&after.identity)
        && after.identity.same_state(&at_path.identity) && after.identity.matches_hint(hint)
}

/// A file that is unchanged is still the same regular file at its path, of the same length and with
/// the same times as before it was read, and as a walk saw it.
pub proof fn an_unchanged_file_shows_the_same_state(
    before: FileIdentity,
    after: Observation,
    at_path: Observation,
    hint: Option<FileIdentityHint>,
)
    requires
        unchanged(before, after, at_path, hint),
    ensures
        after.is_regular && at_path.is_regular,
        match (before, after.identity, at_path.identity) {
            (
                FileIdentity::Unix(first),
                FileIdentity::Unix(second),
                FileIdentity::Unix(third),
            ) => {
                &&& first.device == second.device == third.device
                &&& first.inode == second.inode == third.inode
                &&& first.len == second.len == third.len
                &&& first.modified_seconds == second.modified_seconds == third.modified_seconds
                &&& first.modified_nanoseconds == second.modified_nanoseconds
                    == third.modified_nanoseconds
                &&& first.changed_seconds == second.changed_seconds == third.changed_seconds
                &&& first.changed_nanoseconds == second.changed_nanoseconds
                    == third.changed_nanoseconds
            },
            (
                FileIdentity::Windows(first),
                FileIdentity::Windows(second),
                FileIdentity::Windows(third),
            ) => {
                &&& first.file_id == second.file_id
                &&& second.file_id == third.file_id
                &&& first.len == second.len == third.len
                &&& first.creation_time == second.creation_time == third.creation_time
                &&& first.last_write_time == second.last_write_time == third.last_write_time
                &&& first.attributes == second.attributes == third.attributes
            },
            _ => false,
        },
        hint matches Some(FileIdentityHint::Unix(seen)) ==> before == FileIdentity::Unix(seen),
        hint matches Some(FileIdentityHint::Windows { len, last_write_time, .. }) ==> (
        before matches FileIdentity::Windows(first) && first.len == len && first.last_write_time
            == last_write_time),
{
}

/// A file whose every observation is the same is unchanged.
pub proof fn an_equal_state_is_unchanged(state: FileIdentity)
    ensures
        unchanged(
            state,
            Observation { identity: state, is_regular: true },
            Observation { identity: state, is_regular: true },
            None,
        ),
        state.same(state),
{
}

} // verus!
