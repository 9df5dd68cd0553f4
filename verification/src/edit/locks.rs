//! Stable identities of edit targets, and the table of the locks that are in use.

use crate::edit::digest;
use crate::edit::digest::revision_of;
use crate::text;
use crate::text::{chars_of, same_bytes, string_of};
use vstd::prelude::*;
use vstd::slice::{slice_subrange, slice_to_vec};
use vstd::string::*;
use vstd::utf8::*;

verus! {

/// The lower-case form of a text under Unicode rules.
pub uninterp spec fn unicode_lower(text: Seq<char>) -> Seq<char>;

/// `str::to_lowercase`: the lower-case form of the text under Unicode rules, which no locale
/// changes.
#[verifier::external_body]
fn to_lower(value: &str) -> (lower: String)
    ensures
        lower@ == unicode_lower(value@),
{
    value.to_lowercase()
}

/// The eight bytes of a number, the least significant first.
pub open spec fn little_endian(value: u64) -> Seq<u8> {
    seq![
        (value & 0xff) as u8,
        ((value >> 8) & 0xff) as u8,
        ((value >> 16) & 0xff) as u8,
        ((value >> 24) & 0xff) as u8,
        ((value >> 32) & 0xff) as u8,
        ((value >> 40) & 0xff) as u8,
        ((value >> 48) & 0xff) as u8,
        ((value >> 56) & 0xff) as u8,
    ]
}

fn push_little_endian(bytes: &mut Vec<u8>, value: u64, count: usize)
    requires
        count <= 8,
    ensures
        final(bytes)@ == old(bytes)@ + little_endian(value).take(count as int),
{
    let ghost start = bytes@;
    if count > 0 {
        bytes.push((value & 0xff) as u8);
    }
    if count > 1 {
        bytes.push(((value >> 8) & 0xff) as u8);
    }
    if count > 2 {
        bytes.push(((value >> 16) & 0xff) as u8);
    }
    if count > 3 {
        bytes.push(((value >> 24) & 0xff) as u8);
    }
    if count > 4 {
        bytes.push(((value >> 32) & 0xff) as u8);
    }
    if count > 5 {
        bytes.push(((value >> 40) & 0xff) as u8);
    }
    if count > 6 {
        bytes.push(((value >> 48) & 0xff) as u8);
    }
    if count > 7 {
        bytes.push(((value >> 56) & 0xff) as u8);
    }
    assert(bytes@ =~= start + little_endian(value).take(count as int));
}

/// The name of a directory entry, by the rules of its file system.
#[derive(Clone, Copy, Debug)]
pub enum EntryName<'a> {
    /// A byte string, which need not be text.
    Bytes(&'a [u8]),
    /// A name that differs neither by case nor by trailing spaces and dots, as text.
    Windows(&'a str),
}

/// A text without the spaces and dots at its end.
pub open spec fn without_trailing_marks(text: Seq<char>) -> Seq<char>
    decreases text.len(),
{
    if text.len() > 0 && (text.last() == ' ' || text.last() == '.') {
        without_trailing_marks(text.drop_last())
    } else {
        text
    }
}

/// What tells a name apart from others.
pub open spec fn normalized_name(name: EntryName) -> Seq<u8> {
    match name {
        EntryName::Bytes(bytes) => bytes@,
        EntryName::Windows(text) => encode_utf8(without_trailing_marks(unicode_lower(text@))),
    }
}

fn normalize_name(name: EntryName<'_>) -> (normalized: Vec<u8>)
    ensures
        normalized@ == normalized_name(name),
{
    match name {
        EntryName::Bytes(bytes) => slice_to_vec(bytes),
        EntryName::Windows(text) => {
            let lower = to_lower(text);
            let chars = chars_of(lower.as_str());
            let mut end: usize = chars.len();
            assert(chars@.take(end as int) =~= chars@);
            while end > 0 && (chars[end - 1] == ' ' || chars[end - 1] == '.')
                invariant
                    end <= chars.len(),
                    without_trailing_marks(chars@.take(end as int)) == without_trailing_marks(
                        chars@,
                    ),
                decreases end,
            {
                assert(chars@.take(end as int).drop_last() =~= chars@.take(end - 1));
                end -= 1;
            }
            assert(chars@.subrange(0, end as int) =~= chars@.take(end as int));
            let trimmed = string_of(slice_subrange(chars.as_slice(), 0, end));
            slice_to_vec(trimmed.as_str().as_bytes())
        },
    }
}

/// The identity of the entry that has this name in the directory with this identity.
pub open spec fn entry_material(parent: Seq<u8>, name: EntryName) -> Seq<u8> {
    (encode_utf8("missing\0"@) + parent).push(0) + normalized_name(name)
}

/// The identity of a file or of a directory entry.
#[derive(Debug, PartialEq, Eq)]
pub struct PathIdentity {
    pub material: Vec<u8>,
}

impl PathIdentity {
    /// The identity of an existing file, from its device and inode.
    pub fn unix(device: u64, inode: u64) -> (identity: Self)
        ensures
            identity.material@ == encode_utf8("unix\0"@) + little_endian(device) + little_endian(
                inode,
            ),
    {
        let mut material: Vec<u8> = Vec::new();
        material.extend_from_slice("unix\0".as_bytes());
        push_little_endian(&mut material, device, 8);
        push_little_endian(&mut material, inode, 8);
        proof {
            assert(little_endian(device).take(8) =~= little_endian(device));
            assert(little_endian(inode).take(8) =~= little_endian(inode));
        }
        PathIdentity { material }
    }

    /// The identity of an existing file, from its volume serial number and file index.
    pub fn windows(volume: u32, index_high: u32, index_low: u32) -> (identity: Self)
        ensures
            identity.material@ == encode_utf8("windows\0"@) + little_endian(volume as u64).take(4)
                + little_endian(((index_high as u64) << 32u64) | index_low as u64),
    {
        let mut material: Vec<u8> = Vec::new();
        material.extend_from_slice("windows\0".as_bytes());
        push_little_endian(&mut material, volume as u64, 4);
        let index: u64 = ((index_high as u64) << 32u64) | index_low as u64;
        push_little_endian(&mut material, index, 8);
        proof {
            assert(little_endian(index).take(8) =~= little_endian(index));
        }
        PathIdentity { material }
    }

    /// The identity of an existing file that only its canonical path tells apart.
    pub fn other(canonical: &str) -> (identity: Self)
        ensures
            identity.material@ == encode_utf8("other\0"@) + encode_utf8(canonical@),
    {
        let mut material: Vec<u8> = Vec::new();
        material.extend_from_slice("other\0".as_bytes());
        material.extend_from_slice(canonical.as_bytes());
        PathIdentity { material }
    }

    /// The identity of a directory entry, whether or not it exists: its directory and its name.
    pub fn for_name(parent: &PathIdentity, name: EntryName<'_>) -> (identity: Self)
        ensures
            identity.material@ == entry_material(parent.material@, name),
    {
        let mut material: Vec<u8> = Vec::new();
        material.extend_from_slice("missing\0".as_bytes());
        material.extend_from_slice(parent.material.as_slice());
        material.push(0);
        material.extend_from_slice(normalize_name(name).as_slice());
        PathIdentity { material }
    }

    /// The name of the lock file that goes with the identity.
    pub fn lock_name(&self) -> (name: String)
        ensures
            name@ == digest::hex(digest::sha256(self.material@)) + ".lock"@,
    {
        let mut name = revision_of(self.material.as_slice());
        name.append(".lock");
        name
    }
}

/// In one directory, entries have one identity exactly when their names are told apart by nothing.
pub proof fn names_in_a_directory_stay_apart(parent: Seq<u8>, left: EntryName, right: EntryName)
    ensures
        entry_material(parent, left) == entry_material(parent, right) <==> normalized_name(left)
            == normalized_name(right),
{
    let start = (encode_utf8("missing\0"@) + parent).push(0);
    assert((start + normalized_name(left)).skip(start.len() as int) =~= normalized_name(left));
    assert((start + normalized_name(right)).skip(start.len() as int) =~= normalized_name(right));
}

/// The message about a directory that is not there.
pub fn missing_parent_message(path: &str) -> (message: String)
    ensures
        message@ == "Parent directory does not exist: "@ + path@,
{
    let mut message = "Parent directory does not exist: ".to_owned();
    message.append(path);
    message
}

/// The message about a lock that could not be taken.
pub fn lock_failed_message(path: &str, error: &str) -> (message: String)
    ensures
        message@ == "Cannot lock "@ + path@ + " for editing: "@ + error@
            + ". Retry after the other FastCtx process finishes."@,
{
    let mut message = "Cannot lock ".to_owned();
    message.append(path);
    message.append(" for editing: ");
    message.append(error);
    message.append(". Retry after the other FastCtx process finishes.");
    message
}

/// A lock that is in use.
#[derive(Debug)]
pub struct LockEntry {
    pub identity: Vec<u8>,
    pub lock: u64,
    pub holders: u64,
}

/// The locks that are in use, one for each identity.
#[derive(Debug)]
pub struct PathLocks {
    entries: Vec<LockEntry>,
    acquired: u64,
}

impl PathLocks {
    /// Whether the identity has this lock, with so many holders.
    pub closed spec fn holds(&self, identity: Seq<u8>, lock: u64, holders: nat) -> bool {
        exists|i: int| 0 <= i < self.entries@.len() && self.is_at(i, identity, lock, holders)
    }

    spec fn is_at(&self, i: int, identity: Seq<u8>, lock: u64, holders: nat) -> bool {
        &&& self.entries@[i].identity@ == identity
        &&& self.entries@[i].lock == lock
        &&& self.entries@[i].holders == holders
    }

    /// How often a lock was handed out.
    pub closed spec fn acquired(&self) -> nat {
        self.acquired as nat
    }

    /// One entry for each identity and each lock, and every lock has a holder.
    pub closed spec fn wf(&self) -> bool {
        &&& forall|i: int, j: int|
            0 <= i < j < self.entries@.len() ==> {
                &&& (#[trigger] self.entries@[i]).identity@ != (#[trigger] self.entries@[j]).identity@
                &&& self.entries@[i].lock != self.entries@[j].lock
            }
        &&& forall|i: int|
            0 <= i < self.entries@.len() ==> {
                &&& (#[trigger] self.entries@[i]).lock < self.acquired
                &&& 0 < self.entries@[i].holders <= self.acquired
            }
    }

    /// No lock in use.
    pub fn new() -> (locks: Self)
        ensures
            locks.wf(),
            locks.acquired() == 0,
            forall|identity: Seq<u8>, lock: u64, holders: nat|
                !(#[trigger] locks.holds(identity, lock, holders)),
    {
        PathLocks { entries: Vec::new(), acquired: 0 }
    }

    /// Hands out the lock of an identity: the one in use, or a new one.
    pub fn for_identity(&mut self, identity: &PathIdentity) -> (lock: u64)
        requires
            old(self).wf(),
            old(self).acquired() < u64::MAX,
        ensures
            final(self).wf(),
            final(self).acquired() == old(self).acquired() + 1,
            forall|used: u64, holders: nat|
                #[trigger] old(self).holds(identity.material@, used, holders) ==> {
                    &&& lock == used
                    &&& final(self).holds(identity.material@, used, holders + 1)
                },
            (forall|used: u64, holders: nat|
                !(#[trigger] old(self).holds(identity.material@, used, holders))) ==> {
                &&& final(self).holds(identity.material@, lock, 1)
                &&& forall|other: Seq<u8>, holders: nat|
                    !(#[trigger] old(self).holds(other, lock, holders))
            },
            forall|other: Seq<u8>, used: u64, holders: nat|
                other != identity.material@ ==> #[trigger] final(self).holds(other, used, holders)
                    == old(self).holds(other, used, holders),
    {
        let mut index: usize = 0;
        while index < self.entries.len()
            invariant
                index <= self.entries.len(),
                self.wf(),
                *self == *old(self),
                self.acquired < u64::MAX,
                forall|i: int|
                    0 <= i < index ==> (#[trigger] self.entries@[i]).identity@ != identity.material@,
            decreases self.entries.len() - index,
        {
            if same_bytes(self.entries[index].identity.as_slice(), identity.material.as_slice()) {
                let lock = self.entries[index].lock;
                let holders = self.entries[index].holders;
                let held = self.entries[index].identity.clone();
                let ghost before = *self;
                self.entries.set(
                    index,
                    LockEntry { identity: held, lock, holders: holders + 1 },
                );
                self.acquired = self.acquired + 1;
                proof {
                    assert(held@ =~= identity.material@);
                    assert forall|i: int| 0 <= i < self.entries@.len() && i != index implies (
                    #[trigger] self.entries@[i]) == before.entries@[i] by {}
                    assert(self.wf()) by {
                        assert forall|i: int, j: int| 0 <= i < j < self.entries@.len() implies {
                            &&& (#[trigger] self.entries@[i]).identity@ != (
                            #[trigger] self.entries@[j]).identity@
                            &&& self.entries@[i].lock != self.entries@[j].lock
                        } by {
                            assert(before.entries@[i].identity@ != before.entries@[j].identity@);
                        }
                        assert forall|i: int| 0 <= i < self.entries@.len() implies {
                            &&& (#[trigger] self.entries@[i]).lock < self.acquired
                            &&& 0 < self.entries@[i].holders <= self.acquired
                        } by {
                            assert(before.entries@[i].lock < before.acquired);
                        }
                    }
                    assert(before.is_at(index as int, identity.material@, lock, holders as nat));
                    assert(self.is_at(index as int, identity.material@, lock, holders as nat + 1));
                    assert forall|used: u64, count: nat| #[trigger]
                        before.holds(identity.material@, used, count) implies used == lock && count
                        == holders by {
                        let i = choose|i: int|
                            0 <= i < before.entries@.len() && before.is_at(
                                i,
                                identity.material@,
                                used,
                                count,
                            );
                        if i < index {
                            assert(before.entries@[i].identity@
                                != before.entries@[index as int].identity@);
                        } else if index < i {
                            assert(before.entries@[index as int].identity@
                                != before.entries@[i].identity@);
                        }
                    }
                    assert(before.holds(identity.material@, lock, holders as nat));
                    assert forall|other: Seq<u8>, used: u64, count: nat|
                        other != identity.material@ implies #[trigger] self.holds(
                        other,
                        used,
                        count,
                    ) == before.holds(other, used, count) by {
                        if self.holds(other, used, count) {
                            same_elsewhere(*self, before, index as int, other, used, count);
                        }
                        if before.holds(other, used, count) {
                            same_elsewhere(before, *self, index as int, other, used, count);
                        }
                    }
                }
                return lock;
            }
            index += 1;
        }
        let lock = self.acquired;
        let ghost before = *self;
        let copy = vstd::slice::slice_to_vec(identity.material.as_slice());
        self.entries.push(LockEntry { identity: copy, lock, holders: 1 });
        self.acquired = self.acquired + 1;
        proof {
            let last = before.entries@.len() as int;
            assert(copy@ =~= identity.material@);
            assert(self.is_at(last, identity.material@, lock, 1));
            assert forall|i: int| 0 <= i < last implies (#[trigger] self.entries@[i])
                == before.entries@[i] by {}
            assert forall|other: Seq<u8>, holders: nat| !(#[trigger] before.holds(
                other,
                lock,
                holders,
            )) by {
                if before.holds(other, lock, holders) {
                    let i = choose|i: int|
                        0 <= i < before.entries@.len() && before.is_at(i, other, lock, holders);
                    assert(before.entries@[i].lock < before.acquired);
                }
            }
            assert forall|used: u64, holders: nat| !(#[trigger] before.holds(
                identity.material@,
                used,
                holders,
            )) by {
                if before.holds(identity.material@, used, holders) {
                    let i = choose|i: int|
                        0 <= i < before.entries@.len() && before.is_at(
                            i,
                            identity.material@,
                            used,
                            holders,
                        );
                    assert(before.entries@[i].identity@ != identity.material@);
                }
            }
            assert forall|other: Seq<u8>, used: u64, count: nat|
                other != identity.material@ implies #[trigger] self.holds(other, used, count)
                == before.holds(other, used, count) by {
                if self.holds(other, used, count) {
                    let i = choose|i: int|
                        0 <= i < self.entries@.len() && self.is_at(i, other, used, count);
                    assert(before.is_at(i, other, used, count));
                }
                if before.holds(other, used, count) {
                    let i = choose|i: int|
                        0 <= i < before.entries@.len() && before.is_at(i, other, used, count);
                    assert(self.is_at(i, other, used, count));
                }
            }
        }
        lock
    }

    /// Gives one hold of an identity's lock back; with the last one the lock is gone.
    pub fn release(&mut self, identity: &PathIdentity)
        requires
            old(self).wf(),
        ensures
            final(self).wf(),
            final(self).acquired() == old(self).acquired(),
            forall|used: u64, holders: nat|
                #[trigger] old(self).holds(identity.material@, used, holders) ==> if holders > 1 {
                    final(self).holds(identity.material@, used, (holders - 1) as nat)
                } else {
                    forall|other: Seq<u8>, count: nat|
                        !(#[trigger] final(self).holds(other, used, count))
                },
            forall|other: Seq<u8>, used: u64, holders: nat|
                other != identity.material@ ==> #[trigger] final(self).holds(other, used, holders)
                    == old(self).holds(other, used, holders),
    {
        let mut index: usize = 0;
        while index < self.entries.len()
            invariant
                index <= self.entries.len(),
                self.wf(),
                *self == *old(self),
                forall|i: int|
                    0 <= i < index ==> (#[trigger] self.entries@[i]).identity@ != identity.material@,
            decreases self.entries.len() - index,
        {
            if same_bytes(self.entries[index].identity.as_slice(), identity.material.as_slice()) {
                let lock = self.entries[index].lock;
                let holders = self.entries[index].holders;
                let ghost before = *self;
                proof {
                    assert forall|used: u64, count: nat| #[trigger]
                        before.holds(identity.material@, used, count) implies used == lock && count
                        == holders by {
                        let i = choose|i: int|
                            0 <= i < before.entries@.len() && before.is_at(
                                i,
                                identity.material@,
                                used,
                                count,
                            );
                        if i < index {
                            assert(before.entries@[i].identity@
                                != before.entries@[index as int].identity@);
                        } else if index < i {
                            assert(before.entries@[index as int].identity@
                                != before.entries@[i].identity@);
                        }
                    }
                }
                if holders > 1 {
                    let held = self.entries[index].identity.clone();
                    self.entries.set(
                        index,
                        LockEntry { identity: held, lock, holders: holders - 1 },
                    );
                    proof {
                        assert(held@ =~= identity.material@);
                        assert forall|i: int| 0 <= i < self.entries@.len() && i != index implies (
                        #[trigger] self.entries@[i]) == before.entries@[i] by {}
                        assert(self.wf()) by {
                            assert forall|i: int, j: int| 0 <= i < j < self.entries@.len() implies {
                                &&& (#[trigger] self.entries@[i]).identity@ != (
                                #[trigger] self.entries@[j]).identity@
                                &&& self.entries@[i].lock != self.entries@[j].lock
                            } by {
                                assert(before.entries@[i].identity@
                                    != before.entries@[j].identity@);
                            }
                            assert forall|i: int| 0 <= i < self.entries@.len() implies {
                                &&& (#[trigger] self.entries@[i]).lock < self.acquired
                                &&& 0 < self.entries@[i].holders <= self.acquired
                            } by {
                                assert(before.entries@[i].lock < before.acquired);
                            }
                        }
                        assert(self.is_at(
                            index as int,
                            identity.material@,
                            lock,
                            (holders - 1) as nat,
                        ));
                        assert forall|other: Seq<u8>, used: u64, count: nat|
                            other != identity.material@ implies #[trigger] self.holds(
                            other,
                            used,
                            count,
                        ) == before.holds(other, used, count) by {
                            if self.holds(other, used, count) {
                                same_elsewhere(*self, before, index as int, other, used, count);
                            }
                            if before.holds(other, used, count) {
                                same_elsewhere(before, *self, index as int, other, used, count);
                            }
                        }
                    }
                } else {
                    self.entries.remove(index);
                    proof {
                        let at = index as int;
                        assert forall|i: int| 0 <= i < self.entries@.len() implies (
                        #[trigger] self.entries@[i]) == before.entries@[if i < at {
                            i
                        } else {
                            i + 1
                        }] by {}
                        assert(self.wf()) by {
                            assert forall|i: int, j: int| 0 <= i < j < self.entries@.len() implies {
                                &&& (#[trigger] self.entries@[i]).identity@ != (
                                #[trigger] self.entries@[j]).identity@
                                &&& self.entries@[i].lock != self.entries@[j].lock
                            } by {
                                let left = if i < at {
                                    i
                                } else {
                                    i + 1
                                };
                                let right = if j < at {
                                    j
                                } else {
                                    j + 1
                                };
                                assert(before.entries@[left].identity@
                                    != before.entries@[right].identity@);
                            }
                        }
                        assert forall|other: Seq<u8>, count: nat| !(#[trigger] self.holds(
                            other,
                            lock,
                            count,
                        )) by {
                            if self.holds(other, lock, count) {
                                let i = choose|i: int|
                                    0 <= i < self.entries@.len() && self.is_at(
                                        i,
                                        other,
                                        lock,
                                        count,
                                    );
                                let left = if i < at {
                                    i
                                } else {
                                    i + 1
                                };
                                if left < at {
                                    assert(before.entries@[left].lock != before.entries@[at].lock);
                                } else {
                                    assert(before.entries@[at].lock != before.entries@[left].lock);
                                }
                            }
                        }
                        assert forall|other: Seq<u8>, used: u64, count: nat|
                            other != identity.material@ implies #[trigger] self.holds(
                            other,
                            used,
                            count,
                        ) == before.holds(other, used, count) by {
                            if self.holds(other, used, count) {
                                let i = choose|i: int|
                                    0 <= i < self.entries@.len() && self.is_at(
                                        i,
                                        other,
                                        used,
                                        count,
                                    );
                                let left = if i < at {
                                    i
                                } else {
                                    i + 1
                                };
                                assert(before.is_at(left, other, used, count));
                            }
                            if before.holds(other, used, count) {
                                let i = choose|i: int|
                                    0 <= i < before.entries@.len() && before.is_at(
                                        i,
                                        other,
                                        used,
                                        count,
                                    );
                                let left = if i < at {
                                    i
                                } else {
                                    i - 1
                                };
                                assert(i != at);
                                assert(self.entries@[left] == before.entries@[i]);
                                assert(self.is_at(left, other, used, count));
                            }
                        }
                    }
                }
                return ;
            }
            index += 1;
        }
        proof {
            assert forall|used: u64, holders: nat| !(#[trigger] old(self).holds(
                identity.material@,
                used,
                holders,
            )) by {
                if self.holds(identity.material@, used, holders) {
                    let i = choose|i: int|
                        0 <= i < self.entries@.len() && self.is_at(
                            i,
                            identity.material@,
                            used,
                            holders,
                        );
                    assert(self.entries@[i].identity@ != identity.material@);
                }
            }
        }
    }
}

proof fn same_elsewhere(
    left: PathLocks,
    right: PathLocks,
    at: int,
    identity: Seq<u8>,
    lock: u64,
    holders: nat,
)
    requires
        left.entries@.len() == right.entries@.len(),
        0 <= at < left.entries@.len(),
        forall|i: int|
            0 <= i < left.entries@.len() && i != at ==> (#[trigger] left.entries@[i])
                == right.entries@[i],
        left.entries@[at].identity@ != identity,
        left.holds(identity, lock, holders),
    ensures
        right.holds(identity, lock, holders),
{
    let i = choose|i: int|
        0 <= i < left.entries@.len() && left.is_at(i, identity, lock, holders);
    assert(left.entries@[i] == right.entries@[i]);
    assert(right.is_at(i, identity, lock, holders));
}

/// A lock belongs to one identity, and an identity has one lock with one count of holders.
pub proof fn a_lock_belongs_to_one_identity(
    locks: PathLocks,
    left: Seq<u8>,
    right: Seq<u8>,
    lock: u64,
    other: u64,
    holders: nat,
    others: nat,
)
    requires
        locks.wf(),
        locks.holds(left, lock, holders),
        locks.holds(right, other, others),
    ensures
        left == right <==> lock == other,
        left == right ==> holders == others,
        holders > 0,
{
    let i = choose|i: int|
        0 <= i < locks.entries@.len() && locks.is_at(i, left, lock, holders);
    let j = choose|j: int|
        0 <= j < locks.entries@.len() && locks.is_at(j, right, other, others);
    if i < j {
        assert(locks.entries@[i].lock != locks.entries@[j].lock);
    } else if j < i {
        assert(locks.entries@[j].lock != locks.entries@[i].lock);
    }
}

/// The bytes of a number give the number back, so that different numbers have different bytes.
pub proof fn bytes_give_the_number_back(value: u64)
    ensures
        ({
            let bytes = little_endian(value);
            &&& bytes.len() == 8
            &&& value == bytes[0] + 0x100 * bytes[1] + 0x1_0000 * bytes[2] + 0x100_0000 * bytes[3]
                + 0x1_0000_0000 * bytes[4] + 0x100_0000_0000 * bytes[5] + 0x1_0000_0000_0000
                * bytes[6] + 0x100_0000_0000_0000 * bytes[7]
        }),
{
    assert(value == (value & 0xff) + 0x100 * ((value >> 8) & 0xff) + 0x1_0000 * ((value >> 16)
        & 0xff) + 0x100_0000 * ((value >> 24) & 0xff) + 0x1_0000_0000 * ((value >> 32) & 0xff)
        + 0x100_0000_0000 * ((value >> 40) & 0xff) + 0x1_0000_0000_0000 * ((value >> 48) & 0xff)
        + 0x100_0000_0000_0000 * ((value >> 56) & 0xff)) by (bit_vector);
    assert((value & 0xff) < 0x100 && ((value >> 8) & 0xff) < 0x100 && ((value >> 16) & 0xff) < 0x100
        && ((value >> 24) & 0xff) < 0x100 && ((value >> 32) & 0xff) < 0x100 && ((value >> 40)
        & 0xff) < 0x100 && ((value >> 48) & 0xff) < 0x100 && ((value >> 56) & 0xff) < 0x100)
        by (bit_vector);
}

} // verus!
