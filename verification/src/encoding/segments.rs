//! Segment-wise consistency of a legacy decoding: every line or block with enough evidence must
//! agree with the encoding of the whole.

use crate::encoding::codec;
use crate::encoding::codec::{guess_encoding, is_single_byte};
use crate::encoding::legacy;
use crate::encoding::legacy::hard_validate;
use crate::encoding::stats;
use crate::encoding::utf8;
use crate::encoding::utf8::Utf8Evidence;
use crate::operation::{WorkCheckpoint, WorkStage, WorkStop};
use crate::text::{same_bytes, same_text};
use std::collections::VecDeque;
use vstd::prelude::*;
use vstd::slice::{slice_subrange, slice_to_vec};
use vstd::utf8::*;

verus! {

/// Non-ASCII bytes from which a legacy encoding can be judged.
pub const LEGACY_EVIDENCE_BYTES: usize = 32;

/// Length at which a segment is inspected although its line has not ended.
pub const LEGACY_SEGMENT_MAX_BYTES: usize = 4096;

/// Shortest run that counts as clearly UTF-8.
pub const UTF8_SEGMENT_MIN_BYTES: usize = 32;

/// Non-ASCII bytes that such a run must hold.
pub const UTF8_SEGMENT_MIN_NON_ASCII_BYTES: usize = 8;

/// Segments whose answers are remembered.
pub const SEGMENT_CACHE_CAPACITY: usize = 256;

/// Consumed bytes from which the pending buffer is compacted in any case.
pub const SEGMENT_COMPACT_THRESHOLD: usize = 16384;

/// The number of bytes beyond ASCII.
pub open spec fn non_ascii_count(bytes: Seq<u8>) -> nat
    decreases bytes.len(),
{
    if bytes.len() == 0 {
        0
    } else {
        non_ascii_count(bytes.drop_last()) + if bytes.last() >= 0x80 {
            1nat
        } else {
            0nat
        }
    }
}

/// Counting distributes over concatenation.
pub proof fn non_ascii_count_concat(left: Seq<u8>, right: Seq<u8>)
    ensures
        non_ascii_count(left + right) == non_ascii_count(left) + non_ascii_count(right),
        non_ascii_count(right) <= right.len(),
    decreases right.len(),
{
    if right.len() == 0 {
        assert(left + right =~= left);
    } else {
        non_ascii_count_concat(left, right.drop_last());
        assert((left + right).drop_last() =~= left + right.drop_last());
        assert((left + right).last() == right.last());
    }
}

/// Counts the bytes beyond ASCII.
pub fn count_non_ascii(bytes: &[u8]) -> (count: usize)
    ensures
        count == non_ascii_count(bytes@),
        count <= bytes.len(),
{
    let mut count: usize = 0;
    let mut index: usize = 0;
    while index < bytes.len()
        invariant
            index <= bytes.len(),
            count == non_ascii_count(bytes@.take(index as int)),
            count <= index,
        decreases bytes.len() - index,
    {
        assert(bytes@.take(index + 1).drop_last() =~= bytes@.take(index as int));
        if bytes[index] >= 0x80 {
            count += 1;
        }
        index += 1;
    }
    assert(bytes@.take(bytes@.len() as int) =~= bytes@);
    count
}

/// Whether the bytes are clearly UTF-8 and more than ASCII.
pub open spec fn strong_utf8(bytes: Seq<u8>) -> bool {
    &&& bytes.len() >= UTF8_SEGMENT_MIN_BYTES
    &&& non_ascii_count(bytes) >= UTF8_SEGMENT_MIN_NON_ASCII_BYTES
    &&& valid_utf8(bytes)
}

/// Whether the bytes say something about their encoding.
pub open spec fn has_evidence(bytes: Seq<u8>) -> bool {
    non_ascii_count(bytes) >= LEGACY_EVIDENCE_BYTES || strong_utf8(bytes)
}

/// Whether a segment speaks against the encoding of the whole: it is clearly UTF-8, or the
/// detector nominates another multi-byte encoding that the segment is trusted text in.
pub open spec fn disagrees(whole: Seq<char>, bytes: Seq<u8>) -> bool {
    let guess = codec::guessed_encoding(bytes);
    strong_utf8(bytes) || (guess != whole && !codec::single_byte(guess) && legacy::hard_valid(
        guess,
        bytes,
    ))
}

/// Outcome of a segment scan.
#[derive(Clone, Copy, Debug, PartialEq, Eq, Structural)]
pub enum SegmentScan {
    /// Every segment seen agrees.
    Continue,
    /// A segment is in another encoding.
    Inconsistent,
    /// A segment is not text in the encoding of the whole.
    CandidateInvalid,
}

/// The outcome for one segment that ended.
pub open spec fn inspected(whole: Seq<char>, pending: Seq<u8>) -> SegmentScan {
    if !has_evidence(pending) {
        SegmentScan::Continue
    } else if !legacy::hard_valid(whole, pending) {
        SegmentScan::CandidateInvalid
    } else if disagrees(whole, pending) {
        SegmentScan::Inconsistent
    } else {
        SegmentScan::Continue
    }
}

/// The longest trusted prefix that leaves out `trim` to four bytes.
pub open spec fn aligned_prefix(whole: Seq<char>, pending: Seq<u8>, trim: nat) -> Option<nat>
    decreases 5 - trim,
{
    if trim > 4 {
        None
    } else if trim <= pending.len() && legacy::hard_valid(whole, pending.take(pending.len() - trim)) {
        Some((pending.len() - trim) as nat)
    } else {
        aligned_prefix(whole, pending, trim + 1)
    }
}

/// The segment that is pending after a byte that made it `grown`, or the final outcome. A line
/// end closes a segment with evidence; a segment that grew to the limit is cut at its longest
/// trusted prefix.
pub open spec fn next_pending(whole: Seq<char>, grown: Seq<u8>) -> Result<Seq<u8>, SegmentScan> {
    if grown.last() == 0x0A && has_evidence(grown) {
        if inspected(whole, grown) is Continue {
            Ok(Seq::empty())
        } else {
            Err(inspected(whole, grown))
        }
    } else if grown.len() >= LEGACY_SEGMENT_MAX_BYTES {
        match aligned_prefix(whole, grown, 0) {
            None => Err(SegmentScan::CandidateInvalid),
            Some(end) => if disagrees(whole, grown.take(end as int)) {
                Err(SegmentScan::Inconsistent)
            } else {
                Ok(grown.skip(end as int))
            },
        }
    } else {
        Ok(grown)
    }
}

/// The segment that is pending after `input`, or the final outcome.
pub open spec fn scan_bytes(whole: Seq<char>, pending: Seq<u8>, input: Seq<u8>) -> Result<
    Seq<u8>,
    SegmentScan,
>
    decreases input.len(),
{
    if input.len() == 0 {
        Ok(pending)
    } else {
        match scan_bytes(whole, pending, input.drop_last()) {
            Ok(before) => next_pending(whole, before.push(input.last())),
            Err(outcome) => Err(outcome),
        }
    }
}

/// The outcome of scanning a whole content.
pub open spec fn segment_scan(whole: Seq<char>, content: Seq<u8>) -> SegmentScan {
    match scan_bytes(whole, Seq::empty(), content) {
        Ok(pending) => inspected(whole, pending),
        Err(outcome) => outcome,
    }
}

/// Scanning a concatenation is scanning its parts in turn.
pub proof fn scan_bytes_concat(whole: Seq<char>, pending: Seq<u8>, left: Seq<u8>, right: Seq<u8>)
    ensures
        scan_bytes(whole, pending, left + right) == match scan_bytes(whole, pending, left) {
            Ok(before) => scan_bytes(whole, before, right),
            Err(outcome) => Err(outcome),
        },
    decreases right.len(),
{
    if right.len() == 0 {
        assert(left + right =~= left);
    } else {
        scan_bytes_concat(whole, pending, left, right.drop_last());
        assert((left + right).drop_last() =~= left + right.drop_last());
        assert((left + right).last() == right.last());
    }
}

proof fn scanned_one_more(
    cache: CacheSpec,
    whole: Seq<char>,
    pending: Seq<u8>,
    input: Seq<u8>,
    at: int,
)
    requires
        0 <= at < input.len(),
        scan_bytes(whole, pending, input.take(at)) is Ok,
    ensures
        cache.scanned(whole, pending, input.take(at + 1)) == cache.scanned(
            whole,
            pending,
            input.take(at),
        ).advanced(whole, scan_bytes(whole, pending, input.take(at))->Ok_0.push(input[at])),
{
    assert(input.take(at + 1).drop_last() =~= input.take(at));
    assert(input.take(at + 1).last() == input[at]);
}

proof fn scan_one_more(whole: Seq<char>, pending: Seq<u8>, input: Seq<u8>, at: int)
    requires
        0 <= at < input.len(),
        scan_bytes(whole, pending, input.take(at)) is Ok,
    ensures
        scan_bytes(whole, pending, input.take(at + 1)) == next_pending(
            whole,
            scan_bytes(whole, pending, input.take(at))->Ok_0.push(input[at]),
        ),
{
    assert(input.take(at + 1).drop_last() =~= input.take(at));
    assert(input.take(at + 1).last() == input[at]);
}

/// Running evidence of the pending segment.
#[derive(Clone, Copy, Debug)]
pub struct SegmentEvidence {
    len: usize,
    non_ascii: usize,
    utf8: Utf8Evidence,
}

impl SegmentEvidence {
    /// Whether this is the evidence of `bytes`.
    pub closed spec fn describes(&self, bytes: Seq<u8>) -> bool {
        &&& self.len == stats::saturated(bytes.len())
        &&& self.non_ascii == stats::saturated(non_ascii_count(bytes))
        &&& self.utf8.mark() == utf8::utf8_run(bytes)
    }

    /// The evidence of no bytes.
    pub fn new() -> (evidence: Self)
        ensures
            evidence.describes(Seq::empty()),
    {
        SegmentEvidence { len: 0, non_ascii: 0, utf8: Utf8Evidence::new() }
    }

    /// The evidence of a byte slice.
    pub fn from_bytes(bytes: &[u8]) -> (evidence: Self)
        ensures
            evidence.describes(bytes@),
    {
        let mut evidence = SegmentEvidence::new();
        let mut index: usize = 0;
        assert(bytes@.take(0) =~= Seq::<u8>::empty());
        while index < bytes.len()
            invariant
                index <= bytes.len(),
                evidence.describes(bytes@.take(index as int)),
            decreases bytes.len() - index,
        {
            evidence.push(bytes[index]);
            assert(bytes@.take(index as int).push(bytes@[index as int]) =~= bytes@.take(index + 1));
            index += 1;
        }
        assert(bytes@.take(bytes@.len() as int) =~= bytes@);
        evidence
    }

    /// Observes one byte.
    pub fn push(&mut self, byte: u8)
        ensures
            forall|seen: Seq<u8>|
                old(self).describes(seen) ==> #[trigger] final(self).describes(seen.push(byte)),
    {
        let ghost before = *self;
        self.len = self.len.saturating_add(1);
        if byte >= 0x80 {
            self.non_ascii = self.non_ascii.saturating_add(1);
        }
        self.utf8.push(byte);
        proof {
            assert forall|seen: Seq<u8>| before.describes(seen) implies #[trigger] self.describes(
                seen.push(byte),
            ) by {
                assert(seen.push(byte).drop_last() =~= seen);
                assert(seen.push(byte).last() == byte);
            }
        }
    }

    /// Whether the bytes say something about their encoding.
    pub fn has_evidence(&self) -> (result: bool)
        ensures
            forall|bytes: Seq<u8>| #[trigger] self.describes(bytes) ==> result == has_evidence(bytes),
    {
        proof {
            assert forall|bytes: Seq<u8>| #[trigger] self.describes(bytes) implies (
            self.utf8.mark() is Boundary <==> valid_utf8(bytes)) by {
                utf8::utf8_boundary_is_validity(bytes);
            }
        }
        self.non_ascii >= LEGACY_EVIDENCE_BYTES || self.is_strong_utf8()
    }

    /// Whether the bytes are clearly UTF-8 and more than ASCII.
    pub fn is_strong_utf8(&self) -> (result: bool)
        ensures
            forall|bytes: Seq<u8>| #[trigger] self.describes(bytes) ==> result == strong_utf8(bytes),
    {
        proof {
            assert forall|bytes: Seq<u8>| #[trigger] self.describes(bytes) implies (
            self.utf8.mark() is Boundary <==> valid_utf8(bytes)) by {
                utf8::utf8_boundary_is_validity(bytes);
            }
        }
        self.len >= UTF8_SEGMENT_MIN_BYTES && self.non_ascii >= UTF8_SEGMENT_MIN_NON_ASCII_BYTES
            && self.utf8.is_complete_and_valid()
    }
}

/// A hash of a segment, which finds a remembered one quickly; it never decides alone.
#[derive(Clone, Copy, Debug, PartialEq, Eq, Structural)]
pub struct SegmentKey {
    pub high: u64,
    pub low: u64,
    pub len: usize,
}

/// The two hash words of a byte sequence.
pub open spec fn key_words(bytes: Seq<u8>) -> (u64, u64)
    decreases bytes.len(),
{
    if bytes.len() == 0 {
        (0xCBF2_9CE4_8422_2325, 0x9E37_79B9_7F4A_7C15)
    } else {
        let (high, low) = key_words(bytes.drop_last());
        let byte = bytes.last() as u64;
        let high = (high ^ byte).wrapping_mul(0x0000_0100_0000_01B3);
        let low = low ^ byte.wrapping_add((high << 17) | (high >> 47));
        (high, ((low << 13) | (low >> 51)).wrapping_mul(0xC2B2_AE3D_27D4_EB4F))
    }
}

/// The hash of a segment.
pub open spec fn key_of(bytes: Seq<u8>) -> SegmentKey {
    SegmentKey { high: key_words(bytes).0, low: key_words(bytes).1, len: bytes.len() as usize }
}

/// Hashes a segment.
pub fn segment_key(bytes: &[u8]) -> (key: SegmentKey)
    ensures
        key == key_of(bytes@),
{
    let mut high: u64 = 0xCBF2_9CE4_8422_2325;
    let mut low: u64 = 0x9E37_79B9_7F4A_7C15;
    let mut index: usize = 0;
    while index < bytes.len()
        invariant
            index <= bytes.len(),
            (high, low) == key_words(bytes@.take(index as int)),
        decreases bytes.len() - index,
    {
        let byte: u64 = bytes[index] as u64;
        assert(bytes@.take(index + 1).drop_last() =~= bytes@.take(index as int));
        high = (high ^ byte).wrapping_mul(0x0000_0100_0000_01B3);
        low = low ^ byte.wrapping_add((high << 17) | (high >> 47));
        low = ((low << 13) | (low >> 51)).wrapping_mul(0xC2B2_AE3D_27D4_EB4F);
        index += 1;
    }
    assert(bytes@.take(bytes@.len() as int) =~= bytes@);
    SegmentKey { high, low, len: bytes.len() }
}

/// What is remembered of one segment.
pub struct SegmentCacheEntry {
    pub key: SegmentKey,
    pub bytes: Vec<u8>,
    pub detector_guess: Option<&'static str>,
    pub validations: Vec<(&'static str, bool)>,
}

/// The mathematical value of a [`SegmentCacheEntry`].
#[verifier::ext_equal]
pub struct EntrySpec {
    pub key: SegmentKey,
    pub bytes: Seq<u8>,
    pub detector_guess: Option<Seq<char>>,
    pub validations: Seq<(Seq<char>, bool)>,
}

impl View for SegmentCacheEntry {
    type V = EntrySpec;

    open spec fn view(&self) -> EntrySpec {
        EntrySpec {
            key: self.key,
            bytes: self.bytes@,
            detector_guess: match self.detector_guess {
                Some(guess) => Some(guess@),
                None => None,
            },
            validations: self.validations@.map(
                |i: int, validation: (&'static str, bool)| (validation.0@, validation.1),
            ),
        }
    }
}

/// Entries as mathematical values.
pub open spec fn entry_views(entries: Seq<SegmentCacheEntry>) -> Seq<EntrySpec> {
    entries.map(|i: int, entry: SegmentCacheEntry| entry@)
}

/// The first answer about a name among validations, from a position on.
pub open spec fn first_answer(validations: Seq<(Seq<char>, bool)>, name: Seq<char>, from: int) -> Option<
    bool,
>
    decreases validations.len() - from,
{
    if from < 0 || from >= validations.len() {
        None
    } else if validations[from].0 == name {
        Some(validations[from].1)
    } else {
        first_answer(validations, name, from + 1)
    }
}

impl EntrySpec {
    /// The entry once a name was validated: an answer that was not there is added.
    pub open spec fn validated(self, name: Seq<char>) -> EntrySpec {
        if first_answer(self.validations, name, 0) is Some {
            self
        } else {
            EntrySpec {
                validations: self.validations.push((name, legacy::hard_valid(name, self.bytes))),
                ..self
            }
        }
    }

    /// The entry once its encoding was guessed.
    pub open spec fn guessed(self) -> EntrySpec {
        if self.detector_guess is Some {
            self
        } else {
            EntrySpec { detector_guess: Some(codec::guessed_encoding(self.bytes)), ..self }
        }
    }

    /// The entry once it was asked whether it disagrees with the encoding of the whole.
    pub open spec fn compared(self, whole: Seq<char>) -> EntrySpec {
        let guess = codec::guessed_encoding(self.bytes);
        if guess == whole || codec::single_byte(guess) {
            self.guessed()
        } else {
            self.guessed().validated(guess)
        }
    }
}

/// Entries with one more at the end; the first one leaves when there are too many.
pub open spec fn restored(entries: Seq<EntrySpec>, entry: EntrySpec) -> Seq<EntrySpec> {
    let grown = entries.push(entry);
    if grown.len() > SEGMENT_CACHE_CAPACITY {
        grown.drop_first()
    } else {
        grown
    }
}

/// The mathematical value of a [`SegmentCache`].
#[verifier::ext_equal]
pub struct CacheSpec {
    pub entries: Seq<EntrySpec>,
    /// How many detectors were consulted so far.
    pub consulted: nat,
}

/// A memory of nothing.
pub open spec fn blank_cache() -> CacheSpec {
    CacheSpec { entries: Seq::empty(), consulted: 0 }
}

/// Whether an entry is the one for `bytes`.
pub open spec fn is_entry_of(entry: EntrySpec, bytes: Seq<u8>) -> bool {
    entry.bytes == bytes && entry.key == key_of(bytes)
}

/// The first entry for `bytes` from position `from` on.
pub open spec fn first_match(entries: Seq<EntrySpec>, bytes: Seq<u8>, from: int) -> Option<int>
    decreases entries.len() - from,
{
    if from < 0 || from >= entries.len() {
        None
    } else if is_entry_of(entries[from], bytes) {
        Some(from)
    } else {
        first_match(entries, bytes, from + 1)
    }
}

impl CacheSpec {
    /// What is remembered of `bytes`; nothing, where no entry is theirs.
    pub open spec fn entry_of(self, bytes: Seq<u8>) -> EntrySpec {
        match first_match(self.entries, bytes, 0) {
            Some(i) => self.entries[i],
            None => EntrySpec {
                key: key_of(bytes),
                bytes,
                detector_guess: None,
                validations: Seq::empty(),
            },
        }
    }

    /// What is remembered of all else.
    pub open spec fn others(self, bytes: Seq<u8>) -> Seq<EntrySpec> {
        match first_match(self.entries, bytes, 0) {
            Some(i) => self.entries.remove(i),
            None => self.entries,
        }
    }

    /// The memory once a segment was validated under a name.
    pub open spec fn validated(self, name: Seq<char>, bytes: Seq<u8>) -> CacheSpec {
        CacheSpec {
            entries: restored(self.others(bytes), self.entry_of(bytes).validated(name)),
            ..self
        }
    }

    /// The memory once a segment was held against the encoding of the whole. A detector is
    /// consulted unless its guess is remembered or the segment is clearly UTF-8.
    pub open spec fn compared(self, whole: Seq<char>, bytes: Seq<u8>) -> CacheSpec {
        if strong_utf8(bytes) {
            self
        } else {
            CacheSpec {
                entries: restored(self.others(bytes), self.entry_of(bytes).compared(whole)),
                consulted: if self.entry_of(bytes).detector_guess is Some {
                    self.consulted
                } else {
                    stats::saturated(self.consulted + 1)
                },
            }
        }
    }

    /// The memory once a segment that ended was inspected.
    pub open spec fn inspected(self, whole: Seq<char>, pending: Seq<u8>) -> CacheSpec {
        if !has_evidence(pending) {
            self
        } else if !legacy::hard_valid(whole, pending) {
            self.validated(whole, pending)
        } else {
            self.validated(whole, pending).compared(whole, pending)
        }
    }

    /// The memory once the longest trusted prefix was looked for that leaves out `trim` to four
    /// bytes.
    pub open spec fn aligned(self, whole: Seq<char>, pending: Seq<u8>, trim: nat) -> CacheSpec
        decreases 5 - trim,
    {
        if trim > 4 {
            self
        } else if trim > pending.len() {
            self.aligned(whole, pending, trim + 1)
        } else {
            let prefix = pending.take(pending.len() - trim);
            if legacy::hard_valid(whole, prefix) {
                self.validated(whole, prefix)
            } else {
                self.validated(whole, prefix).aligned(whole, pending, trim + 1)
            }
        }
    }

    /// The memory after a byte that made the pending segment `grown`.
    pub open spec fn advanced(self, whole: Seq<char>, grown: Seq<u8>) -> CacheSpec {
        if grown.last() == 0x0A && has_evidence(grown) {
            self.inspected(whole, grown)
        } else if grown.len() >= LEGACY_SEGMENT_MAX_BYTES {
            match aligned_prefix(whole, grown, 0) {
                None => self.aligned(whole, grown, 0),
                Some(end) => self.aligned(whole, grown, 0).compared(whole, grown.take(end as int)),
            }
        } else {
            self
        }
    }

    /// The memory after `input`, up to the byte that settles the outcome.
    pub open spec fn scanned(self, whole: Seq<char>, pending: Seq<u8>, input: Seq<u8>) -> CacheSpec
        decreases input.len(),
    {
        if input.len() == 0 {
            self
        } else {
            let before = self.scanned(whole, pending, input.drop_last());
            match scan_bytes(whole, pending, input.drop_last()) {
                Ok(open) => before.advanced(whole, open.push(input.last())),
                Err(_) => before,
            }
        }
    }
}

/// How many detectors the scan of a whole content consults.
pub open spec fn consulted_detectors(whole: Seq<char>, content: Seq<u8>) -> nat {
    let cache = blank_cache().scanned(whole, Seq::empty(), content);
    match scan_bytes(whole, Seq::empty(), content) {
        Ok(pending) => cache.inspected(whole, pending).consulted,
        Err(_) => cache.consulted,
    }
}

/// Scanning a concatenation is scanning its parts in turn.
pub proof fn scanned_concat(
    cache: CacheSpec,
    whole: Seq<char>,
    pending: Seq<u8>,
    left: Seq<u8>,
    right: Seq<u8>,
)
    ensures
        cache.scanned(whole, pending, left + right) == match scan_bytes(whole, pending, left) {
            Ok(before) => cache.scanned(whole, pending, left).scanned(whole, before, right),
            Err(_) => cache.scanned(whole, pending, left),
        },
    decreases right.len(),
{
    if right.len() == 0 {
        assert(left + right =~= left);
    } else {
        scanned_concat(cache, whole, pending, left, right.drop_last());
        scan_bytes_concat(whole, pending, left, right.drop_last());
        assert((left + right).drop_last() =~= left + right.drop_last());
        assert((left + right).last() == right.last());
    }
}

/// The bytes of entries.
pub open spec fn known(entries: Seq<EntrySpec>) -> Seq<Seq<u8>> {
    entries.map(|i: int, entry: EntrySpec| entry.bytes)
}

/// Whether a memory holds one entry for each of some segments, each with the guess of the one
/// detector that was consulted for it.
pub open spec fn remembers(cache: CacheSpec, segments: Seq<Seq<u8>>) -> bool {
    &&& known(cache.entries).no_duplicates()
    &&& known(cache.entries).to_set() == segments.to_set()
    &&& cache.consulted == cache.entries.len()
    &&& forall|i: int|
        0 <= i < cache.entries.len() ==> {
            &&& (#[trigger] cache.entries[i]).detector_guess is Some
            &&& cache.entries[i].key == key_of(cache.entries[i].bytes)
        }
}

/// Whether a segment is one line that is inspected and agrees with the encoding of the whole.
pub open spec fn agreeing_line(whole: Seq<char>, line: Seq<u8>) -> bool {
    &&& 0 < line.len() <= LEGACY_SEGMENT_MAX_BYTES
    &&& line.last() == 0x0A
    &&& forall|i: int| 0 <= i < line.len() - 1 ==> (#[trigger] line[i]) != 0x0A
    &&& has_evidence(line)
    &&& inspected(whole, line) is Continue
}

/// Lines one after the other.
pub open spec fn joined_lines(lines: Seq<Seq<u8>>) -> Seq<u8>
    decreases lines.len(),
{
    if lines.len() == 0 {
        Seq::empty()
    } else {
        joined_lines(lines.drop_last()) + lines.last()
    }
}

proof fn match_found(entries: Seq<EntrySpec>, bytes: Seq<u8>, from: int)
    requires
        0 <= from <= entries.len(),
    ensures
        match first_match(entries, bytes, from) {
            Some(i) => from <= i < entries.len() && is_entry_of(entries[i], bytes),
            None => forall|i: int|
                from <= i < entries.len() ==> !is_entry_of(#[trigger] entries[i], bytes),
        },
    decreases entries.len() - from,
{
    if from < entries.len() && !is_entry_of(entries[from], bytes) {
        match_found(entries, bytes, from + 1);
    }
}

/// Without the entry of a segment, the others are left, each once.
proof fn others_lack(cache: CacheSpec, bytes: Seq<u8>)
    requires
        known(cache.entries).no_duplicates(),
        forall|i: int|
            0 <= i < cache.entries.len() ==> (#[trigger] cache.entries[i]).key == key_of(
                cache.entries[i].bytes,
            ),
    ensures
        known(cache.others(bytes)).no_duplicates(),
        known(cache.others(bytes)).to_set() == known(cache.entries).to_set().remove(bytes),
        cache.others(bytes).len() == if known(cache.entries).contains(bytes) {
            cache.entries.len() - 1
        } else {
            cache.entries.len() as int
        },
        cache.entry_of(bytes).bytes == bytes,
        cache.entry_of(bytes).key == key_of(bytes),
        known(cache.entries).contains(bytes) ==> cache.entries.contains(cache.entry_of(bytes)),
        !known(cache.entries).contains(bytes) ==> cache.entry_of(bytes).detector_guess is None,
        forall|i: int|
            0 <= i < cache.others(bytes).len() ==> cache.entries.contains(
                #[trigger] cache.others(bytes)[i],
            ),
{
    let entries = cache.entries;
    let others = cache.others(bytes);
    match_found(entries, bytes, 0);
    match first_match(entries, bytes, 0) {
        Some(at) => {
            assert(known(entries)[at] == bytes);
            assert(known(others) =~= known(entries).remove(at));
            assert forall|i: int, j: int|
                0 <= i < j < known(others).len() implies known(others)[i] != known(others)[j] by {
                let left = if i < at { i } else { i + 1 };
                let right = if j < at { j } else { j + 1 };
                assert(known(others)[i] == known(entries)[left]);
                assert(known(others)[j] == known(entries)[right]);
            }
            assert forall|i: int| 0 <= i < others.len() implies entries.contains(
                #[trigger] others[i],
            ) && known(others)[i] != bytes by {
                let from = if i < at { i } else { i + 1 };
                assert(others[i] == entries[from]);
                assert(known(entries)[from] != known(entries)[at]);
            }
            assert forall|segment: Seq<u8>|
                known(others).to_set().contains(segment) <==> known(entries).to_set().remove(
                    bytes,
                ).contains(segment) by {
                if known(others).contains(segment) {
                    let i = known(others).index_of(segment);
                    let from = if i < at { i } else { i + 1 };
                    assert(known(entries)[from] == segment);
                    assert(others[i].bytes != bytes);
                }
                if known(entries).contains(segment) && segment != bytes {
                    let i = known(entries).index_of(segment);
                    let to = if i < at { i } else { i - 1 };
                    assert(known(others)[to] == segment);
                }
            }
            assert(known(others).to_set() =~= known(entries).to_set().remove(bytes));
        },
        None => {
            if known(entries).contains(bytes) {
                let i = known(entries).index_of(bytes);
                assert(is_entry_of(entries[i], bytes));
            }
            assert(known(others).to_set() =~= known(entries).to_set().remove(bytes));
        },
    }
}

/// The entry that was put back last is found again.
proof fn last_is_found(others: Seq<EntrySpec>, entry: EntrySpec, from: int)
    requires
        0 <= from <= others.len(),
        entry.key == key_of(entry.bytes),
        !known(others).contains(entry.bytes),
    ensures
        first_match(others.push(entry), entry.bytes, from) == Some(others.len() as int),
    decreases others.len() - from,
{
    if from < others.len() {
        assert(known(others)[from] == others[from].bytes);
        last_is_found(others, entry, from + 1);
    }
}

/// Inspecting a line that agrees adds it to what is remembered.
proof fn line_is_remembered(
    cache: CacheSpec,
    whole: Seq<char>,
    lines: Seq<Seq<u8>>,
    line: Seq<u8>,
)
    requires
        remembers(cache, lines),
        agreeing_line(whole, line),
        lines.push(line).to_set().len() <= SEGMENT_CACHE_CAPACITY,
    ensures
        remembers(cache.inspected(whole, line), lines.push(line)),
{
    others_lack(cache, line);
    let entries = cache.entries;
    let others = cache.others(line);
    let entry = cache.entry_of(line);
    let all = lines.push(line);
    assert(all.to_set() =~= lines.to_set().insert(line)) by {
        assert forall|segment: Seq<u8>|
            all.to_set().contains(segment) <==> lines.to_set().insert(line).contains(segment) by {
            if lines.contains(segment) {
                let i = lines.index_of(segment);
                assert(all[i] == segment);
            }
            assert(all[lines.len() as int] == line);
            if all.contains(segment) && segment != line {
                let i = all.index_of(segment);
                assert(lines[i] == segment);
            }
        }
    }
    known(others).unique_seq_to_set();
    known(entries).unique_seq_to_set();
    assert(known(entries).contains(line) <==> lines.to_set().contains(line));
    assert(others.len() + 1 == all.to_set().len());
    let first = entry.validated(whole);
    let middle = cache.validated(whole, line);
    assert(middle.entries == others.push(first));
    assert(!known(others).contains(line)) by {
        if known(others).contains(line) {
            assert(known(others).to_set().contains(line));
        }
    }
    last_is_found(others, first, 0);
    assert(middle.entries.remove(others.len() as int) =~= others);
    let second = first.compared(whole);
    let after = cache.inspected(whole, line);
    assert(after.entries == others.push(second));
    assert(known(after.entries) =~= known(others).push(line));
    assert(known(after.entries).no_duplicates()) by {
        assert forall|i: int, j: int|
            0 <= i < j < known(after.entries).len() implies known(after.entries)[i] != known(
            after.entries,
        )[j] by {
            assert(known(after.entries)[i] == known(others)[i]);
        }
    }
    assert(known(after.entries).to_set() =~= all.to_set()) by {
        assert forall|segment: Seq<u8>|
            known(after.entries).to_set().contains(segment) <==> all.to_set().contains(
                segment,
            ) by {
            let kept = known(others).push(line);
            if known(others).contains(segment) {
                let i = known(others).index_of(segment);
                assert(kept[i] == segment);
            }
            assert(kept[others.len() as int] == line);
            if kept.contains(segment) && segment != line {
                let i = kept.index_of(segment);
                assert(known(others)[i] == segment);
                assert(known(others).to_set().contains(segment));
            }
            if all.to_set().contains(segment) && segment != line {
                assert(known(others).to_set().contains(segment));
            }
        }
    }
    assert forall|i: int| 0 <= i < after.entries.len() implies {
        &&& (#[trigger] after.entries[i]).detector_guess is Some
        &&& after.entries[i].key == key_of(after.entries[i].bytes)
    } by {
        if i < others.len() {
            assert(after.entries[i] == others[i]);
            let at = entries.index_of(others[i]);
            assert(entries[at] == others[i]);
        }
    }
    if known(entries).contains(line) {
        let at = entries.index_of(entry);
        assert(entries[at].detector_guess is Some);
    }
}

/// Before its line end, a line stays pending and nothing is inspected.
proof fn line_stays_pending(cache: CacheSpec, whole: Seq<char>, line: Seq<u8>, count: int)
    requires
        agreeing_line(whole, line),
        0 <= count < line.len(),
    ensures
        scan_bytes(whole, Seq::empty(), line.take(count)) == Ok::<Seq<u8>, SegmentScan>(
            line.take(count),
        ),
        cache.scanned(whole, Seq::empty(), line.take(count)) == cache,
    decreases count,
{
    if count > 0 {
        line_stays_pending(cache, whole, line, count - 1);
        assert(line.take(count).drop_last() =~= line.take(count - 1));
        assert(line.take(count - 1).push(line[count - 1]) =~= line.take(count));
        assert(line.take(count).last() == line[count - 1]);
    } else {
        assert(line.take(0) =~= Seq::<u8>::empty());
    }
}

proof fn lines_are_remembered(whole: Seq<char>, lines: Seq<Seq<u8>>)
    requires
        forall|i: int| 0 <= i < lines.len() ==> agreeing_line(whole, #[trigger] lines[i]),
        lines.to_set().len() <= SEGMENT_CACHE_CAPACITY,
    ensures
        scan_bytes(whole, Seq::empty(), joined_lines(lines)) == Ok::<Seq<u8>, SegmentScan>(
            Seq::empty(),
        ),
        remembers(blank_cache().scanned(whole, Seq::empty(), joined_lines(lines)), lines),
    decreases lines.len(),
{
    let cache = blank_cache().scanned(whole, Seq::empty(), joined_lines(lines));
    if lines.len() == 0 {
        assert(known(cache.entries).to_set() =~= lines.to_set());
    } else {
        let before = lines.drop_last();
        let line = lines.last();
        let content = joined_lines(before);
        assert(before.push(line) =~= lines);
        assert(before.to_set().subset_of(lines.to_set())) by {
            assert forall|segment: Seq<u8>| before.to_set().contains(segment) implies lines.to_set().contains(
                segment,
            ) by {
                let i = before.index_of(segment);
                assert(lines[i] == segment);
            }
        }
        vstd::set_lib::lemma_len_subset(before.to_set(), lines.to_set());
        assert forall|i: int| 0 <= i < before.len() implies agreeing_line(
            whole,
            #[trigger] before[i],
        ) by {
            assert(before[i] == lines[i]);
        }
        lines_are_remembered(whole, before);
        let earlier = blank_cache().scanned(whole, Seq::empty(), content);
        assert(agreeing_line(whole, lines[lines.len() - 1]));
        let open = line.take(line.len() - 1);
        line_stays_pending(earlier, whole, line, line.len() - 1);
        assert(line.drop_last() =~= open);
        assert(open.push(line.last()) =~= line);
        scan_bytes_concat(whole, Seq::empty(), content, line);
        scanned_concat(blank_cache(), whole, Seq::empty(), content, line);
        line_is_remembered(earlier, whole, before, line);
    }
}

/// A content of lines that agree, with no more different ones than are remembered, has one
/// detector consulted for each different line, however often it comes.
pub proof fn each_line_is_consulted_once(whole: Seq<char>, lines: Seq<Seq<u8>>)
    requires
        forall|i: int| 0 <= i < lines.len() ==> agreeing_line(whole, #[trigger] lines[i]),
        lines.to_set().len() <= SEGMENT_CACHE_CAPACITY,
    ensures
        segment_scan(whole, joined_lines(lines)) is Continue,
        consulted_detectors(whole, joined_lines(lines)) == lines.to_set().len(),
{
    lines_are_remembered(whole, lines);
    let cache = blank_cache().scanned(whole, Seq::empty(), joined_lines(lines));
    known(cache.entries).unique_seq_to_set();
    assert(!has_evidence(Seq::<u8>::empty()));
}

/// However often one line that agrees is repeated, one detector is consulted.
pub proof fn repeated_line_is_consulted_once(whole: Seq<char>, line: Seq<u8>, count: nat)
    requires
        agreeing_line(whole, line),
        count > 0,
    ensures
        ({
            let content = joined_lines(Seq::new(count, |i: int| line));
            &&& segment_scan(whole, content) is Continue
            &&& consulted_detectors(whole, content) == 1
        }),
{
    let lines = Seq::new(count, |i: int| line);
    assert(lines[0] == line);
    assert(lines.to_set() =~= set![line]);
    each_line_is_consulted_once(whole, lines);
}

impl SegmentCacheEntry {
    /// Whether everything remembered is what would be computed.
    pub open spec fn truthful(&self) -> bool {
        &&& self.detector_guess matches Some(guess) ==> guess@ == codec::guessed_encoding(
            self.bytes@,
        )
        &&& forall|i: int|
            0 <= i < self.validations@.len() ==> (#[trigger] self.validations@[i]).1
                == legacy::hard_valid(self.validations@[i].0@, self.bytes@)
    }

    fn remembered(&self, name: &str) -> (result: Option<bool>)
        ensures
            result == first_answer(self@.validations, name@, 0),
            self.truthful() ==> (result matches Some(valid) ==> valid == legacy::hard_valid(
                name@,
                self.bytes@,
            )),
    {
        let mut index: usize = 0;
        while index < self.validations.len()
            invariant
                index <= self.validations.len(),
                first_answer(self@.validations, name@, 0) == first_answer(
                    self@.validations,
                    name@,
                    index as int,
                ),
            decreases self.validations.len() - index,
        {
            let (stored, valid) = self.validations[index];
            assert(self@.validations[index as int] == (stored@, valid));
            if same_text(stored, name) {
                return Some(valid);
            }
            index += 1;
        }
        None
    }
}

/// A bounded memory of inspected segments, the least recently used one leaving first. It saves
/// work and never changes an answer.
pub struct SegmentCache {
    pub entries: VecDeque<SegmentCacheEntry>,
    /// How many detectors were consulted so far.
    pub detector_constructions: usize,
}

impl View for SegmentCache {
    type V = CacheSpec;

    open spec fn view(&self) -> CacheSpec {
        CacheSpec {
            entries: entry_views(self.entries@),
            consulted: self.detector_constructions as nat,
        }
    }
}

impl SegmentCache {
    /// Whether the memory is truthful and within its bound.
    pub open spec fn wf(&self) -> bool {
        &&& self.entries@.len() <= SEGMENT_CACHE_CAPACITY
        &&& forall|i: int|
            0 <= i < self.entries@.len() ==> (#[trigger] self.entries@[i]).truthful()
    }

    /// An empty memory.
    pub fn new() -> (cache: Self)
        ensures
            cache.wf(),
            cache@ == blank_cache(),
    {
        let cache = SegmentCache { entries: VecDeque::new(), detector_constructions: 0 };
        assert(cache@ =~= blank_cache());
        cache
    }

    /// Takes the entry for `bytes` out of the memory, or makes a blank one.
    pub fn take_entry(&mut self, bytes: &[u8]) -> (entry: SegmentCacheEntry)
        ensures
            entry@ == old(self)@.entry_of(bytes@),
            entry.bytes@ == bytes@,
            final(self)@ == (CacheSpec { entries: old(self)@.others(bytes@), ..old(self)@ }),
            old(self).wf() ==> entry.truthful() && final(self).wf(),
    {
        let key = segment_key(bytes);
        let mut index: usize = 0;
        while index < self.entries.len()
            invariant
                index <= self.entries@.len(),
                *self == *old(self),
                key == key_of(bytes@),
                first_match(self@.entries, bytes@, 0) == first_match(
                    self@.entries,
                    bytes@,
                    index as int,
                ),
            decreases self.entries@.len() - index,
        {
            let entry = &self.entries[index];
            let found = entry.key == key && same_bytes(entry.bytes.as_slice(), bytes);
            assert(self@.entries[index as int] == entry@);
            if found {
                match self.entries.remove(index) {
                    Some(entry) => {
                        assert(entry_views(self.entries@) =~= entry_views(
                            old(self).entries@,
                        ).remove(index as int));
                        return entry;
                    },
                    None => {},
                }
            }
            index += 1;
        }
        let entry = SegmentCacheEntry {
            key,
            bytes: slice_to_vec(bytes),
            detector_guess: None,
            validations: Vec::new(),
        };
        assert(entry@.validations =~= Seq::<(Seq<char>, bool)>::empty());
        entry
    }

    fn restore_entry(&mut self, entry: SegmentCacheEntry)
        requires
            old(self).wf(),
            entry.truthful(),
        ensures
            final(self).wf(),
            final(self)@ == (CacheSpec {
                entries: restored(old(self)@.entries, entry@),
                ..old(self)@
            }),
    {
        let ghost before = entry_views(self.entries@);
        let ghost shown = entry@;
        self.entries.push_back(entry);
        assert(entry_views(self.entries@) =~= before.push(shown));
        if self.entries.len() > SEGMENT_CACHE_CAPACITY {
            let _ = self.entries.pop_front();
            assert(entry_views(self.entries@) =~= before.push(shown).drop_first());
        }
    }

    /// Whether `bytes` are trusted text in the named encoding.
    pub fn hard_validate(&mut self, name: &'static str, bytes: &[u8]) -> (valid: bool)
        requires
            old(self).wf(),
        ensures
            final(self).wf(),
            valid == legacy::hard_valid(name@, bytes@),
            final(self)@ == old(self)@.validated(name@, bytes@),
    {
        let mut entry = self.take_entry(bytes);
        let valid = Self::validate_entry(&mut entry, name);
        self.restore_entry(entry);
        valid
    }

    fn validate_entry(entry: &mut SegmentCacheEntry, name: &'static str) -> (valid: bool)
        requires
            old(entry).truthful(),
        ensures
            final(entry).truthful(),
            final(entry)@ == old(entry)@.validated(name@),
            valid == legacy::hard_valid(name@, old(entry).bytes@),
    {
        match entry.remembered(name) {
            Some(valid) => valid,
            None => {
                let valid = hard_validate(name, entry.bytes.as_slice());
                let ghost before = entry@.validations;
                entry.validations.push((name, valid));
                assert(entry@.validations =~= before.push((name@, valid)));
                valid
            },
        }
    }

    /// Whether a segment speaks against the encoding of the whole.
    pub fn segment_disagrees(
        &mut self,
        whole: &'static str,
        bytes: &[u8],
        strong: bool,
    ) -> (result: bool)
        requires
            old(self).wf(),
            strong == strong_utf8(bytes@),
        ensures
            final(self).wf(),
            result == disagrees(whole@, bytes@),
            final(self)@ == old(self)@.compared(whole@, bytes@),
    {
        if strong {
            return true;
        }
        let mut entry = self.take_entry(bytes);
        let candidate = match entry.detector_guess {
            Some(candidate) => candidate,
            None => {
                let candidate = guess_encoding(bytes);
                entry.detector_guess = Some(candidate);
                self.detector_constructions = self.detector_constructions.saturating_add(1);
                candidate
            },
        };
        let result = if same_text(candidate, whole) || is_single_byte(candidate) {
            false
        } else {
            Self::validate_entry(&mut entry, candidate)
        };
        self.restore_entry(entry);
        result
    }
}

/// A buffer and the length of its consumed front, once that front was dropped where it is worth
/// the copy: when it is long, or at least half of the buffer.
spec fn compacted(buffer: Seq<u8>, start: int) -> (Seq<u8>, int) {
    if start >= SEGMENT_COMPACT_THRESHOLD || (start > 0 && start >= buffer.len() as int / 2) {
        (buffer.skip(start), 0)
    } else {
        (buffer, start)
    }
}

/// Scans content that arrives in chunks, segment by segment.
pub struct LegacySegmentScanner {
    whole: &'static str,
    buffer: Vec<u8>,
    start: usize,
    evidence: SegmentEvidence,
    cache: SegmentCache,
}

impl LegacySegmentScanner {
    /// The encoding of the whole.
    pub closed spec fn whole(&self) -> Seq<char> {
        self.whole@
    }

    /// The bytes of the segment that has not ended.
    pub closed spec fn pending(&self) -> Seq<u8> {
        self.buffer@.skip(self.start as int)
    }

    /// What is remembered of inspected segments.
    pub closed spec fn memory(&self) -> CacheSpec {
        self.cache@
    }

    /// Whether the scanner can go on; its pending segment is shorter than the limit.
    pub closed spec fn wf(&self) -> bool {
        &&& self.start <= self.buffer.len()
        &&& self.evidence.describes(self.pending())
        &&& self.cache.wf()
        &&& self.pending().len() < LEGACY_SEGMENT_MAX_BYTES
    }

    /// A scanner that has seen nothing.
    pub fn new(whole: &'static str) -> (scanner: Self)
        ensures
            scanner.wf(),
            scanner.whole() == whole@,
            scanner.pending() == Seq::<u8>::empty(),
            scanner.memory() == blank_cache(),
    {
        assert(Seq::<u8>::empty().skip(0) =~= Seq::<u8>::empty());
        LegacySegmentScanner {
            whole,
            buffer: Vec::new(),
            start: 0,
            evidence: SegmentEvidence::new(),
            cache: SegmentCache::new(),
        }
    }

    /// How many detectors were consulted so far.
    pub fn detector_constructions(&self) -> (count: usize)
        ensures
            count == self.memory().consulted,
    {
        self.cache.detector_constructions
    }

    /// The length of the pending segment.
    pub fn pending_len(&self) -> (len: usize)
        requires
            self.wf(),
        ensures
            len == self.pending().len(),
    {
        self.buffer.len() - self.start
    }

    fn inspect_pending(&mut self) -> (outcome: SegmentScan)
        requires
            old(self).start <= old(self).buffer.len(),
            old(self).evidence.describes(old(self).pending()),
            old(self).cache.wf(),
        ensures
            outcome == inspected(old(self).whole(), old(self).pending()),
            final(self).memory() == old(self).memory().inspected(
                old(self).whole(),
                old(self).pending(),
            ),
            final(self).cache.wf(),
            final(self).whole@ == old(self).whole@,
            final(self).buffer == old(self).buffer,
            final(self).start == old(self).start,
            final(self).evidence == old(self).evidence,
    {
        if !self.evidence.has_evidence() {
            return SegmentScan::Continue;
        }
        let segment = slice_to_vec(
            slice_subrange(self.buffer.as_slice(), self.start, self.buffer.len()),
        );
        assert(segment@ =~= self.pending());
        if !self.cache.hard_validate(self.whole, segment.as_slice()) {
            return SegmentScan::CandidateInvalid;
        }
        let strong = self.evidence.is_strong_utf8();
        if self.cache.segment_disagrees(self.whole, segment.as_slice(), strong) {
            SegmentScan::Inconsistent
        } else {
            SegmentScan::Continue
        }
    }

    fn aligned_prefix_len(&mut self) -> (result: Option<usize>)
        requires
            old(self).start <= old(self).buffer.len(),
            old(self).cache.wf(),
        ensures
            match result {
                Some(end) => aligned_prefix(old(self).whole(), old(self).pending(), 0) == Some(
                    end as nat,
                ) && end <= old(self).pending().len() && end + 4 >= old(self).pending().len(),
                None => aligned_prefix(old(self).whole(), old(self).pending(), 0) is None,
            },
            final(self).memory() == old(self).memory().aligned(
                old(self).whole(),
                old(self).pending(),
                0,
            ),
            final(self).cache.wf(),
            final(self).whole@ == old(self).whole@,
            final(self).buffer == old(self).buffer,
            final(self).start == old(self).start,
            final(self).evidence == old(self).evidence,
    {
        let len: usize = self.buffer.len() - self.start;
        let mut trim: usize = 0;
        while trim <= 4
            invariant
                trim <= 5,
                len == self.pending().len(),
                self.start <= self.buffer.len(),
                len == self.buffer.len() - self.start,
                self.cache.wf(),
                self.whole@ == old(self).whole@,
                self.buffer == old(self).buffer,
                self.start == old(self).start,
                self.evidence == old(self).evidence,
                aligned_prefix(old(self).whole(), old(self).pending(), 0) == aligned_prefix(
                    old(self).whole(),
                    old(self).pending(),
                    trim as nat,
                ),
                old(self).memory().aligned(old(self).whole(), old(self).pending(), 0)
                    == self.memory().aligned(old(self).whole(), old(self).pending(), trim as nat),
            decreases 5 - trim,
        {
            if trim <= len {
                let end: usize = len - trim;
                let segment = slice_to_vec(
                    slice_subrange(self.buffer.as_slice(), self.start, self.start + end),
                );
                assert(segment@ =~= self.pending().take(end as int));
                if self.cache.hard_validate(self.whole, segment.as_slice()) {
                    return Some(end);
                }
            }
            trim += 1;
        }
        None
    }

    fn clear_pending(&mut self)
        ensures
            final(self).start == 0,
            final(self).pending() == Seq::<u8>::empty(),
            final(self).evidence.describes(Seq::empty()),
            final(self).buffer@.len() == 0,
            final(self).cache == old(self).cache,
            final(self).whole == old(self).whole,
    {
        self.buffer.clear();
        self.start = 0;
        self.evidence = SegmentEvidence::new();
        assert(self.pending() =~= Seq::<u8>::empty());
    }

    fn compact_pending(&mut self)
        requires
            old(self).start <= old(self).buffer.len(),
        ensures
            (final(self).buffer@, final(self).start as int) == compacted(
                old(self).buffer@,
                old(self).start as int,
            ),
            final(self).start <= final(self).buffer.len(),
            final(self).pending() == old(self).pending(),
            final(self).evidence == old(self).evidence,
            final(self).cache == old(self).cache,
            final(self).whole == old(self).whole,
    {
        if self.start >= SEGMENT_COMPACT_THRESHOLD || (self.start > 0 && self.start
            >= self.buffer.len() / 2) {
            let rest = slice_to_vec(
                slice_subrange(self.buffer.as_slice(), self.start, self.buffer.len()),
            );
            assert(rest@.skip(0) =~= self.pending());
            self.buffer = rest;
            self.start = 0;
        }
    }

    fn push_byte<W: WorkCheckpoint>(&mut self, byte: u8, work: &W) -> (result: Result<
        SegmentScan,
        WorkStop,
    >)
        requires
            old(self).wf(),
        ensures
            final(self).whole() == old(self).whole(),
            work.never_stops() ==> result is Ok,
            result matches Err(stop) ==> work.stops_with(stop),
            match result {
                Ok(SegmentScan::Continue) => {
                    &&& final(self).wf()
                    &&& next_pending(old(self).whole(), old(self).pending().push(byte)) == Ok::<
                        Seq<u8>,
                        SegmentScan,
                    >(final(self).pending())
                    &&& final(self).memory() == old(self).memory().advanced(
                        old(self).whole(),
                        old(self).pending().push(byte),
                    )
                },
                Ok(outcome) => {
                    &&& final(self).pending().len() <= LEGACY_SEGMENT_MAX_BYTES
                    &&& next_pending(old(self).whole(), old(self).pending().push(byte)) == Err::<
                        Seq<u8>,
                        SegmentScan,
                    >(outcome)
                    &&& final(self).memory() == old(self).memory().advanced(
                        old(self).whole(),
                        old(self).pending().push(byte),
                    )
                },
                Err(_) => true,
            },
    {
        let ghost before = self.pending();
        let ghost grown = before.push(byte);
        self.buffer.push(byte);
        self.evidence.push(byte);
        assert(self.pending() =~= grown);
        assert(self.evidence.describes(before.push(byte)));
        assert(grown.last() == byte);
        if byte == 0x0A && self.evidence.has_evidence() {
            work.check_work(WorkStage::LegacySegment)?;
            let outcome = self.inspect_pending();
            if outcome != SegmentScan::Continue {
                return Ok(outcome);
            }
            self.clear_pending();
            work.check_stop()?;
        } else if self.buffer.len() - self.start >= LEGACY_SEGMENT_MAX_BYTES {
            work.check_work(WorkStage::LegacySegment)?;
            let end = match self.aligned_prefix_len() {
                Some(end) => end,
                None => {
                    return Ok(SegmentScan::CandidateInvalid);
                },
            };
            let segment = slice_to_vec(
                slice_subrange(self.buffer.as_slice(), self.start, self.start + end),
            );
            assert(segment@ =~= grown.take(end as int));
            let evidence = SegmentEvidence::from_bytes(segment.as_slice());
            let strong = evidence.is_strong_utf8();
            if self.cache.segment_disagrees(self.whole, segment.as_slice(), strong) {
                return Ok(SegmentScan::Inconsistent);
            }
            self.start = self.start + end;
            let rest = slice_to_vec(
                slice_subrange(self.buffer.as_slice(), self.start, self.buffer.len()),
            );
            assert(rest@ =~= self.pending());
            assert(self.pending() =~= grown.skip(end as int));
            self.evidence = SegmentEvidence::from_bytes(rest.as_slice());
            self.compact_pending();
            work.check_stop()?;
        }
        Ok(SegmentScan::Continue)
    }

    /// Scans one more chunk. `Continue` keeps a pending segment for what follows; any other
    /// outcome is final.
    pub fn push<W: WorkCheckpoint>(&mut self, input: &[u8], work: &W) -> (result: Result<
        SegmentScan,
        WorkStop,
    >)
        requires
            old(self).wf(),
        ensures
            final(self).whole() == old(self).whole(),
            work.never_stops() ==> result is Ok,
            result matches Err(stop) ==> work.stops_with(stop),
            match result {
                Ok(SegmentScan::Continue) => {
                    &&& final(self).wf()
                    &&& scan_bytes(old(self).whole(), old(self).pending(), input@) == Ok::<
                        Seq<u8>,
                        SegmentScan,
                    >(final(self).pending())
                    &&& final(self).memory() == old(self).memory().scanned(
                        old(self).whole(),
                        old(self).pending(),
                        input@,
                    )
                },
                Ok(outcome) => {
                    &&& final(self).pending().len() <= LEGACY_SEGMENT_MAX_BYTES
                    &&& scan_bytes(old(self).whole(), old(self).pending(), input@) == Err::<
                        Seq<u8>,
                        SegmentScan,
                    >(outcome)
                    &&& final(self).memory() == old(self).memory().scanned(
                        old(self).whole(),
                        old(self).pending(),
                        input@,
                    )
                },
                Err(_) => true,
            },
    {
        let ghost whole = self.whole();
        let ghost before = self.pending();
        let mut index: usize = 0;
        assert(input@.take(0) =~= Seq::<u8>::empty());
        while index < input.len()
            invariant
                index <= input.len(),
                self.wf(),
                whole == old(self).whole(),
                before == old(self).pending(),
                self.whole() == whole,
                scan_bytes(whole, before, input@.take(index as int)) == Ok::<Seq<u8>, SegmentScan>(
                    self.pending(),
                ),
                self.memory() == old(self).memory().scanned(
                    whole,
                    before,
                    input@.take(index as int),
                ),
            decreases input.len() - index,
        {
            let byte: u8 = input[index];
            proof {
                scan_one_more(whole, before, input@, index as int);
                scanned_one_more(old(self).memory(), whole, before, input@, index as int);
            }
            let outcome = self.push_byte(byte, work)?;
            if outcome != SegmentScan::Continue {
                proof {
                    scan_bytes_concat(
                        whole,
                        before,
                        input@.take(index + 1),
                        input@.skip(index + 1),
                    );
                    scanned_concat(
                        old(self).memory(),
                        whole,
                        before,
                        input@.take(index + 1),
                        input@.skip(index + 1),
                    );
                    assert(input@.take(index + 1) + input@.skip(index + 1) =~= input@);
                }
                return Ok(outcome);
            }
            index += 1;
        }
        assert(input@.take(input@.len() as int) =~= input@);
        Ok(SegmentScan::Continue)
    }

    /// Ends the content.
    pub fn finish<W: WorkCheckpoint>(&mut self, work: &W) -> (result: Result<
        SegmentScan,
        WorkStop,
    >)
        requires
            old(self).wf(),
        ensures
            work.never_stops() ==> result is Ok,
            result matches Err(stop) ==> work.stops_with(stop),
            result matches Ok(outcome) ==> {
                &&& outcome == inspected(old(self).whole(), old(self).pending())
                &&& final(self).memory() == old(self).memory().inspected(
                    old(self).whole(),
                    old(self).pending(),
                )
            },
    {
        work.check_work(WorkStage::LegacySegment)?;
        let outcome = self.inspect_pending();
        work.check_stop()?;
        Ok(outcome)
    }
}

} // verus!
