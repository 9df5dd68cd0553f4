//! Reading a file into a snapshot: how much to ask for next, when to stop, and when a snapshot
//! moves from memory into a temporary file.

use crate::encoding::pipeline;
use crate::encoding::rejection::{EncodingRejection, RejectionSpec};
use crate::operation::{WorkCheckpoint, WorkStage, WorkStop};
use crate::snapshot::classifier;
use crate::snapshot::classifier::{CaptureClassifier, TerminalProof, PREFLIGHT_BYTES};
use vstd::prelude::*;
use vstd::slice::{slice_subrange, slice_to_vec};

verus! {

/// Bytes read at a time after the first ones.
pub const SNAPSHOT_CHUNK_BYTES: usize = 65536;

/// The largest snapshot that stays in memory.
pub const MEMORY_SNAPSHOT_LIMIT: usize = 8388608;

/// Why a capture failed, apart from a file that keeps changing.
#[derive(Debug)]
pub enum CaptureFailure<E> {
    /// The request was cancelled.
    Cancelled,
    /// The generation that the work belongs to was retired.
    EpochRetired,
    /// A label selects no encoding.
    InvalidEncoding(EncodingRejection),
    /// The file could not be read.
    Io(E),
    /// The snapshot could not be stored.
    Snapshot(E),
}

/// Whether a failure only says that the work was told to stop.
pub open spec fn is_stop<E>(failure: CaptureFailure<E>) -> bool {
    failure is Cancelled || failure is EpochRetired
}

/// Whether a failure tells that the work was told to stop, for a reason that a check of it may
/// give.
pub open spec fn stopped_by<E, W: WorkCheckpoint>(work: &W, failure: CaptureFailure<E>) -> bool {
    match failure {
        CaptureFailure::Cancelled => work.stops_with(WorkStop::RequestCancelled),
        CaptureFailure::EpochRetired => work.stops_with(WorkStop::EpochRetired),
        _ => false,
    }
}

/// The failure that a stop stands for.
pub fn stop_failure<E>(stop: WorkStop) -> (failure: CaptureFailure<E>)
    ensures
        is_stop(failure),
        failure is Cancelled <==> stop == WorkStop::RequestCancelled,
        failure is EpochRetired <==> stop == WorkStop::EpochRetired,
{
    match stop {
        WorkStop::RequestCancelled => CaptureFailure::Cancelled,
        WorkStop::EpochRetired => CaptureFailure::EpochRetired,
    }
}

/// Asks whether a capture may go on.
pub fn checkpoint<E, W: WorkCheckpoint>(work: &W) -> (result: Result<(), CaptureFailure<E>>)
    ensures
        work.never_stops() ==> result is Ok,
        work.always_stops() ==> result is Err,
        result matches Err(failure) ==> stopped_by(work, failure),
{
    match work.check_stop() {
        Ok(()) => Ok(()),
        Err(stop) => Err(stop_failure(stop)),
    }
}

/// Asks whether a capture may go on past a stage, before and after it is entered.
pub fn stage_checkpoint<E, W: WorkCheckpoint>(work: &W, stage: WorkStage) -> (result: Result<
    (),
    CaptureFailure<E>,
>)
    ensures
        work.never_stops() ==> result is Ok,
        work.always_stops() ==> result is Err,
        result matches Err(failure) ==> stopped_by(work, failure),
{
    checkpoint(work)?;
    match work.check_work(stage) {
        Ok(()) => Ok(()),
        Err(stop) => Err(stop_failure(stop)),
    }
}

/// The failure to report: a stop goes before whatever else went wrong.
pub fn prefer_stop<E, W: WorkCheckpoint>(work: &W, failure: CaptureFailure<E>) -> (result:
    CaptureFailure<E>)
    ensures
        work.never_stops() ==> result == failure,
        work.always_stops() ==> stopped_by(work, result),
        result == failure || stopped_by(work, result),
{
    match checkpoint(work) {
        Ok(()) => failure,
        Err(stop) => stop,
    }
}

/// Where the bytes of one more chunk go.
#[derive(Debug)]
pub enum StoreStep {
    /// They are in memory.
    Kept,
    /// Create a temporary file, write the bytes held so far to it, then the chunk.
    Promote(Vec<u8>),
    /// Write the chunk to the temporary file.
    Write,
}

/// The bytes captured so far.
pub struct SnapshotBuilder {
    memory: Option<Vec<u8>>,
    len: u64,
    stored: Ghost<Seq<u8>>,
}

/// A length as a word of 64 bits holds it.
pub open spec fn word_len(len: nat) -> nat {
    if len > u64::MAX {
        u64::MAX as nat
    } else {
        len
    }
}

impl SnapshotBuilder {
    /// Everything captured so far.
    pub closed spec fn stored(&self) -> Seq<u8> {
        self.stored@
    }

    /// Whether the bytes are in memory.
    pub closed spec fn in_memory(&self) -> bool {
        self.memory is Some
    }

    /// A snapshot is in memory exactly as long as it is within the limit.
    pub closed spec fn wf(&self) -> bool {
        &&& self.len == word_len(self.stored@.len())
        &&& self.memory is Some <==> self.stored@.len() <= MEMORY_SNAPSHOT_LIMIT
        &&& self.memory matches Some(memory) ==> memory@ == self.stored@
    }

    /// Nothing captured yet.
    pub fn new() -> (builder: Self)
        ensures
            builder.wf(),
            builder.stored() == Seq::<u8>::empty(),
            builder.in_memory(),
    {
        SnapshotBuilder { memory: Some(Vec::new()), len: 0, stored: Ghost(Seq::empty()) }
    }

    /// Takes one more chunk in.
    pub fn append(&mut self, bytes: &[u8]) -> (step: StoreStep)
        requires
            old(self).wf(),
        ensures
            final(self).wf(),
            final(self).stored() == old(self).stored() + bytes@,
            final(self).in_memory() == ((old(self).stored() + bytes@).len()
                <= MEMORY_SNAPSHOT_LIMIT),
            match step {
                StoreStep::Kept => final(self).in_memory(),
                StoreStep::Promote(held) => {
                    &&& old(self).in_memory()
                    &&& !final(self).in_memory()
                    &&& held@ == old(self).stored()
                },
                StoreStep::Write => !old(self).in_memory() && !final(self).in_memory(),
            },
    {
        let ghost before = self.stored@;
        let ghost total = self.stored@ + bytes@;
        let mut memory: Option<Vec<u8>> = None;
        core::mem::swap(&mut memory, &mut self.memory);
        let grown = match self.len.checked_add(bytes.len() as u64) {
            Some(len) => len,
            None => u64::MAX,
        };
        self.len = grown;
        self.stored = Ghost(total);
        match memory {
            Some(held) => {
                let mut held = held;
                assert(held.len() <= MEMORY_SNAPSHOT_LIMIT);
                if bytes.len() > MEMORY_SNAPSHOT_LIMIT - held.len() {
                    StoreStep::Promote(held)
                } else {
                    held.extend_from_slice(bytes);
                    assert(held@ =~= total);
                    self.memory = Some(held);
                    StoreStep::Kept
                }
            },
            None => StoreStep::Write,
        }
    }

    /// The finished snapshot.
    pub fn finish(self) -> (captured: CapturedSnapshot)
        requires
            self.wf(),
        ensures
            captured.len == word_len(self.stored().len()),
            captured.memory is Some <==> self.stored().len() <= MEMORY_SNAPSHOT_LIMIT,
            captured.memory matches Some(memory) ==> memory@ == self.stored(),
    {
        CapturedSnapshot { len: self.len, memory: self.memory }
    }
}

/// A finished snapshot: its length, and its bytes unless they are in a temporary file.
#[derive(Debug)]
pub struct CapturedSnapshot {
    pub len: u64,
    pub memory: Option<Vec<u8>>,
}

impl CapturedSnapshot {
    /// The first bytes, at most so many, of a snapshot in memory.
    pub fn memory_prefix(&self, maximum: usize) -> (prefix: Option<&[u8]>)
        ensures
            match prefix {
                Some(prefix) => self.memory matches Some(memory) && prefix@ == memory@.take(
                    if memory@.len() < maximum {
                        memory@.len() as int
                    } else {
                        maximum as int
                    },
                ),
                None => self.memory is None,
            },
    {
        match &self.memory {
            Some(memory) => {
                let end: usize = if memory.len() < maximum {
                    memory.len()
                } else {
                    maximum
                };
                let prefix = slice_subrange(memory.as_slice(), 0, end);
                assert(prefix@ =~= memory@.take(end as int));
                Some(prefix)
            },
            None => None,
        }
    }

    /// The part of the snapshot from `start` on.
    pub fn shared_range(&self, start: u64) -> (range: Result<SnapshotByteRange, RangeError>)
        ensures
            match range {
                Ok(range) => start <= self.len && range.start == start && range.len == self.len
                    - start,
                Err(error) => start > self.len && error == RangeError::Beyond,
            },
    {
        if start > self.len {
            Err(RangeError::Beyond)
        } else {
            Ok(SnapshotByteRange { start, len: self.len - start })
        }
    }
}

/// A part of a snapshot.
#[derive(Clone, Copy, Debug)]
pub struct SnapshotByteRange {
    pub start: u64,
    pub len: u64,
}

/// Why a part of a snapshot cannot be read.
#[derive(Clone, Copy, Debug, PartialEq, Eq, Structural)]
pub enum RangeError {
    /// The part begins after the end of the snapshot.
    Beyond,
    /// The part lies outside the snapshot.
    Outside,
    /// The part does not fit in memory.
    TooLarge,
    /// Its offset does not fit in a machine word.
    Overflow,
}

impl RangeError {
    /// The error in words.
    pub open spec fn written(self) -> Seq<char> {
        match self {
            RangeError::Beyond => "decoded text starts beyond the captured snapshot"@,
            RangeError::Outside => "captured text range lies outside its snapshot backing"@,
            RangeError::TooLarge => "captured text range does not fit in memory"@,
            RangeError::Overflow => "snapshot offset overflow"@,
        }
    }

    /// The error in words.
    pub fn message(self) -> (message: &'static str)
        ensures
            message@ == self.written(),
    {
        match self {
            RangeError::Beyond => "decoded text starts beyond the captured snapshot",
            RangeError::Outside => "captured text range lies outside its snapshot backing",
            RangeError::TooLarge => "captured text range does not fit in memory",
            RangeError::Overflow => "snapshot offset overflow",
        }
    }
}

impl SnapshotByteRange {
    /// Where a part of this part lies: the absolute offset and the length, or why it cannot be
    /// read.
    pub open spec fn located(self, from: u64, to: u64) -> Result<(int, int), RangeError> {
        if from > to || to > self.len {
            Err(RangeError::Outside)
        } else if to - from > usize::MAX {
            Err(RangeError::TooLarge)
        } else if self.start + from > u64::MAX {
            Err(RangeError::Overflow)
        } else {
            Ok((self.start + from, to - from))
        }
    }

    /// Where a part of this part lies.
    pub fn locate(&self, from: u64, to: u64) -> (result: Result<(u64, usize), RangeError>)
        ensures
            match result {
                Ok((start, len)) => self.located(from, to) == Ok::<(int, int), RangeError>(
                    (start as int, len as int),
                ),
                Err(error) => self.located(from, to) == Err::<(int, int), RangeError>(error),
            },
    {
        if from > to || to > self.len {
            return Err(RangeError::Outside);
        }
        let wide: u64 = to - from;
        if wide > usize::MAX as u64 {
            return Err(RangeError::TooLarge);
        }
        match self.start.checked_add(from) {
            Some(start) => Ok((start, wide as usize)),
            None => Err(RangeError::Overflow),
        }
    }

    /// What reading a part of this part yields from a snapshot in memory.
    pub open spec fn part_of(self, memory: Seq<u8>, from: u64, to: u64) -> Result<
        Seq<u8>,
        RangeError,
    > {
        match self.located(from, to) {
            Err(error) => Err(error),
            Ok((start, len)) => if start > usize::MAX {
                Err(RangeError::Overflow)
            } else if start + len > memory.len() {
                Err(RangeError::Outside)
            } else {
                Ok(memory.subrange(start, start + len))
            },
        }
    }

    /// Reads a part of this part from a snapshot in memory.
    pub fn read_range(&self, memory: &[u8], from: u64, to: u64) -> (result: Result<
        Vec<u8>,
        RangeError,
    >)
        ensures
            match result {
                Ok(bytes) => self.part_of(memory@, from, to) == Ok::<Seq<u8>, RangeError>(bytes@),
                Err(error) => self.part_of(memory@, from, to) == Err::<Seq<u8>, RangeError>(error),
            },
    {
        let (start, len) = match self.locate(from, to) {
            Ok(located) => located,
            Err(error) => {
                return Err(error);
            },
        };
        if start > usize::MAX as u64 {
            return Err(RangeError::Overflow);
        }
        let begin: usize = start as usize;
        let size: usize = memory.len();
        match begin.checked_add(len) {
            Some(end) => if end <= size {
                let bytes = slice_to_vec(slice_subrange(memory, begin, end));
                assert(bytes@ =~= memory@.subrange(begin as int, end as int));
                Ok(bytes)
            } else {
                Err(RangeError::Outside)
            },
            None => Err(RangeError::Outside),
        }
    }

    /// The bytes of this part, when it lies within a snapshot in memory.
    pub fn memory_bytes<'a>(&self, memory: &'a [u8]) -> (bytes: Option<&'a [u8]>)
        ensures
            match bytes {
                Some(bytes) => self.start + self.len <= memory@.len() && bytes@ == memory@.subrange(
                    self.start as int,
                    self.start + self.len,
                ),
                None => self.start + self.len > memory@.len(),
            },
    {
        let size: usize = memory.len();
        match self.start.checked_add(self.len) {
            Some(end) => if end <= size as u64 {
                let begin: usize = self.start as usize;
                let stop: usize = end as usize;
                Some(slice_subrange(memory, begin, stop))
            } else {
                None
            },
            None => None,
        }
    }
}

/// What became of reading a file.
#[derive(Debug)]
pub enum CaptureRead {
    /// The verdict is settled.
    Terminal(TerminalProof),
    /// The whole file was read.
    Complete(CapturedSnapshot),
}

/// What to do with the chunk that was read last.
#[derive(Debug)]
pub enum CaptureStep {
    /// Stop reading: the verdict is settled.
    Stop(TerminalProof),
    /// Store the chunk and read on.
    Store(StoreStep),
    /// The file is over, and no verdict settled before.
    Finish,
}

/// Whether, as far as four bytes tell, the labels that are needed select an encoding.
pub open spec fn labels_known(
    explicit: Option<Seq<char>>,
    fallback: Option<Seq<char>>,
    seen: Seq<u8>,
) -> bool {
    seen.len() >= 4 ==> classifier::bad_label(explicit, fallback, seen) is None
}

/// A file that is being read.
pub struct CaptureReader {
    classifier: CaptureClassifier,
    builder: SnapshotBuilder,
    preflight: usize,
}

impl CaptureReader {
    /// The bytes read so far.
    pub closed spec fn seen(&self) -> Seq<u8> {
        self.builder.stored()
    }

    /// The label asked for.
    pub closed spec fn explicit(&self) -> Option<Seq<char>> {
        self.classifier.explicit()
    }

    /// The fallback label.
    pub closed spec fn fallback(&self) -> Option<Seq<char>> {
        self.classifier.fallback()
    }

    /// Whether what is known fits what was read.
    pub closed spec fn wf(&self) -> bool {
        &&& self.classifier.wf()
        &&& self.builder.wf()
        &&& self.classifier.seen() == self.builder.stored()
        &&& self.preflight == if self.seen().len() < PREFLIGHT_BYTES {
            self.seen().len()
        } else {
            PREFLIGHT_BYTES as nat
        }
    }

    /// Nothing read yet.
    pub fn new(explicit: Option<&str>, fallback: Option<&str>) -> (reader: Self)
        ensures
            reader.wf(),
            reader.seen() == Seq::<u8>::empty(),
            reader.explicit() == pipeline::str_view(explicit),
            reader.fallback() == pipeline::str_view(fallback),
    {
        CaptureReader {
            classifier: CaptureClassifier::new(explicit, fallback),
            builder: SnapshotBuilder::new(),
            preflight: 0,
        }
    }

    /// How many bytes to ask for next: the rest of the first ones, then whole chunks.
    pub open spec fn wanted(&self) -> nat {
        if self.seen().len() < PREFLIGHT_BYTES {
            (PREFLIGHT_BYTES - self.seen().len()) as nat
        } else {
            SNAPSHOT_CHUNK_BYTES as nat
        }
    }

    /// How many bytes to ask for next.
    pub fn request(&self) -> (count: usize)
        requires
            self.wf(),
        ensures
            count == self.wanted(),
            0 < count <= SNAPSHOT_CHUNK_BYTES,
    {
        if self.preflight < PREFLIGHT_BYTES {
            PREFLIGHT_BYTES - self.preflight
        } else {
            SNAPSHOT_CHUNK_BYTES
        }
    }

    /// The stage that reading is in.
    pub fn stage(&self) -> (stage: WorkStage)
        requires
            self.wf(),
        ensures
            stage == if self.seen().len() < PREFLIGHT_BYTES {
                WorkStage::CapturePreflightRead
            } else {
                WorkStage::SnapshotChunk
            },
    {
        if self.preflight < PREFLIGHT_BYTES {
            WorkStage::CapturePreflightRead
        } else {
            WorkStage::SnapshotChunk
        }
    }

    /// Takes in what was read. Reading stops early only with a verdict that the rest of the file
    /// cannot change.
    pub fn accept(&mut self, chunk: &[u8]) -> (result: Result<CaptureStep, EncodingRejection>)
        requires
            old(self).wf(),
            chunk.len() <= old(self).wanted(),
        ensures
            result is Ok ==> labels_known(
                old(self).explicit(),
                old(self).fallback(),
                old(self).seen() + chunk@,
            ),
            match result {
                Ok(CaptureStep::Stop(reason)) => {
                    &&& classifier::terminal_spec(
                        old(self).explicit(),
                        old(self).fallback(),
                        old(self).seen() + chunk@,
                    ) == Some(reason@)
                    &&& forall|more: Seq<u8>| #[trigger]
                        classifier::disposition(
                            old(self).seen() + chunk@ + more,
                            old(self).explicit(),
                            old(self).fallback(),
                        ) == reason@.disposition()
                },
                Ok(CaptureStep::Finish) => false,
                Ok(CaptureStep::Store(step)) => {
                    &&& final(self).wf()
                    &&& final(self).explicit() == old(self).explicit()
                    &&& final(self).fallback() == old(self).fallback()
                    &&& final(self).seen() == old(self).seen() + chunk@
                    &&& classifier::terminal_spec(
                        old(self).explicit(),
                        old(self).fallback(),
                        final(self).seen(),
                    ) is None
                    &&& step is Kept <==> final(self).seen().len() <= MEMORY_SNAPSHOT_LIMIT
                    &&& step is Promote <==> old(self).seen().len() <= MEMORY_SNAPSHOT_LIMIT
                        && final(self).seen().len() > MEMORY_SNAPSHOT_LIMIT
                    &&& step matches StoreStep::Promote(held) ==> held@ == old(self).seen()
                },
                Err(rejection) => {
                    &&& (old(self).seen() + chunk@).len() >= 4
                    &&& classifier::bad_label(
                        old(self).explicit(),
                        old(self).fallback(),
                        old(self).seen() + chunk@,
                    ) matches Some(value)
                    &&& rejection@ == RejectionSpec::InvalidLabel(value)
                },
            },
    {
        match self.classifier.feed(chunk) {
            Err(rejection) => Err(rejection),
            Ok(Some(reason)) => Ok(CaptureStep::Stop(reason)),
            Ok(None) => {
                if self.preflight < PREFLIGHT_BYTES {
                    self.preflight = self.preflight + chunk.len();
                }
                Ok(CaptureStep::Store(self.builder.append(chunk)))
            },
        }
    }

    /// Gets ready to read on, unless told to stop: how many bytes to ask for.
    pub fn before_read<E, W: WorkCheckpoint>(&self, work: &W) -> (result: Result<
        usize,
        CaptureFailure<E>,
    >)
        requires
            self.wf(),
        ensures
            work.never_stops() ==> result is Ok,
            work.always_stops() ==> result is Err,
            match result {
                Ok(count) => count == self.wanted(),
                Err(failure) => stopped_by(work, failure),
            },
    {
        stage_checkpoint(work, self.stage())?;
        Ok(self.request())
    }

    /// Takes in what became of reading; an empty chunk is the end of the file. A stop goes before
    /// every failure and before every verdict.
    pub fn after_read<E, W: WorkCheckpoint>(&mut self, outcome: Result<&[u8], E>, work: &W) -> (
        result: Result<CaptureStep, CaptureFailure<E>>)
        requires
            old(self).wf(),
            outcome matches Ok(chunk) ==> chunk.len() <= old(self).wanted(),
        ensures
            work.always_stops() ==> (result matches Err(failure) && stopped_by(work, failure)),
            result is Ok && outcome->Ok_0@.len() > 0 ==> labels_known(
                old(self).explicit(),
                old(self).fallback(),
                old(self).seen() + outcome->Ok_0@,
            ),
            match result {
                Ok(CaptureStep::Stop(reason)) => {
                    &&& outcome matches Ok(chunk)
                    &&& classifier::terminal_spec(
                        old(self).explicit(),
                        old(self).fallback(),
                        old(self).seen() + chunk@,
                    ) == Some(reason@)
                    &&& forall|more: Seq<u8>| #[trigger]
                        classifier::disposition(
                            old(self).seen() + chunk@ + more,
                            old(self).explicit(),
                            old(self).fallback(),
                        ) == reason@.disposition()
                },
                Ok(CaptureStep::Finish) => {
                    &&& outcome matches Ok(chunk) && chunk@.len() == 0
                    &&& *final(self) == *old(self)
                    &&& classifier::terminal_spec(
                        old(self).explicit(),
                        old(self).fallback(),
                        old(self).seen(),
                    ) is None
                },
                Ok(CaptureStep::Store(step)) => {
                    &&& outcome matches Ok(chunk)
                    &&& chunk@.len() > 0
                    &&& final(self).wf()
                    &&& final(self).explicit() == old(self).explicit()
                    &&& final(self).fallback() == old(self).fallback()
                    &&& final(self).seen() == old(self).seen() + chunk@
                    &&& classifier::terminal_spec(
                        old(self).explicit(),
                        old(self).fallback(),
                        final(self).seen(),
                    ) is None
                    &&& step is Kept <==> final(self).seen().len() <= MEMORY_SNAPSHOT_LIMIT
                    &&& step is Promote <==> old(self).seen().len() <= MEMORY_SNAPSHOT_LIMIT
                        && final(self).seen().len() > MEMORY_SNAPSHOT_LIMIT
                    &&& step matches StoreStep::Promote(held) ==> held@ == old(self).seen()
                },
                Err(CaptureFailure::Io(error)) => outcome == Err::<&[u8], E>(error),
                Err(CaptureFailure::InvalidEncoding(rejection)) => {
                    &&& outcome matches Ok(chunk)
                    &&& (old(self).seen() + chunk@).len() >= 4
                    &&& classifier::bad_label(
                        old(self).explicit(),
                        old(self).fallback(),
                        old(self).seen() + chunk@,
                    ) matches Some(value)
                    &&& rejection@ == RejectionSpec::InvalidLabel(value)
                },
                Err(failure) => stopped_by(work, failure) && !work.never_stops(),
            },
    {
        let chunk = match outcome {
            Ok(chunk) => chunk,
            Err(error) => {
                return Err(prefer_stop(work, CaptureFailure::Io(error)));
            },
        };
        checkpoint(work)?;
        if chunk.len() == 0 {
            let found = self.classifier.terminal_proof();
            assert(self.seen() + chunk@ =~= self.seen());
            checkpoint(work)?;
            return match found {
                Some(reason) => Ok(CaptureStep::Stop(reason)),
                None => Ok(CaptureStep::Finish),
            };
        }
        match self.accept(chunk) {
            Err(rejection) => Err(prefer_stop(work, CaptureFailure::InvalidEncoding(rejection))),
            Ok(step) => {
                checkpoint(work)?;
                if let CaptureStep::Store(StoreStep::Promote(_)) = &step {
                    stage_checkpoint(work, WorkStage::SnapshotPromote)?;
                }
                Ok(step)
            },
        }
    }

    /// Ends the file.
    pub fn finish(self) -> (read: CaptureRead)
        requires
            self.wf(),
        ensures
            match read {
                CaptureRead::Terminal(reason) => {
                    &&& classifier::terminal_spec(self.explicit(), self.fallback(), self.seen())
                        == Some(reason@)
                    &&& classifier::disposition(self.seen(), self.explicit(), self.fallback())
                        == reason@.disposition()
                },
                CaptureRead::Complete(captured) => {
                    &&& classifier::terminal_spec(self.explicit(), self.fallback(), self.seen())
                        is None
                    &&& captured.len == word_len(self.seen().len())
                    &&& captured.memory is Some <==> self.seen().len() <= MEMORY_SNAPSHOT_LIMIT
                    &&& captured.memory matches Some(memory) ==> memory@ == self.seen()
                },
            },
    {
        match self.classifier.terminal_proof() {
            Some(reason) => {
                assert(self.seen() + Seq::<u8>::empty() =~= self.seen());
                CaptureRead::Terminal(reason)
            },
            None => CaptureRead::Complete(self.builder.finish()),
        }
    }
}

/// What became of capturing a candidate.
#[derive(Debug)]
#[allow(inconsistent_fields)]
pub enum CaptureDisposition {
    /// A snapshot that can be searched.
    Searchable(CapturedSnapshot),
    /// Binary content.
    BinarySkipped(TerminalProof),
    /// Content in no accepted encoding.
    EncodingRejected { rejection: EncodingRejection, reason: TerminalProof },
    /// The file changed while it was read.
    FileChanged,
}

/// What became of capturing a candidate, once it is known whether the file stayed the same.
pub fn settle_capture(stable: bool, read: CaptureRead) -> (outcome: CaptureDisposition)
    ensures
        !stable ==> outcome == CaptureDisposition::FileChanged,
        stable ==> match read {
            CaptureRead::Complete(captured) => outcome == CaptureDisposition::Searchable(captured),
            CaptureRead::Terminal(reason) => match reason@.rejection() {
                None => outcome == CaptureDisposition::BinarySkipped(reason),
                Some(found) => outcome matches CaptureDisposition::EncodingRejected {
                    rejection,
                    reason: kept,
                } && rejection@ == found && kept == reason,
            },
        },
{
    if !stable {
        return CaptureDisposition::FileChanged;
    }
    match read {
        CaptureRead::Complete(captured) => CaptureDisposition::Searchable(captured),
        CaptureRead::Terminal(reason) => match reason.rejection() {
            Some(rejection) => CaptureDisposition::EncodingRejected { rejection, reason },
            None => CaptureDisposition::BinarySkipped(reason),
        },
    }
}

} // verus!
